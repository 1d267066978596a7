use ant_invaders::components::{
    Damage, Enemy, EnemyState, FromEnemy, Health, Laser, Movable, ParentEntity, Player,
    SpriteSize, Transform, Velocity,
};
use ant_invaders::enemy::formation::{Formation, FormationDraw};
use ant_invaders::enemy::{
    enemy_fire_system, enemy_spawn_scheduler, enemy_spawn_scheduler_with, enemy_spawn_system,
    enemy_spawn_with, SpawnError,
};
use ant_invaders::resources::{Config, EnemyCount, WinSize, TIME_STEP};
use ant_invaders::timer::CooldownTimer;
use ant_invaders::world::{Entity, World};

fn sky(enemy_max: u32, squad_cap: u32) -> World {
    let config = Config { enemy_max, squad_cap, ..Config::default() };
    match World::new(WinSize { w: 598_000, h: 676_000 }, config) {
        Ok(world) => world,
        Err(_) => panic!("the configuration is valid"),
    }
}

fn pick(y: i32) -> FormationDraw {
    FormationDraw { right: false, y, pivot: (10_000, 20_000), radius_x: 170_000 }
}

fn gunner(at: (i32, i32), remaining: u32) -> Entity {
    Entity {
        transform: Some(Transform { translation: at, facing: (3, 4), scale: 500 }),
        enemy: Some(Enemy),
        velocity: Some(Velocity { x: 0, y: 0 }),
        enemy_state: Some(
            EnemyState { fire_cooldown: CooldownTimer { remaining, period: 1_000_000 } },
        ),
        ..Entity::new()
    }
}

#[test]
fn an_enemy_comes_in_at_the_start_of_its_formation() {
    let mut world = sky(5, 2);
    enemy_spawn_with(&mut world, pick(-40_000));
    let formation = Formation {
        start: (-399_000, -40_000),
        radius: (170_000, 100_000),
        pivot: (10_000, 20_000),
        speed: 250_000,
        angle: 0,
    };
    assert_eq!(
        world.entities,
        vec![Entity {
            id: 0,
            transform: Some(
                Transform { translation: (-399_000, -40_000), facing: (0, 1_000), scale: 500 }
            ),
            enemy: Some(Enemy),
            enemy_state: Some(
                EnemyState {
                    fire_cooldown: CooldownTimer { remaining: 1_000_000, period: 1_000_000 },
                },
            ),
            formation: Some(formation),
            sprite_size: Some(SpriteSize((144_000, 75_000))),
            health: Some(Health { hp: 2_000, multiplier: 0 }),
            velocity: Some(Velocity { x: 0, y: 0 }),
            ..Entity::new()
        }]
    );
    assert_eq!(world.res.enemy_count, EnemyCount(1));
    assert_eq!(world.res.formation_maker.current_members, 1);
    enemy_spawn_with(&mut world, pick(90_000));
    assert_eq!(world.entities[1].formation, Some(formation));
    assert_eq!(world.res.formation_maker.current_members, 2);
    enemy_spawn_with(&mut world, pick(90_000));
    assert_eq!(world.entities[2].transform.unwrap().translation, (-399_000, 90_000));
    assert_eq!(world.res.enemy_count, EnemyCount(3));
}

#[test]
fn no_enemy_comes_in_beyond_the_maximum() {
    let mut world = sky(2, 1);
    for _ in 0..5 {
        enemy_spawn_with(&mut world, pick(0));
    }
    assert_eq!(world.entities.len(), 2);
    assert_eq!(world.res.enemy_count, EnemyCount(2));
    let maker = world.res.formation_maker;
    enemy_spawn_system(&mut world);
    assert_eq!(world.entities.len(), 2);
    assert_eq!(world.res.formation_maker, maker);
    world.res.enemy_count = EnemyCount(1);
    enemy_spawn_system(&mut world);
    assert_eq!(world.entities.len(), 3);
    assert_eq!(world.res.enemy_count, EnemyCount(2));
    let formation = world.entities[2].formation.unwrap();
    assert!(formation.check_valid());
    assert_eq!(world.entities[2].transform.unwrap().translation, formation.start);
}

#[test]
fn enemies_come_in_on_a_fixed_interval() {
    let mut world = sky(5, 1);
    for _ in 0..89 {
        assert_eq!(enemy_spawn_scheduler(&mut world, TIME_STEP), 0);
    }
    assert_eq!(world.entities.len(), 0);
    assert_eq!(enemy_spawn_scheduler(&mut world, TIME_STEP), 1);
    assert_eq!(world.entities.len(), 1);
    assert_eq!(world.res.enemy_spawn_timer.remaining, 1_500_000 - 30);
    assert_eq!(enemy_spawn_scheduler(&mut world, 3_000_000), 2);
    assert_eq!(world.entities.len(), 3);
    assert_eq!(enemy_spawn_scheduler(&mut world, 15_000_000), 10);
    assert_eq!(world.entities.len(), 5);
    assert_eq!(world.res.enemy_count, EnemyCount(5));
    assert_eq!(world.res.enemy_spawn_timer.remaining, 1_500_000 - 30);
}

#[test]
fn an_enemy_fires_at_the_player_when_its_gun_has_cooled_down() {
    let mut world = sky(5, 1);
    world.spawn(gunner((0, 100_000), 1_000_000));
    let place = Transform { translation: (30_000, 60_000), facing: (0, 1_000), scale: 500 };
    world.spawn(Entity { player: Some(Player), transform: Some(place), ..Entity::new() });
    enemy_fire_system(&mut world, 999_999);
    assert_eq!(world.entities.len(), 2);
    assert_eq!(world.entities[0].enemy_state.unwrap().fire_cooldown.remaining, 1);
    world.res.clock = 9_999_999;
    enemy_fire_system(&mut world, 1);
    assert_eq!(world.entities.len(), 3);
    assert_eq!(
        world.entities[0].enemy_state.unwrap().fire_cooldown,
        CooldownTimer { remaining: 1_000_000, period: 1_000_000 }
    );
    assert_eq!(
        world.entities[2],
        Entity {
            id: 2,
            transform: Some(Transform { translation: (0, 100_000), facing: (3, 4), scale: 500 }),
            laser: Some(Laser),
            damage: Some(Damage { dmg: 1_000, multiplier: 1_000, limit: 2_000 }),
            movable: Some(Movable { auto_despawn: true }),
            from_enemy: Some(FromEnemy),
            parent: Some(ParentEntity { entity: 0 }),
            sprite_size: Some(SpriteSize((9_000, 54_000))),
            velocity: Some(Velocity { x: 600, y: -800 }),
            ..Entity::new()
        }
    );
}

#[test]
fn enemy_fire_grows_stronger_after_the_warm_up() {
    let mut world = sky(5, 1);
    world.res.clock = 10_000_000;
    world.spawn(gunner((1_000, 1_000), 0));
    let place = Transform { translation: (-2_000, 5_000), facing: (0, 1_000), scale: 500 };
    world.spawn(Entity { player: Some(Player), transform: Some(place), ..Entity::new() });
    enemy_fire_system(&mut world, 0);
    assert_eq!(world.entities.len(), 3);
    assert_eq!(world.entities[2].damage.unwrap().dmg, 10_000);
    assert_eq!(world.entities[2].damage.unwrap().damage_dealt(), 2_000);
    assert_eq!(world.entities[2].velocity, Some(Velocity { x: -600, y: 800 }));
}

#[test]
fn without_a_player_enemies_fire_straight_down() {
    let mut world = sky(5, 1);
    world.spawn(gunner((1_000, 1_000), 5));
    world.spawn(gunner((2_000, 2_000), 500));
    world.spawn(gunner((3_000, 3_000), 5));
    enemy_fire_system(&mut world, 5);
    assert_eq!(world.entities.len(), 5);
    assert_eq!(world.entities[3].velocity, Some(Velocity { x: 0, y: -1_000 }));
    assert_eq!(world.entities[3].parent, Some(ParentEntity { entity: 0 }));
    assert_eq!(world.entities[4].parent, Some(ParentEntity { entity: 2 }));
    assert_eq!(world.entities[4].transform.unwrap().translation, (3_000, 3_000));
    assert_eq!(world.entities[1].enemy_state.unwrap().fire_cooldown.remaining, 495);
}

#[test]
fn an_enemy_on_top_of_the_player_fires_straight_down() {
    let mut world = sky(5, 1);
    world.spawn(gunner((7, 7), 0));
    let place = Transform { translation: (7, 7), facing: (0, 1_000), scale: 500 };
    world.spawn(Entity { player: Some(Player), transform: Some(place), ..Entity::new() });
    enemy_fire_system(&mut world, 1);
    assert_eq!(world.entities[2].velocity, Some(Velocity { x: 0, y: -1_000 }));
}

#[test]
fn entities_that_are_no_gunners_do_not_fire() {
    let mut world = sky(5, 1);
    world.spawn(Entity { enemy: None, ..gunner((0, 0), 0) });
    world.spawn(Entity { enemy_state: None, ..gunner((0, 0), 0) });
    world.spawn(Entity { velocity: None, ..gunner((0, 0), 0) });
    let before = world.entities.clone();
    enemy_fire_system(&mut world, 1_000_000);
    assert_eq!(world.entities, before);
}

#[test]
fn enemies_come_in_with_the_choices_given_for_them() {
    let mut world = sky(5, 1);
    assert_eq!(world.spawn_attempts(1_499_999), 0);
    assert_eq!(world.spawn_attempts(1_500_000), 1);
    assert_eq!(world.spawn_attempts(4_500_000), 3);
    assert_eq!(enemy_spawn_scheduler_with(&mut world, 1_000_000, &Vec::new()), Ok(()));
    assert_eq!(world.res.enemy_spawn_timer.remaining, 500_000);
    assert_eq!(
        enemy_spawn_scheduler_with(&mut world, 500_000, &Vec::new()),
        Err(SpawnError::DrawCount)
    );
    assert_eq!(world.res.enemy_spawn_timer.remaining, 500_000);
    assert_eq!(
        enemy_spawn_scheduler_with(&mut world, 2_000_000, &vec![pick(1_000), pick(2_000)]),
        Ok(())
    );
    assert_eq!(world.entities.len(), 2);
    assert_eq!(world.entities[0].transform.unwrap().translation, (-399_000, 1_000));
    assert_eq!(world.entities[1].transform.unwrap().translation, (-399_000, 2_000));
    assert_eq!(world.res.enemy_spawn_timer.remaining, 1_500_000);
}

fn shot_velocity(from: (i32, i32), to: (i32, i32)) -> Velocity {
    let mut world = sky(5, 1);
    world.spawn(gunner(from, 0));
    let place = Transform { translation: to, facing: (0, 1_000), scale: 500 };
    world.spawn(Entity { player: Some(Player), transform: Some(place), ..Entity::new() });
    enemy_fire_system(&mut world, 1);
    assert_eq!(world.entities.len(), 3);
    world.entities[2].velocity.unwrap()
}

#[test]
fn a_shot_at_a_player_a_thousandth_away_has_unit_length() {
    assert_eq!(shot_velocity((0, 0), (1, 1)), Velocity { x: 707, y: 707 });
    assert_eq!(shot_velocity((0, 0), (10, 10)), Velocity { x: 707, y: 707 });
    assert_eq!(shot_velocity((0, 0), (1, 0)), Velocity { x: 1_000, y: 0 });
    assert_eq!(shot_velocity((0, 0), (0, -1)), Velocity { x: 0, y: -1_000 });
    assert_eq!(shot_velocity((5, 5), (4, 7)), Velocity { x: -447, y: 894 });
    assert_eq!(shot_velocity((0, 0), (-3, -4)), Velocity { x: -600, y: -800 });
}

#[test]
fn a_shot_has_unit_length_at_every_range() {
    let mut ways: Vec<(i32, i32)> = Vec::new();
    for dx in -12..=12 {
        for dy in -12..=12 {
            if dx != 0 || dy != 0 {
                ways.push((dx, dy));
                ways.push((dx * 997, dy * 1_013));
                ways.push((dx * 150_001, dy * 170_003));
            }
        }
    }
    ways.push((i32::MAX, i32::MAX));
    ways.push((i32::MIN + 1, 1));
    ways.push((1, i32::MAX));
    for (dx, dy) in ways {
        let v = shot_velocity((0, 0), (dx, dy));
        let (x, y) = (v.x as i64, v.y as i64);
        assert!(x * x + y * y <= 1_002_000);
        assert!((x.abs() + 1) * (x.abs() + 1) + (y.abs() + 1) * (y.abs() + 1) > 1_000_000);
        let length = ((dx as f64) * (dx as f64) + (dy as f64) * (dy as f64)).sqrt();
        assert!((x as f64 - 1_000.0 * dx as f64 / length).abs() < 2.0);
        assert!((y as f64 - 1_000.0 * dy as f64 / length).abs() < 2.0);
    }
}

#[test]
fn a_shot_across_the_whole_range_of_places_does_not_overflow() {
    let v = shot_velocity((i32::MIN, i32::MIN), (i32::MAX, i32::MAX));
    assert_eq!(v, Velocity { x: 707, y: 707 });
    let w = shot_velocity((i32::MAX, 0), (i32::MIN, 0));
    assert_eq!(w, Velocity { x: -1_000, y: 0 });
}
