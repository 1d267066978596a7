use ant_invaders::collision::{
    collide, enemy_laser_hit_player_system, player_laser_hit_enemy_system, Hit,
};
use ant_invaders::components::{
    Damage, Enemy, ExplosionToSpawn, FromEnemy, FromPlayer, Health, Laser, Player, SpriteSize,
    Transform,
};
use ant_invaders::resources::{Config, EnemyCount, WinSize, ENEMY_SIZE, PLAYER_LASER_SIZE};
use ant_invaders::timer::CooldownTimer;
use ant_invaders::world::{Entity, World};

fn field() -> World {
    match World::new(WinSize { w: 598_000, h: 676_000 }, Config::default()) {
        Ok(world) => world,
        Err(_) => panic!("the default configuration is valid"),
    }
}

fn placed(at: (i32, i32)) -> Transform {
    Transform { translation: at, facing: (0, 1_000), scale: 500 }
}

fn player_shot(at: (i32, i32)) -> Entity {
    Entity {
        transform: Some(placed(at)),
        from_player: Some(FromPlayer),
        laser: Some(Laser),
        damage: Some(Damage { dmg: 10_000, multiplier: 1_000, limit: 5_000 }),
        sprite_size: Some(SpriteSize(PLAYER_LASER_SIZE)),
        ..Entity::new()
    }
}

fn enemy_shot(at: (i32, i32), dmg: i32) -> Entity {
    Entity {
        transform: Some(placed(at)),
        from_enemy: Some(FromEnemy),
        laser: Some(Laser),
        damage: Some(Damage { dmg, multiplier: 1_000, limit: 2_000 }),
        sprite_size: Some(SpriteSize(PLAYER_LASER_SIZE)),
        ..Entity::new()
    }
}

fn enemy(at: (i32, i32), hp: i32) -> Entity {
    Entity {
        transform: Some(placed(at)),
        enemy: Some(Enemy),
        sprite_size: Some(SpriteSize(ENEMY_SIZE)),
        health: Some(Health { hp, multiplier: 0 }),
        ..Entity::new()
    }
}

fn player(at: (i32, i32)) -> Entity {
    Entity {
        transform: Some(placed(at)),
        player: Some(Player),
        sprite_size: Some(SpriteSize(ENEMY_SIZE)),
        ..Entity::new()
    }
}

fn world_with_player(at: (i32, i32), clock: u64) -> World {
    let mut world = field();
    world.res.clock = clock;
    world.res.player_state.spawned(0);
    world.spawn(player(at));
    world
}

#[test]
fn boxes_overlap_only_where_they_share_an_area() {
    let laser = SpriteSize(PLAYER_LASER_SIZE);
    let ship = SpriteSize(ENEMY_SIZE);
    assert!(collide(&placed((0, 0)), &laser, &placed((0, 0)), &ship));
    assert!(collide(&placed((38_249, 0)), &laser, &placed((0, 0)), &ship));
    assert!(!collide(&placed((38_250, 0)), &laser, &placed((0, 0)), &ship));
    assert!(collide(&placed((0, -32_249)), &laser, &placed((0, 0)), &ship));
    assert!(!collide(&placed((0, -32_250)), &laser, &placed((0, 0)), &ship));
    assert!(!collide(&placed((38_250, 32_250)), &laser, &placed((0, 0)), &ship));
    assert!(collide(&placed((-100_000, 7)), &ship, &placed((-100_000 + 71_999, 7)), &ship));
    assert!(!collide(&placed((-100_000, 7)), &ship, &placed((-100_000 + 72_000, 7)), &ship));
}

#[test]
fn boxes_are_scaled_by_the_render_scale() {
    let ship = SpriteSize(ENEMY_SIZE);
    let large = Transform { translation: (0, 0), facing: (0, 1_000), scale: 1_000 };
    let small = Transform { translation: (100_000, 0), facing: (0, 1_000), scale: 500 };
    assert!(collide(&large, &ship, &small, &ship));
    let farther = Transform { translation: (108_000, 0), ..small };
    assert!(!collide(&large, &ship, &farther, &ship));
    let point = Transform { translation: (0, 0), facing: (0, 1_000), scale: 0 };
    assert!(!collide(&point, &ship, &point, &ship));
}

#[test]
fn a_projectile_over_two_targets_hits_one() {
    let mut world = field();
    world.res.enemy_count = EnemyCount(2);
    world.spawn(player_shot((0, 0)));
    world.spawn(enemy((0, 0), 2_000));
    world.spawn(enemy((1_000, 0), 2_000));
    let hits = player_laser_hit_enemy_system(&mut world);
    assert_eq!(hits, vec![Hit { laser: 0, target: 1, destroyed: true, at: (0, 0) }]);
    assert_eq!(world.entities.len(), 2);
    assert_eq!(world.entities[0], Entity { id: 2, ..enemy((1_000, 0), 2_000) });
    assert_eq!(
        world.entities[1],
        Entity { id: 3, explosion_to_spawn: Some(ExplosionToSpawn((0, 0))), ..Entity::new() }
    );
    assert_eq!(world.res.player_state.score, 1);
    assert_eq!(world.res.enemy_count, EnemyCount(1));
    assert_eq!(world.res.next_id, 4);
}

#[test]
fn a_projectile_that_does_not_kill_is_still_used_up() {
    let mut world = field();
    world.res.enemy_count = EnemyCount(2);
    world.spawn(enemy((0, 0), 9_000));
    world.spawn(enemy((1_000, 0), 9_000));
    world.spawn(player_shot((0, 0)));
    let hits = player_laser_hit_enemy_system(&mut world);
    assert_eq!(hits, vec![Hit { laser: 2, target: 0, destroyed: false, at: (0, 0) }]);
    assert_eq!(world.entities.len(), 2);
    assert_eq!(world.entities[0].health, Some(Health { hp: 4_000, multiplier: 0 }));
    assert_eq!(world.entities[1].health, Some(Health { hp: 9_000, multiplier: 0 }));
    assert_eq!(world.res.player_state.score, 0);
    assert_eq!(world.res.enemy_count, EnemyCount(2));
}

#[test]
fn two_projectiles_share_out_over_the_targets() {
    let mut world = field();
    world.res.enemy_count = EnemyCount(3);
    world.res.player_state.score = 10;
    world.spawn(enemy((0, 0), 2_000));
    world.spawn(player_shot((0, 0)));
    world.spawn(enemy((1_000, 0), 7_000));
    world.spawn(player_shot((500, 0)));
    world.spawn(player_shot((500, 500)));
    world.spawn(enemy((200_000, 200_000), 2_000));
    let hits = player_laser_hit_enemy_system(&mut world);
    assert_eq!(
        hits,
        vec![
            Hit { laser: 1, target: 0, destroyed: true, at: (0, 0) },
            Hit { laser: 3, target: 2, destroyed: false, at: (1_000, 0) },
            Hit { laser: 4, target: 2, destroyed: true, at: (1_000, 0) },
        ]
    );
    assert_eq!(world.entities.len(), 3);
    assert_eq!(world.entities[0].id, 5);
    assert_eq!(world.entities[1].explosion_to_spawn, Some(ExplosionToSpawn((0, 0))));
    assert_eq!(world.entities[2].explosion_to_spawn, Some(ExplosionToSpawn((1_000, 0))));
    assert_eq!(world.res.player_state.score, 12);
    assert_eq!(world.res.enemy_count, EnemyCount(1));
}

#[test]
fn projectiles_that_miss_fly_on() {
    let mut world = field();
    world.spawn(enemy((0, 0), 2_000));
    world.spawn(player_shot((38_250, 0)));
    world.spawn(enemy_shot((0, 0), 10_000));
    let hits = player_laser_hit_enemy_system(&mut world);
    assert_eq!(hits, Vec::new());
    assert_eq!(world.entities.len(), 3);
    assert_eq!(world.entities[0].health, Some(Health { hp: 2_000, multiplier: 0 }));
}

#[test]
fn targets_that_lack_a_component_are_passed_over() {
    let mut world = field();
    world.spawn(Entity { health: None, ..enemy((0, 0), 2_000) });
    world.spawn(Entity { enemy: None, ..enemy((0, 0), 2_000) });
    world.spawn(Entity { damage: None, ..player_shot((0, 0)) });
    world.spawn(Entity { sprite_size: None, ..player_shot((0, 0)) });
    assert_eq!(player_laser_hit_enemy_system(&mut world), Vec::new());
    assert_eq!(world.entities.len(), 4);
}

#[test]
fn the_count_of_enemies_and_the_score_stop_at_their_ends() {
    let mut world = field();
    world.res.enemy_count = EnemyCount(0);
    world.res.player_state.score = u64::MAX;
    world.spawn(enemy((0, 0), 2_000));
    world.spawn(player_shot((0, 0)));
    let hits = player_laser_hit_enemy_system(&mut world);
    assert_eq!(hits.len(), 1);
    assert_eq!(world.res.enemy_count, EnemyCount(0));
    assert_eq!(world.res.player_state.score, u64::MAX);
}

#[test]
fn the_player_loses_health_to_enemy_fire() {
    let mut world = world_with_player((0, -300_000), 2_000_001);
    world.res.player_state.health = Health { hp: 3_000, multiplier: 1_000 };
    world.spawn(enemy_shot((0, -300_000), 1_000));
    world.spawn(enemy_shot((10_000, -290_000), 10_000));
    world.spawn(enemy_shot((0, 0), 10_000));
    let hits = enemy_laser_hit_player_system(&mut world);
    assert_eq!(
        hits,
        vec![
            Hit { laser: 1, target: 0, destroyed: false, at: (0, -300_000) },
            Hit { laser: 2, target: 0, destroyed: true, at: (0, -300_000) },
        ]
    );
    assert_eq!(world.res.player_state.health.hp, 0);
    assert!(!world.res.player_state.on);
    assert_eq!(world.res.player_state.last_shot, Some(2_000_001));
    assert_eq!(
        world.res.player_state.spawn_cooldown,
        CooldownTimer { remaining: 2_000_000, period: 2_000_000 }
    );
    assert_eq!(world.entities.len(), 2);
    assert_eq!(world.entities[0].id, 3);
    assert_eq!(world.entities[1].explosion_to_spawn, Some(ExplosionToSpawn((0, -300_000))));
}

#[test]
fn a_player_that_survives_stays() {
    let mut world = world_with_player((0, -300_000), 5_000_000);
    world.res.player_state.health = Health { hp: 3_000, multiplier: 1_000 };
    world.spawn(enemy_shot((0, -300_000), 10_000));
    let hits = enemy_laser_hit_player_system(&mut world);
    assert_eq!(hits, vec![Hit { laser: 1, target: 0, destroyed: false, at: (0, -300_000) }]);
    assert_eq!(world.res.player_state.health.hp, 1_000);
    assert!(world.res.player_state.on);
    assert_eq!(world.res.player_state.last_shot, None);
    assert_eq!(world.entities.len(), 1);
    assert_eq!(world.entities[0].player, Some(Player));
}

#[test]
fn fire_after_the_players_death_passes_by() {
    let mut world = world_with_player((0, -300_000), 5_000_000);
    world.res.player_state.health = Health { hp: 1_000, multiplier: 1_000 };
    world.spawn(enemy_shot((0, -300_000), 10_000));
    world.spawn(enemy_shot((0, -300_000), 10_000));
    let hits = enemy_laser_hit_player_system(&mut world);
    assert_eq!(hits.len(), 1);
    assert_eq!(world.res.player_state.health.hp, -1_000);
    assert_eq!(world.entities.len(), 2);
    assert_eq!(world.entities[0].id, 2);
    assert_eq!(world.entities[0].laser, Some(Laser));
}

#[test]
fn a_shielded_player_is_not_hit() {
    let mut world = world_with_player((0, -300_000), 2_000_000);
    world.spawn(enemy_shot((0, -300_000), 10_000));
    let before = world.entities.clone();
    assert_eq!(enemy_laser_hit_player_system(&mut world), Vec::new());
    assert_eq!(world.entities, before);
    assert_eq!(world.res.player_state.health.hp, 3_000);
    assert!(world.res.player_state.on);
}

#[test]
fn without_a_player_enemy_fire_hits_nothing() {
    let mut world = field();
    world.res.clock = 9_000_000;
    world.spawn(enemy_shot((0, -300_000), 10_000));
    assert_eq!(enemy_laser_hit_player_system(&mut world), Vec::new());
    assert_eq!(world.entities.len(), 1);
    world.spawn(Entity { sprite_size: None, ..player((0, -300_000)) });
    assert_eq!(enemy_laser_hit_player_system(&mut world), Vec::new());
    assert_eq!(world.entities.len(), 2);
}

#[test]
fn the_players_own_fire_does_not_hit_the_player() {
    let mut world = world_with_player((0, -300_000), 5_000_000);
    world.spawn(player_shot((0, -300_000)));
    assert_eq!(enemy_laser_hit_player_system(&mut world), Vec::new());
    assert_eq!(world.entities.len(), 2);
}
