use ant_invaders::components::{
    Damage, FromPlayer, Health, Laser, Movable, Player, SpriteSize, Transform, Velocity,
};
use ant_invaders::player::{
    player_fire_system, player_keyboard_event_system, player_spawn_system,
};
use ant_invaders::resources::{Config, Direction, Intent, WinSize, TIME_STEP};
use ant_invaders::timer::CooldownTimer;
use ant_invaders::world::{Entity, World};

fn hangar() -> World {
    match World::new(WinSize { w: 598_000, h: 676_000 }, Config::default()) {
        Ok(world) => world,
        Err(_) => panic!("the default configuration is valid"),
    }
}

fn idle() -> Intent {
    Intent { left: false, right: false, down: false, up: false, aim: None }
}

fn count_players(world: &World) -> usize {
    world.entities.iter().filter(|e| e.player.is_some()).count()
}

#[test]
fn the_first_player_comes_in_at_once() {
    let mut world = hangar();
    world.res.clock = 16_667;
    player_spawn_system(&mut world, TIME_STEP);
    assert_eq!(world.entities.len(), 1);
    assert_eq!(
        world.entities[0],
        Entity {
            id: 0,
            transform: Some(
                Transform { translation: (0, -314_250), facing: (0, 1_000), scale: 500 }
            ),
            player: Some(Player),
            sprite_size: Some(SpriteSize((144_000, 75_000))),
            movable: Some(Movable { auto_despawn: false }),
            velocity: Some(Velocity { x: 0, y: 0 }),
            ..Entity::new()
        }
    );
    assert!(world.res.player_state.on);
    assert_eq!(world.res.player_state.last_spawned, Some(16_667));
    assert_eq!(world.res.player_state.health, Health { hp: 3_000, multiplier: 1_000 });
}

#[test]
fn no_second_player_comes_in_while_one_is_on() {
    let mut world = hangar();
    player_spawn_system(&mut world, TIME_STEP);
    let cooldown = world.res.player_state.spawn_cooldown;
    for _ in 0..200 {
        player_spawn_system(&mut world, TIME_STEP);
    }
    assert_eq!(world.entities.len(), 1);
    assert_eq!(world.res.player_state.spawn_cooldown, cooldown);
}

#[test]
fn a_new_player_waits_for_the_respawn_delay() {
    let mut world = hangar();
    player_spawn_system(&mut world, TIME_STEP);
    world.entities.clear();
    world.res.player_state.health = Health { hp: -1_000, multiplier: 1_000 };
    world.res.player_state.shot(1_000_000);
    world.res.clock = 1_000_000;
    let mut waited: u64 = 0;
    while waited + 500_000 < 2_000_000 {
        world.res.clock += 500_000;
        player_spawn_system(&mut world, 500_000);
        waited += 500_000;
        assert_eq!(count_players(&world), 0);
        assert!(!world.res.player_state.on);
    }
    assert_eq!(waited, 1_500_000);
    assert_eq!(world.res.player_state.spawn_cooldown.remaining, 500_000);
    world.res.clock += 499_999;
    player_spawn_system(&mut world, 499_999);
    assert_eq!(count_players(&world), 0);
    world.res.clock += 1;
    player_spawn_system(&mut world, 1);
    assert_eq!(count_players(&world), 1);
    assert!(world.res.player_state.on);
    assert_eq!(world.res.player_state.last_spawned, Some(3_000_000));
    assert_eq!(world.res.player_state.last_shot, None);
    assert_eq!(world.res.player_state.health, Health { hp: 3_000, multiplier: 1_000 });
    player_spawn_system(&mut world, 5_000_000);
    assert_eq!(count_players(&world), 1);
}

#[test]
fn the_respawn_delay_is_configured() {
    let config = Config { respawn_delay: 10, ..Config::default() };
    let mut world = match World::new(WinSize { w: 100, h: 100 }, config) {
        Ok(world) => world,
        Err(_) => panic!("the configuration is valid"),
    };
    world.res.player_state.shot(0);
    player_spawn_system(&mut world, 9);
    assert_eq!(world.entities.len(), 0);
    player_spawn_system(&mut world, 1);
    assert_eq!(world.entities.len(), 1);
    assert_eq!(world.entities[0].transform.unwrap().translation, (0, -50 + 23_750));
}

#[test]
fn the_keys_speed_the_player_up_and_the_speed_decays() {
    let mut world = hangar();
    player_spawn_system(&mut world, TIME_STEP);
    let intent = Intent { right: true, up: true, ..idle() };
    player_keyboard_event_system(&mut world, &intent);
    assert_eq!(world.entities[0].transform.unwrap().translation, (1_000, -313_250));
    assert_eq!(world.res.player_state.delta_x, 900);
    assert_eq!(world.res.player_state.delta_y, 900);
    player_keyboard_event_system(&mut world, &intent);
    assert_eq!(world.entities[0].transform.unwrap().translation, (2_900, -311_350));
    assert_eq!(world.res.player_state.delta_x, 1_710);
    player_keyboard_event_system(&mut world, &idle());
    assert_eq!(world.entities[0].transform.unwrap().translation, (4_610, -309_640));
    assert_eq!(world.res.player_state.delta_x, 1_539);
    let back = Intent { left: true, down: true, ..idle() };
    player_keyboard_event_system(&mut world, &back);
    assert_eq!(world.entities[0].transform.unwrap().translation, (5_149, -309_101));
    assert_eq!(world.res.player_state.delta_x, 485);
    assert_eq!(world.res.player_state.delta_y, 485);
}

#[test]
fn opposite_keys_cancel_and_the_speed_is_capped() {
    let mut world = hangar();
    player_spawn_system(&mut world, TIME_STEP);
    let both = Intent { left: true, right: true, down: true, up: true, aim: None };
    player_keyboard_event_system(&mut world, &both);
    assert_eq!(world.entities[0].transform.unwrap().translation, (0, -314_250));
    world.res.player_state.delta_x = 20_000;
    world.res.player_state.delta_y = -20_000;
    let push = Intent { right: true, down: true, ..idle() };
    player_keyboard_event_system(&mut world, &push);
    assert_eq!(world.entities[0].transform.unwrap().translation, (15_000, -329_250));
    assert_eq!(world.res.player_state.delta_x, 13_500);
    assert_eq!(world.res.player_state.delta_y, -13_500);
    world.res.player_state.delta_x = -7;
    player_keyboard_event_system(&mut world, &idle());
    assert_eq!(world.res.player_state.delta_x, -6);
}

#[test]
fn the_held_direction_becomes_the_aim() {
    let mut world = hangar();
    player_spawn_system(&mut world, TIME_STEP);
    assert_eq!(world.res.player_state.aim, Direction::Up);
    player_keyboard_event_system(&mut world, &Intent { aim: Some(Direction::Left), ..idle() });
    assert_eq!(world.res.player_state.aim, Direction::Left);
    assert!(world.res.player_state.firing);
    assert_eq!(world.entities[0].transform.unwrap().facing, (-1_000, 0));
    player_keyboard_event_system(&mut world, &idle());
    assert_eq!(world.res.player_state.aim, Direction::Left);
    assert!(!world.res.player_state.firing);
    assert_eq!(world.entities[0].transform.unwrap().facing, (-1_000, 0));
    player_keyboard_event_system(&mut world, &Intent { aim: Some(Direction::Down), ..idle() });
    assert_eq!(world.entities[0].transform.unwrap().facing, (0, -1_000));
}

#[test]
fn input_without_a_player_changes_nothing() {
    let mut world = hangar();
    let intent = Intent { right: true, up: true, aim: Some(Direction::Right), ..idle() };
    player_keyboard_event_system(&mut world, &intent);
    assert_eq!(world.res.player_state.delta_x, 0);
    assert!(!world.res.player_state.firing);
    assert_eq!(world.res.player_state.aim, Direction::Up);
    world.spawn(Entity { player: Some(Player), ..Entity::new() });
    player_keyboard_event_system(&mut world, &intent);
    assert_eq!(world.res.player_state.delta_x, 0);
    player_fire_system(&mut world, TIME_STEP);
    assert_eq!(world.entities.len(), 1);
}

#[test]
fn the_player_fires_along_the_aim() {
    let mut world = hangar();
    player_spawn_system(&mut world, TIME_STEP);
    let intent = Intent { right: true, up: true, aim: Some(Direction::Right), ..idle() };
    player_keyboard_event_system(&mut world, &intent);
    player_fire_system(&mut world, TIME_STEP);
    assert_eq!(world.entities.len(), 2);
    assert_eq!(
        world.entities[1],
        Entity {
            id: 1,
            transform: Some(
                Transform { translation: (1_000, -313_250), facing: (1_000, 0), scale: 500 }
            ),
            from_player: Some(FromPlayer),
            laser: Some(Laser),
            damage: Some(Damage { dmg: 10_000, multiplier: 1_000, limit: 5_000 }),
            sprite_size: Some(SpriteSize((9_000, 54_000))),
            movable: Some(Movable { auto_despawn: true }),
            velocity: Some(Velocity { x: 1_000, y: 0 }),
            ..Entity::new()
        }
    );
    assert_eq!(
        world.res.player_state.fire_cooldown,
        CooldownTimer { remaining: 200_000, period: 200_000 }
    );
}

#[test]
fn the_gun_cools_down_between_shots() {
    let mut world = hangar();
    player_spawn_system(&mut world, TIME_STEP);
    let intent = Intent { aim: Some(Direction::Up), ..idle() };
    player_keyboard_event_system(&mut world, &intent);
    player_fire_system(&mut world, TIME_STEP);
    assert_eq!(world.entities.len(), 2);
    for _ in 0..11 {
        player_fire_system(&mut world, TIME_STEP);
    }
    assert_eq!(world.entities.len(), 2);
    assert_eq!(world.res.player_state.fire_cooldown.remaining, 200_000 - 11 * 16_667);
    player_fire_system(&mut world, TIME_STEP);
    assert_eq!(world.entities.len(), 3);
    assert_eq!(world.entities[2].velocity, Some(Velocity { x: 0, y: 1_000 }));
}

#[test]
fn a_gun_that_has_cooled_down_waits_for_the_trigger() {
    let mut world = hangar();
    player_spawn_system(&mut world, TIME_STEP);
    for _ in 0..50 {
        player_fire_system(&mut world, TIME_STEP);
    }
    assert_eq!(world.entities.len(), 1);
    assert_eq!(world.res.player_state.fire_cooldown.remaining, 0);
    player_keyboard_event_system(&mut world, &Intent { aim: Some(Direction::Down), ..idle() });
    player_fire_system(&mut world, 0);
    assert_eq!(world.entities.len(), 2);
    assert_eq!(world.entities[1].velocity, Some(Velocity { x: 0, y: -1_000 }));
}

#[test]
fn the_shot_flies_along_the_aim_whatever_the_players_speed() {
    let mut world = hangar();
    player_spawn_system(&mut world, TIME_STEP);
    world.res.player_state.delta_x = 15_000;
    world.res.player_state.delta_y = -15_000;
    world.res.player_state.firing = true;
    world.res.player_state.aim = Direction::Up;
    player_fire_system(&mut world, TIME_STEP);
    assert_eq!(world.entities[1].velocity, Some(Velocity { x: 0, y: 1_000 }));
    for (aim, velocity) in [
        (Direction::Down, (0, -1_000)),
        (Direction::Left, (-1_000, 0)),
        (Direction::Right, (1_000, 0)),
    ] {
        world.res.player_state.aim = aim;
        player_fire_system(&mut world, 200_000);
        let shot = world.entities[world.entities.len() - 1];
        assert_eq!(shot.velocity, Some(Velocity { x: velocity.0, y: velocity.1 }));
    }
    assert_eq!(world.entities.len(), 5);
}
