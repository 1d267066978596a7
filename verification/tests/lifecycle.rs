use ant_invaders::components::{
    Explosion, ExplosionTimer, ExplosionToSpawn, SpriteIndex, Transform,
};
use ant_invaders::explosion::{explosion_animation_system, explosion_to_spawn_system};
use ant_invaders::resources::{Config, WinSize, TIME_STEP};
use ant_invaders::timer::CooldownTimer;
use ant_invaders::world::{Entity, World};

fn stage(explosion_frames: u32) -> World {
    let config = Config { explosion_frames, ..Config::default() };
    match World::new(WinSize { w: 598_000, h: 676_000 }, config) {
        Ok(world) => world,
        Err(_) => panic!("the configuration is valid"),
    }
}

fn record(at: (i32, i32)) -> Entity {
    Entity { explosion_to_spawn: Some(ExplosionToSpawn(at)), ..Entity::new() }
}

#[test]
fn a_record_becomes_an_explosion_at_its_first_frame() {
    let mut world = stage(16);
    world.spawn(record((5_000, -7_000)));
    world.spawn(Entity::new());
    world.spawn(record((1, 2)));
    explosion_to_spawn_system(&mut world);
    assert_eq!(world.entities.len(), 3);
    assert_eq!(world.entities[0], Entity { id: 1, ..Entity::new() });
    assert_eq!(
        world.entities[1],
        Entity {
            id: 3,
            transform: Some(
                Transform { translation: (5_000, -7_000), facing: (0, 1_000), scale: 1_000 }
            ),
            explosion: Some(Explosion),
            explosion_timer: Some(ExplosionTimer(CooldownTimer { remaining: 50_000, period: 50_000 })),
            sprite_index: Some(SpriteIndex(0)),
            ..Entity::new()
        }
    );
    assert_eq!(world.entities[2].id, 4);
    assert_eq!(world.entities[2].transform.unwrap().translation, (1, 2));
    assert!(world.entities.iter().all(|e| e.explosion_to_spawn.is_none()));
    explosion_to_spawn_system(&mut world);
    assert_eq!(world.entities.len(), 3);
    assert_eq!(world.res.next_id, 5);
}

#[test]
fn an_explosion_moves_on_one_frame_for_each_period() {
    let mut world = stage(16);
    world.spawn(record((0, 0)));
    explosion_to_spawn_system(&mut world);
    explosion_animation_system(&mut world, 49_999);
    assert_eq!(world.entities[0].sprite_index, Some(SpriteIndex(0)));
    explosion_animation_system(&mut world, 1);
    assert_eq!(world.entities[0].sprite_index, Some(SpriteIndex(1)));
    explosion_animation_system(&mut world, 175_000);
    assert_eq!(world.entities[0].sprite_index, Some(SpriteIndex(4)));
    assert_eq!(
        world.entities[0].explosion_timer,
        Some(ExplosionTimer(CooldownTimer { remaining: 25_000, period: 50_000 }))
    );
}

#[test]
fn an_explosion_is_removed_after_its_last_frame() {
    let mut world = stage(16);
    world.spawn(record((0, 0)));
    explosion_to_spawn_system(&mut world);
    for _ in 0..47 {
        explosion_animation_system(&mut world, TIME_STEP);
    }
    assert_eq!(world.entities.len(), 1);
    assert_eq!(world.entities[0].sprite_index, Some(SpriteIndex(15)));
    explosion_animation_system(&mut world, TIME_STEP);
    assert_eq!(world.entities.len(), 0);
}

#[test]
fn an_explosion_is_removed_by_one_long_tick() {
    let mut world = stage(16);
    world.spawn(record((0, 0)));
    world.spawn(record((9, 9)));
    explosion_to_spawn_system(&mut world);
    explosion_animation_system(&mut world, 799_999);
    assert_eq!(world.entities.len(), 2);
    assert_eq!(world.entities[1].sprite_index, Some(SpriteIndex(15)));
    explosion_animation_system(&mut world, 1);
    assert_eq!(world.entities.len(), 0);
}

#[test]
fn the_number_of_frames_is_configured() {
    let mut world = stage(3);
    world.spawn(record((0, 0)));
    explosion_to_spawn_system(&mut world);
    explosion_animation_system(&mut world, 100_000);
    assert_eq!(world.entities[0].sprite_index, Some(SpriteIndex(2)));
    explosion_animation_system(&mut world, 50_000);
    assert_eq!(world.entities.len(), 0);
}

#[test]
fn entities_that_are_no_explosions_are_not_animated() {
    let mut world = stage(1);
    let timer = Some(ExplosionTimer::default());
    world.spawn(Entity { explosion_timer: timer, sprite_index: Some(SpriteIndex(7)), ..Entity::new() });
    world.spawn(Entity { explosion: Some(Explosion), explosion_timer: timer, ..Entity::new() });
    let before = world.entities.clone();
    explosion_animation_system(&mut world, u32::MAX);
    assert_eq!(world.entities, before);
}

#[test]
fn frames_beyond_thirty_two_bits_end_the_explosion() {
    let mut world = stage(u32::MAX);
    world.spawn(Entity {
        explosion: Some(Explosion),
        explosion_timer: Some(ExplosionTimer(CooldownTimer { remaining: 0, period: 1 })),
        sprite_index: Some(SpriteIndex(u32::MAX - 1)),
        ..Entity::new()
    });
    explosion_animation_system(&mut world, 0);
    assert_eq!(world.entities.len(), 0);
}
