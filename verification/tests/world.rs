use ant_invaders::components::{Health, Player, Transform};
use ant_invaders::enemy::formation::FormationMaker;
use ant_invaders::resources::{
    Config, ConfigError, Direction, EnemyCount, PlayerState, WinSize, ENEMY_MAX, EXPLOSION_LEN,
    FORMATION_MEMBERS_MAX, PLAYER_RESPAWN_DELAY,
};
use ant_invaders::timer::CooldownTimer;
use ant_invaders::world::{Entity, World};

fn fresh_world() -> World {
    match World::new(WinSize { w: 598_000, h: 676_000 }, Config::default()) {
        Ok(world) => world,
        Err(_) => panic!("the default configuration is valid"),
    }
}

#[test]
fn the_default_configuration_holds_the_constants() {
    let config = Config::default();
    assert_eq!(config.enemy_max, ENEMY_MAX);
    assert_eq!(config.squad_cap, FORMATION_MEMBERS_MAX);
    assert_eq!(config.respawn_delay, PLAYER_RESPAWN_DELAY);
    assert_eq!(config.explosion_frames, EXPLOSION_LEN);
}

#[test]
fn a_new_world_is_empty_and_waits_for_the_player() {
    let config = Config { enemy_max: 7, squad_cap: 3, respawn_delay: 1_234, explosion_frames: 4 };
    let world = match World::new(WinSize { w: 10, h: 20 }, config) {
        Ok(world) => world,
        Err(_) => panic!("the configuration is valid"),
    };
    assert!(world.entities.is_empty());
    assert_eq!(world.res.win_size, WinSize { w: 10, h: 20 });
    assert_eq!(world.res.config, config);
    assert_eq!(world.res.enemy_count, EnemyCount(0));
    assert_eq!(world.res.formation_maker, FormationMaker::new(3));
    assert_eq!(world.res.enemy_spawn_timer, CooldownTimer { remaining: 1_500_000, period: 1_500_000 });
    assert_eq!(world.res.clock, 0);
    assert_eq!(world.res.next_id, 0);
    let state = world.res.player_state;
    assert!(!state.on);
    assert_eq!(state.score, 0);
    assert_eq!(state.health, Health { hp: 3_000, multiplier: 0 });
    assert_eq!(state.spawn_cooldown, CooldownTimer { remaining: 0, period: 1_234 });
    assert_eq!(state.fire_cooldown, CooldownTimer { remaining: 0, period: 200_000 });
    assert_eq!(state.aim, Direction::Up);
    assert!(!state.firing);
    assert_eq!(state.last_shot, None);
    assert_eq!(state.last_spawned, None);
    assert_eq!(state.last_fired, None);
}

#[test]
fn a_viewport_without_extent_is_refused() {
    let config = Config::default();
    assert_eq!(World::new(WinSize { w: 0, h: 10 }, config).err(), Some(ConfigError::EmptyViewport));
    assert_eq!(World::new(WinSize { w: 10, h: 0 }, config).err(), Some(ConfigError::EmptyViewport));
    assert_eq!(World::new(WinSize { w: -1, h: 10 }, config).err(), Some(ConfigError::EmptyViewport));
    assert_eq!(World::new(WinSize { w: 10, h: -1 }, config).err(), Some(ConfigError::EmptyViewport));
}

#[test]
fn a_configuration_with_an_empty_count_is_refused() {
    let win = WinSize { w: 598_000, h: 676_000 };
    let config = Config::default();
    assert_eq!(
        World::new(win, Config { enemy_max: 0, ..config }).err(),
        Some(ConfigError::NoEnemies)
    );
    assert_eq!(World::new(win, Config { squad_cap: 0, ..config }).err(), Some(ConfigError::NoSquad));
    assert_eq!(
        World::new(win, Config { explosion_frames: 0, ..config }).err(),
        Some(ConfigError::NoFrames)
    );
    assert!(World::new(win, Config { respawn_delay: 0, ..config }).is_ok());
}

#[test]
fn the_first_reason_for_refusal_is_reported() {
    let nothing = Config { enemy_max: 0, squad_cap: 0, respawn_delay: 0, explosion_frames: 0 };
    assert_eq!(World::new(WinSize { w: 0, h: 0 }, nothing).err(), Some(ConfigError::EmptyViewport));
    assert_eq!(World::new(WinSize { w: 1, h: 1 }, nothing).err(), Some(ConfigError::NoEnemies));
    assert_eq!(
        World::new(WinSize { w: 1, h: 1 }, Config { enemy_max: 1, ..nothing }).err(),
        Some(ConfigError::NoSquad)
    );
}

#[test]
fn spawning_hands_out_handles_in_sequence() {
    let mut world = fresh_world();
    let template = Entity { id: 99, player: Some(Player), ..Entity::new() };
    assert_eq!(world.spawn(template), 0);
    assert_eq!(world.spawn(Entity::new()), 1);
    assert_eq!(world.entities.len(), 2);
    assert_eq!(world.entities[0], Entity { id: 0, player: Some(Player), ..Entity::new() });
    assert_eq!(world.entities[1].id, 1);
    assert_eq!(world.res.next_id, 2);
}

#[test]
fn the_last_handle_is_never_passed() {
    let mut world = fresh_world();
    world.res.next_id = u64::MAX;
    assert_eq!(world.spawn(Entity::new()), u64::MAX);
    assert_eq!(world.res.next_id, u64::MAX);
}

#[test]
fn the_player_is_found_only_if_there_is_exactly_one() {
    let mut world = fresh_world();
    assert_eq!(world.find_player(), None);
    assert_eq!(world.player_position(), None);
    world.spawn(Entity::new());
    let transform = Transform { translation: (5, -7), facing: (0, 1_000), scale: 500 };
    world.spawn(Entity { player: Some(Player), transform: Some(transform), ..Entity::new() });
    world.spawn(Entity::new());
    assert_eq!(world.find_player(), Some(1));
    assert_eq!(world.player_position(), Some((5, -7)));
    world.spawn(Entity { player: Some(Player), ..Entity::new() });
    assert_eq!(world.find_player(), None);
    assert_eq!(world.player_position(), None);
}

#[test]
fn a_player_without_a_place_has_no_position() {
    let mut world = fresh_world();
    world.spawn(Entity { player: Some(Player), ..Entity::new() });
    assert_eq!(world.find_player(), Some(0));
    assert_eq!(world.player_position(), None);
}

#[test]
fn the_player_state_records_deaths_and_spawns() {
    let mut state = PlayerState::new(2_000_000);
    state.spawned(5);
    assert!(state.on);
    assert_eq!(state.last_spawned, Some(5));
    assert_eq!(state.last_shot, None);
    state.shot(9);
    assert!(!state.on);
    assert_eq!(state.last_shot, Some(9));
    assert_eq!(state.spawn_cooldown, CooldownTimer { remaining: 2_000_000, period: 2_000_000 });
    state.fired(11);
    assert_eq!(state.last_fired, Some(11));
    state.spawned(20);
    assert_eq!(state.last_shot, None);
    assert_eq!(state.last_spawned, Some(20));
}

#[test]
fn the_player_is_shielded_for_two_seconds_after_a_spawn() {
    let mut state = PlayerState::default();
    assert!(!state.is_shielded(0));
    state.spawned(1_000_000);
    assert!(state.is_shielded(1_000_000));
    assert!(state.is_shielded(3_000_000));
    assert!(!state.is_shielded(3_000_001));
    assert!(state.is_shielded(0));
}

#[test]
fn directions_are_unit_vectors() {
    assert_eq!(Direction::Up.vector(), (0, 1_000));
    assert_eq!(Direction::Down.vector(), (0, -1_000));
    assert_eq!(Direction::Left.vector(), (-1_000, 0));
    assert_eq!(Direction::Right.vector(), (1_000, 0));
}

#[test]
fn the_viewport_can_be_resized_to_a_size_with_extent() {
    let mut world = fresh_world();
    assert_eq!(world.resize(WinSize { w: 800_000, h: 600_000 }), Ok(()));
    assert_eq!(world.res.win_size, WinSize { w: 800_000, h: 600_000 });
    assert_eq!(world.resize(WinSize { w: 0, h: 600_000 }), Err(ConfigError::EmptyViewport));
    assert_eq!(world.resize(WinSize { w: 5, h: -600_000 }), Err(ConfigError::EmptyViewport));
    assert_eq!(world.res.win_size, WinSize { w: 800_000, h: 600_000 });
}

#[test]
fn the_score_is_read_from_the_world() {
    let mut world = fresh_world();
    assert_eq!(world.score(), 0);
    world.res.player_state.score = 41;
    assert_eq!(world.score(), 41);
}
