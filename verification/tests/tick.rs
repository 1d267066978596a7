use ant_invaders::components::{Enemy, Health, Transform, Velocity};
use ant_invaders::enemy::formation::{Formation, FormationDraw};
use ant_invaders::enemy::{Bearing, Heading, MovementError, SpawnError};
use ant_invaders::resources::{Config, Direction, EnemyCount, Intent, WinSize, TIME_STEP};
use ant_invaders::tick::{begin_tick, begin_tick_with, finish_tick};
use ant_invaders::world::{Entity, World};

fn game(config: Config) -> World {
    match World::new(WinSize { w: 598_000, h: 676_000 }, config) {
        Ok(world) => world,
        Err(_) => panic!("the configuration is valid"),
    }
}

fn work_out(bearing: &Bearing) -> Heading {
    let base = ((bearing.start.1 - bearing.pivot.1) as f64)
        .atan2((bearing.start.0 - bearing.pivot.0) as f64);
    let theta = base + bearing.angle as f64 * 1e-6;
    Heading {
        cos: (theta.cos() * 1e6).round() as i32,
        sin: (theta.sin() * 1e6).round() as i32,
    }
}

fn intent_at(tick: u32) -> Intent {
    let aim = match (tick / 40) % 5 {
        0 => Some(Direction::Up),
        1 => Some(Direction::Left),
        2 => Some(Direction::Right),
        3 => Some(Direction::Up),
        _ => None,
    };
    Intent {
        left: (tick / 25) % 4 == 0,
        right: (tick / 25) % 4 == 2,
        down: (tick / 60) % 6 == 1,
        up: (tick / 60) % 6 == 3,
        aim,
    }
}

#[test]
fn the_first_tick_brings_in_the_player() {
    let mut world = game(Config::default());
    let intent = Intent { left: false, right: false, down: false, up: false, aim: None };
    let bearings = begin_tick(&mut world, &intent, TIME_STEP);
    assert_eq!(bearings, Vec::new());
    assert_eq!(world.res.clock, 16_667);
    assert_eq!(world.entities.len(), 1);
    assert!(world.entities[0].player.is_some());
    assert_eq!(world.res.player_state.last_spawned, Some(16_667));
    let report = match finish_tick(&mut world, TIME_STEP, &Vec::new()) {
        Ok(report) => report,
        Err(_) => panic!("no enemy is there to move"),
    };
    assert!(report.on_enemies.is_empty());
    assert!(report.on_player.is_empty());
    assert_eq!(world.entities.len(), 1);
}

#[test]
fn the_clock_stops_at_its_end() {
    let mut world = game(Config::default());
    world.res.clock = u64::MAX - 5;
    let intent = Intent { left: false, right: false, down: false, up: false, aim: None };
    begin_tick(&mut world, &intent, TIME_STEP);
    assert_eq!(world.res.clock, u64::MAX);
}

#[test]
fn a_tick_with_the_wrong_headings_fails_and_changes_nothing() {
    let mut world = game(Config::default());
    world.spawn(Entity {
        transform: Some(Transform { translation: (0, 0), facing: (0, 1_000), scale: 500 }),
        velocity: Some(Velocity { x: 0, y: 0 }),
        formation: Some(Formation {
            start: (399_000, 0),
            radius: (150_000, 100_000),
            pivot: (0, 0),
            speed: 250_000,
            angle: 0,
        }),
        health: Some(Health { hp: 2_000, multiplier: 0 }),
        enemy: Some(Enemy),
        ..Entity::new()
    });
    world.res.enemy_count = EnemyCount(1);
    let before = world.entities.clone();
    let resources = world.res;
    assert_eq!(
        finish_tick(&mut world, TIME_STEP, &Vec::new()).err(),
        Some(MovementError::HeadingCount)
    );
    assert_eq!(world.entities, before);
    assert_eq!(world.res, resources);
}

#[test]
fn a_long_game_keeps_its_counts_in_order() {
    let config = Config { squad_cap: 2, ..Config::default() };
    let mut world = game(config);
    let mut last_score: u64 = 0;
    let mut enemies_seen: u32 = 0;
    let mut shots_seen = false;
    let mut explosions_seen = false;
    for tick in 0..6_000u32 {
        let intent = intent_at(tick);
        let bearings = begin_tick(&mut world, &intent, TIME_STEP);
        let headings: Vec<Heading> = bearings.iter().map(work_out).collect();
        let enemies_before = world.entities.iter().filter(|e| e.enemy.is_some()).count();
        assert_eq!(bearings.len(), enemies_before);
        let report = match finish_tick(&mut world, TIME_STEP, &headings) {
            Ok(report) => report,
            Err(_) => panic!("every formation is valid and has its heading"),
        };
        let players = world.entities.iter().filter(|e| e.player.is_some()).count();
        assert!(players <= 1);
        assert_eq!(players == 1, world.res.player_state.on);
        assert!(!world.res.player_state.on || world.res.player_state.health.hp > 0);
        let enemies = world.entities.iter().filter(|e| e.enemy.is_some()).count();
        assert!(enemies as u32 <= config.enemy_max);
        assert_eq!(world.res.enemy_count, EnemyCount(enemies as u32));
        let kills = report.on_enemies.iter().filter(|hit| hit.destroyed).count();
        assert_eq!(enemies_before - enemies, kills);
        assert_eq!(world.res.player_state.score, last_score + kills as u64);
        last_score = world.res.player_state.score;
        for (i, hit) in report.on_enemies.iter().enumerate() {
            for later in report.on_enemies.iter().skip(i + 1) {
                assert_ne!(hit.laser, later.laser);
            }
        }
        assert!(world.entities.iter().all(|e| e.explosion_to_spawn.is_none()));
        assert!(world.res.formation_maker.current_members <= config.squad_cap);
        for (i, e) in world.entities.iter().enumerate() {
            assert!(e.id < world.res.next_id);
            for later in world.entities.iter().skip(i + 1) {
                assert_ne!(e.id, later.id);
            }
            if let Some(formation) = e.formation {
                assert!(formation.check_valid());
            }
            if let Some(index) = e.sprite_index {
                assert!(index.0 < config.explosion_frames);
            }
            if let (Some(_), Some(health)) = (e.enemy, e.health) {
                assert!(health.hp > 0);
            }
        }
        enemies_seen = enemies_seen.max(enemies as u32);
        shots_seen = shots_seen || world.entities.iter().any(|e| e.laser.is_some());
        explosions_seen = explosions_seen || world.entities.iter().any(|e| e.explosion.is_some());
    }
    assert_eq!(world.res.clock, 6_000 * 16_667);
    assert!(enemies_seen >= 1);
    assert!(shots_seen);
    assert!(explosions_seen || last_score == 0);
}

fn choices_for(tick: u32, slot: u64) -> FormationDraw {
    let spread = (tick as i32 * 37 + slot as i32 * 101) % 400;
    FormationDraw {
        right: (tick + slot as u32) % 2 == 0,
        y: spread * 1_000 - 200_000,
        pivot: ((spread - 200) * 500, spread * 600),
        radius_x: 150_000 + spread * 100,
    }
}

fn replay(ticks: u32) -> World {
    let mut world = game(Config { squad_cap: 3, ..Config::default() });
    for tick in 0..ticks {
        let due = world.spawn_attempts(TIME_STEP);
        let draws: Vec<FormationDraw> = (0..due).map(|slot| choices_for(tick, slot)).collect();
        let bearings = match begin_tick_with(&mut world, &intent_at(tick), TIME_STEP, &draws) {
            Ok(bearings) => bearings,
            Err(_) => panic!("there is one set of choices for each attempt"),
        };
        let headings: Vec<Heading> = bearings.iter().map(work_out).collect();
        assert!(finish_tick(&mut world, TIME_STEP, &headings).is_ok());
    }
    world
}

#[test]
fn the_same_inputs_give_the_same_game() {
    let first = replay(1_500);
    let second = replay(1_500);
    assert_eq!(first.entities, second.entities);
    assert_eq!(first.res, second.res);
    assert_eq!(first.res.clock, 1_500 * 16_667);
    assert!(first.entities.iter().any(|e| e.enemy.is_some()) || first.res.player_state.score > 0);
}

#[test]
fn the_first_enemy_of_a_replay_is_on_the_formation_of_the_choices() {
    let mut world = game(Config::default());
    let idle = Intent { left: false, right: false, down: false, up: false, aim: None };
    for _ in 0..89 {
        assert_eq!(world.spawn_attempts(TIME_STEP), 0);
        assert!(begin_tick_with(&mut world, &idle, TIME_STEP, &Vec::new()).is_ok());
        assert!(finish_tick(&mut world, TIME_STEP, &Vec::new()).is_ok());
    }
    assert_eq!(world.spawn_attempts(TIME_STEP), 1);
    let draw = FormationDraw { right: true, y: 12_000, pivot: (-5_000, 40_000), radius_x: 180_000 };
    let bearings = match begin_tick_with(&mut world, &idle, TIME_STEP, &vec![draw]) {
        Ok(bearings) => bearings,
        Err(_) => panic!("there is one set of choices for the one attempt"),
    };
    assert_eq!(
        bearings,
        vec![Bearing { start: (399_000, 12_000), pivot: (-5_000, 40_000), angle: 26_526 }]
    );
    let enemy = world.entities[world.entities.len() - 1];
    assert_eq!(enemy.transform.unwrap().translation, (399_000, 12_000));
    assert_eq!(
        enemy.formation,
        Some(Formation {
            start: (399_000, 12_000),
            radius: (180_000, 100_000),
            pivot: (-5_000, 40_000),
            speed: 250_000,
            angle: 0,
        })
    );
    assert_eq!(world.res.enemy_count, EnemyCount(1));
}

#[test]
fn a_tick_with_the_wrong_number_of_choices_fails_and_changes_nothing() {
    let mut world = game(Config::default());
    let idle = Intent { left: false, right: false, down: false, up: false, aim: None };
    let draw = FormationDraw { right: true, y: 0, pivot: (0, 0), radius_x: 150_000 };
    let resources = world.res;
    assert_eq!(
        begin_tick_with(&mut world, &idle, TIME_STEP, &vec![draw]).err(),
        Some(SpawnError::DrawCount)
    );
    assert!(world.entities.is_empty());
    assert_eq!(world.res, resources);
    assert_eq!(world.spawn_attempts(3_000_000), 2);
    assert_eq!(
        begin_tick_with(&mut world, &idle, 3_000_000, &vec![draw]).err(),
        Some(SpawnError::DrawCount)
    );
    assert_eq!(world.res, resources);
    assert!(begin_tick_with(&mut world, &idle, 3_000_000, &vec![draw, draw]).is_ok());
    assert_eq!(world.res.enemy_count, EnemyCount(2));
}
