//! One tick of the simulation: the systems in their fixed order.
//!
//! A tick runs in two halves. The first applies the player's input, lets
//! the guns fire, brings in what is due and moves what flies freely; it
//! hands out the bearings of the enemies on a formation. The caller works
//! out a heading for each bearing, and the second half moves the enemies,
//! settles the collisions and carries the explosions on.

use vstd::prelude::*;
use crate::collision::{enemy_laser_hit_player_system, player_laser_hit_enemy_system, Hit};
use crate::enemy::formation::FormationDraw;
use crate::enemy::{
    all_fit, enemy_bearings, enemy_fire_system, enemy_movement_system, enemy_spawn_scheduler,
    enemy_spawn_scheduler_with, Bearing, Heading, MovementError, SpawnError,
};
use crate::explosion::{explosion_animation_system, explosion_to_spawn_system};
use crate::invariants::lemma_enemy_fire_frame;
use crate::invariants::ticks::{lemma_begun_keeps_well_formed, lemma_finished_keeps_well_formed};
use crate::movement::movable_system;
use crate::player::{player_fire_system, player_keyboard_event_system, player_spawn_system};
use crate::resources::Intent;
use crate::world::{Resources, World, WorldView};

verus! {

/// What fell in the collision phase of one tick.
pub struct TickReport {
    /// Hits of the player's projectiles on enemies.
    pub on_enemies: Vec<Hit>,
    /// Hits of the enemies' projectiles on the player.
    pub on_player: Vec<Hit>,
}

impl WorldView {
    /// The world `dt` microseconds later by its clock, which stops at the
    /// largest time it can hold.
    pub open spec fn clock_advanced(self, dt: u32) -> WorldView {
        WorldView {
            res: Resources {
                clock: if self.res.clock + dt > u64::MAX {
                    u64::MAX
                } else {
                    (self.res.clock + dt) as u64
                },
                ..self.res
            },
            ..self
        }
    }

    /// The world after those that are there have acted: the input is
    /// applied, and the guns fire.
    pub open spec fn after_actions(self, intent: Intent, dt: u32) -> WorldView {
        self.after_input(intent).after_player_fire(dt).after_enemy_fire(dt)
    }

    /// The world after those that are due have come in: the player, and
    /// the enemies with `draws` as the choices for their formations.
    pub open spec fn after_arrivals(self, dt: u32, draws: Seq<FormationDraw>) -> WorldView {
        self.after_player_spawn(dt).spawn_timer_cycled(dt).after_enemy_spawns(
            draws,
            draws.len() as int,
        )
    }

    /// The world after the spawn phase of a tick. The clock goes on; those
    /// that are there act; then those that are due come in. Ships that come
    /// in during the phase take no part in it: they neither steer nor fire
    /// before the next tick.
    pub open spec fn after_spawn_phase(
        self,
        intent: Intent,
        dt: u32,
        draws: Seq<FormationDraw>,
    ) -> WorldView {
        self.clock_advanced(dt).after_actions(intent, dt).after_arrivals(dt, draws)
    }

    /// The world after the first half of a tick: the spawn phase, and the
    /// movement of all that flies freely.
    pub open spec fn begun(self, intent: Intent, dt: u32, draws: Seq<FormationDraw>) -> WorldView {
        self.after_spawn_phase(intent, dt, draws).after_free_movement(dt)
    }

    /// The world after the second half of a tick: the enemies move, the
    /// collisions are settled, the explosions go on and those recorded are
    /// made. An explosion made in a tick shows its first frame for the rest
    /// of the tick. Where the enemies cannot move, nothing changes.
    pub open spec fn finished(self, headings: Seq<Heading>, dt: u32) -> WorldView {
        if self.movement_error(headings).is_none() {
            self.after_enemy_movement(headings, dt).after_collisions().after_lifecycle(dt)
        } else {
            self
        }
    }

    /// The world after the collision phase: first the player's projectiles,
    /// then those of the enemies.
    pub open spec fn after_collisions(self) -> WorldView {
        self.after_player_hits().after_enemy_hits()
    }

    /// The world after the lifecycle phase: the explosions that are running
    /// go on, then those recorded are made.
    pub open spec fn after_lifecycle(self, dt: u32) -> WorldView {
        self.after_animation(dt).after_explosions_spawned()
    }
}

/// The first half of a tick. Returns the bearings of the enemies on a
/// formation as they are after it: the second half takes one heading for
/// each. The formations of new squads are drawn at random, so the world is
/// then as some choices that fit the viewport leave it, one set of choices
/// for each attempt to bring in an enemy. A well-formed world stays well
/// formed, as long as the handles are not used up.
pub fn begin_tick(world: &mut World, intent: &Intent, dt: u32) -> (bearings: Vec<Bearing>)
    requires
        old(world).res.win_size.is_valid(),
    ensures
        exists|draws: Seq<FormationDraw>|
            draws.len() == old(world)@.spawn_attempts(dt) && all_fit(draws, old(world).res.win_size)
                && final(world)@ == #[trigger] old(world)@.begun(*intent, dt, draws),
        bearings@ == final(world)@.bearings(dt),
        bearings@.len() == final(world)@.riders_among(final(world)@.entities.len() as int),
        old(world)@.is_well_formed() && final(world).res.next_id < u64::MAX
            ==> final(world)@.is_well_formed(),
{
    world.res.clock = world.res.clock.saturating_add(dt as u64);
    player_keyboard_event_system(world, intent);
    player_fire_system(world, dt);
    proof {
        lemma_enemy_fire_frame(world@, dt);
    }
    enemy_fire_system(world, dt);
    player_spawn_system(world, dt);
    let ghost before: WorldView = world@;
    let attempts: u64 = enemy_spawn_scheduler(world, dt);
    let ghost draws: Seq<FormationDraw> = choose|draws: Seq<FormationDraw>|
        draws.len() == attempts && all_fit(draws, before.res.win_size) && world@
            == #[trigger] before.spawn_timer_cycled(dt).after_enemy_spawns(draws, attempts as int);
    movable_system(world, dt);
    assert(world@ == old(world)@.begun(*intent, dt, draws));
    proof {
        if old(world)@.is_well_formed() && world.res.next_id < u64::MAX {
            lemma_begun_keeps_well_formed(old(world)@, *intent, dt, draws);
        }
    }
    enemy_bearings(world, dt)
}

/// The first half of a tick, with `draws` as the choices for the formations
/// of new squads, one set for each attempt to bring in an enemy that is due:
/// `World::spawn_attempts` tells how many that are. With the same choices
/// the same tick comes out again. Where the sets are not as many as the
/// attempts, nothing changes.
pub fn begin_tick_with(
    world: &mut World,
    intent: &Intent,
    dt: u32,
    draws: &Vec<FormationDraw>,
) -> (bearings: Result<Vec<Bearing>, SpawnError>)
    requires
        old(world).res.win_size.is_valid(),
    ensures
        match bearings {
            Ok(b) => {
                &&& draws@.len() == old(world)@.spawn_attempts(dt)
                &&& final(world)@ == old(world)@.begun(*intent, dt, draws@)
                &&& b@ == final(world)@.bearings(dt)
                &&& b@.len() == final(world)@.riders_among(final(world)@.entities.len() as int)
            },
            Err(e) => e == SpawnError::DrawCount && draws@.len() != old(world)@.spawn_attempts(dt)
                && final(world)@ == old(world)@,
        },
        old(world)@.is_well_formed() && all_fit(draws@, old(world).res.win_size)
            && final(world).res.next_id < u64::MAX ==> final(world)@.is_well_formed(),
{
    if world.spawn_attempts(dt) != draws.len() as u64 {
        return Err(SpawnError::DrawCount);
    }
    world.res.clock = world.res.clock.saturating_add(dt as u64);
    player_keyboard_event_system(world, intent);
    player_fire_system(world, dt);
    proof {
        lemma_enemy_fire_frame(world@, dt);
    }
    enemy_fire_system(world, dt);
    player_spawn_system(world, dt);
    match enemy_spawn_scheduler_with(world, dt, draws) {
        Ok(_) => {},
        Err(e) => {
            // the timer for new enemies is as it was when the sets were counted
            assert(false);
            return Err(e);
        },
    }
    movable_system(world, dt);
    assert(world@ == old(world)@.begun(*intent, dt, draws@));
    proof {
        if old(world)@.is_well_formed() && all_fit(draws@, old(world).res.win_size)
            && world.res.next_id < u64::MAX {
            lemma_begun_keeps_well_formed(old(world)@, *intent, dt, draws@);
        }
    }
    Ok(enemy_bearings(world, dt))
}

/// The second half of a tick, with one heading for each bearing that the
/// first half has handed out. Fails, and changes nothing, where the enemies
/// cannot move: see `enemy_movement_system`.
pub fn finish_tick(world: &mut World, dt: u32, headings: &Vec<Heading>) -> (report: Result<
    TickReport,
    MovementError,
>)
    ensures
        final(world)@ == old(world)@.finished(headings@, dt),
        match report {
            Ok(r) => {
                &&& old(world)@.movement_error(headings@).is_none()
                &&& r.on_enemies@ == old(world)@.after_enemy_movement(
                    headings@,
                    dt,
                ).player_hits().hits
                &&& r.on_player@ == old(world)@.after_enemy_movement(
                    headings@,
                    dt,
                ).after_player_hits().enemy_hits()
            },
            Err(e) => old(world)@.movement_error(headings@) == Some(e),
        },
        old(world)@.is_well_formed() && final(world).res.next_id < u64::MAX
            ==> final(world)@.is_well_formed(),
{
    proof {
        if old(world)@.is_well_formed() && old(world)@.finished(headings@, dt).res.next_id
            < u64::MAX {
            lemma_finished_keeps_well_formed(old(world)@, headings@, dt);
        }
    }
    match enemy_movement_system(world, dt, headings) {
        Ok(_) => {},
        Err(e) => {
            return Err(e);
        },
    }
    let on_enemies: Vec<Hit> = player_laser_hit_enemy_system(world);
    let on_player: Vec<Hit> = enemy_laser_hit_player_system(world);
    explosion_animation_system(world, dt);
    explosion_to_spawn_system(world);
    Ok(TickReport { on_enemies, on_player })
}

} // verus!
