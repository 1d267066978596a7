//! A whole tick: it keeps a world well formed, never lowers the score, and
//! brings the player back when the wait is over.

use vstd::prelude::*;
use crate::collision::{kills_among, lemma_score_counts_kills, score_after};
use crate::counting::{lemma_count_bounds, lemma_count_none, marked_player};
use crate::enemy::formation::FormationDraw;
use crate::enemy::{all_fit, Heading};
use crate::explosion::lemma_no_record_left;
use crate::invariants::collisions::{
    lemma_enemy_hits_keep_well_formed, lemma_player_hits_frame, lemma_player_hits_keep_well_formed,
};
use crate::invariants::{
    lemma_animation_keeps_well_formed, lemma_clock_keeps_well_formed, lemma_enemy_fire_frame,
    lemma_enemy_fire_keeps_well_formed, lemma_enemy_movement_keeps_well_formed,
    lemma_enemy_spawns_frame, lemma_enemy_spawns_keep_well_formed, lemma_explosions_frame,
    lemma_explosions_keep_well_formed, lemma_free_movement_keeps_well_formed,
    lemma_input_keeps_well_formed, lemma_player_fire_keeps_well_formed,
    lemma_player_spawn_keeps_well_formed,
};
use crate::resources::{Intent, PlayerState, WinSize};
use crate::world::WorldView;

verus! {

/// `b` is `a` as far as the wait for the player goes: whether the player is
/// on, when it came in, and what is left of the respawn cooldown.
pub open spec fn same_wait(a: PlayerState, b: PlayerState) -> bool {
    b.on == a.on && b.last_spawned == a.last_spawned && b.spawn_cooldown == a.spawn_cooldown
}

/// What the first half of a tick leaves of the shared state: the viewport,
/// the configuration and the score are as before, the clock has gone on,
/// the next handle has not gone down, and the wait for the player is as the
/// coming of the player has left it.
pub proof fn lemma_begun_frame(w: WorldView, intent: Intent, dt: u32, draws: Seq<FormationDraw>)
    ensures
        w.begun(intent, dt, draws).res.win_size == w.res.win_size,
        w.begun(intent, dt, draws).res.config == w.res.config,
        w.begun(intent, dt, draws).res.clock == w.clock_advanced(dt).res.clock,
        w.begun(intent, dt, draws).res.player_state.score == w.res.player_state.score,
        w.res.next_id <= w.begun(intent, dt, draws).res.next_id,
        same_wait(w.res.player_state, w.clock_advanced(dt).after_actions(intent, dt).res.player_state),
        w.clock_advanced(dt).after_actions(intent, dt).res.clock == w.clock_advanced(dt).res.clock,
        same_wait(
            w.clock_advanced(dt).after_actions(intent, dt).after_player_spawn(dt).res.player_state,
            w.begun(intent, dt, draws).res.player_state,
        ),
{
    let w2 = w.clock_advanced(dt).after_input(intent).after_player_fire(dt);
    let w4 = w2.after_enemy_fire(dt).after_player_spawn(dt).spawn_timer_cycled(dt);
    lemma_enemy_fire_frame(w2, dt);
    lemma_enemy_spawns_frame(w4, draws, draws.len() as int);
}

/// What the second half of a tick leaves of the shared state: the
/// viewport, the configuration and the clock are as before, and the next
/// handle has not gone down.
pub proof fn lemma_finished_frame(w: WorldView, headings: Seq<Heading>, dt: u32)
    ensures
        w.finished(headings, dt).res.win_size == w.res.win_size,
        w.finished(headings, dt).res.config == w.res.config,
        w.finished(headings, dt).res.clock == w.res.clock,
        w.res.next_id <= w.finished(headings, dt).res.next_id,
{
    if w.movement_error(headings).is_none() {
        let v1 = w.after_enemy_movement(headings, dt);
        lemma_player_hits_frame(v1);
        let v4 = v1.after_player_hits().after_enemy_hits().after_animation(dt);
        lemma_explosions_frame(v4);
    }
}

/// The first half of a tick leaves a well-formed world well formed, as long
/// as the handles are not used up and the choices for new formations fit
/// the viewport.
pub proof fn lemma_begun_keeps_well_formed(
    w: WorldView,
    intent: Intent,
    dt: u32,
    draws: Seq<FormationDraw>,
)
    requires
        w.is_well_formed(),
        all_fit(draws, w.res.win_size),
        w.begun(intent, dt, draws).res.next_id < u64::MAX,
    ensures
        w.begun(intent, dt, draws).is_well_formed(),
{
    let w0 = w.clock_advanced(dt);
    let w1 = w0.after_input(intent);
    let w2 = w1.after_player_fire(dt);
    let w3 = w2.after_enemy_fire(dt);
    let w4 = w3.after_player_spawn(dt);
    let w5 = w4.spawn_timer_cycled(dt);
    let w6 = w5.after_enemy_spawns(draws, draws.len() as int);
    lemma_enemy_fire_frame(w2, dt);
    lemma_enemy_spawns_frame(w5, draws, draws.len() as int);
    lemma_clock_keeps_well_formed(w, dt);
    lemma_input_keeps_well_formed(w0, intent);
    lemma_player_fire_keeps_well_formed(w1, dt);
    lemma_enemy_fire_keeps_well_formed(w2, dt);
    lemma_player_spawn_keeps_well_formed(w3, dt);
    assert(w5.is_well_formed());
    lemma_enemy_spawns_keep_well_formed(w5, draws, draws.len() as int);
    lemma_free_movement_keeps_well_formed(w6, dt);
}

/// The second half of a tick leaves a well-formed world well formed, as
/// long as the handles are not used up.
pub proof fn lemma_finished_keeps_well_formed(w: WorldView, headings: Seq<Heading>, dt: u32)
    requires
        w.is_well_formed(),
        w.finished(headings, dt).res.next_id < u64::MAX,
    ensures
        w.finished(headings, dt).is_well_formed(),
{
    if w.movement_error(headings).is_none() {
        let v1 = w.after_enemy_movement(headings, dt);
        let v2 = v1.after_player_hits();
        let v3 = v2.after_enemy_hits();
        let v4 = v3.after_animation(dt);
        lemma_explosions_frame(v4);
        lemma_enemy_movement_keeps_well_formed(w, headings, dt);
        lemma_player_hits_keep_well_formed(v1);
        lemma_enemy_hits_keep_well_formed(v2);
        lemma_animation_keeps_well_formed(v3, dt);
        lemma_explosions_keep_well_formed(v4);
    }
}

/// Over a whole tick the score never goes down. The first half leaves it
/// as it is, and the second half raises it by the points for one kill for
/// each enemy that the player's projectiles have destroyed in it.
pub proof fn lemma_score_over_a_tick(
    w: WorldView,
    intent: Intent,
    dt: u32,
    draws: Seq<FormationDraw>,
    headings: Seq<Heading>,
)
    ensures
        w.begun(intent, dt, draws).res.player_state.score == w.res.player_state.score,
        w.begun(intent, dt, draws).finished(headings, dt).res.player_state.score
            >= w.res.player_state.score,
        w.begun(intent, dt, draws).movement_error(headings).is_none() ==> w.begun(
            intent,
            dt,
            draws,
        ).finished(headings, dt).res.player_state.score == score_after(
            w.res.player_state.score,
            kills_among(
                w.begun(intent, dt, draws).after_enemy_movement(headings, dt).player_hits().hits,
                w.begun(intent, dt, draws).after_enemy_movement(
                    headings,
                    dt,
                ).player_hits().hits.len() as int,
            ),
        ),
{
    lemma_begun_frame(w, intent, dt, draws);
    let b = w.begun(intent, dt, draws);
    if b.movement_error(headings).is_none() {
        let v1 = b.after_enemy_movement(headings, dt);
        lemma_score_counts_kills(v1);
        lemma_explosions_frame(v1.after_player_hits().after_enemy_hits().after_animation(dt));
    }
}

/// A tick whose second half is carried out leaves no record of an
/// explosion to be made: what a death has left behind is an explosion by
/// the end of the same tick.
pub proof fn lemma_no_record_after_a_tick(w: WorldView, headings: Seq<Heading>, dt: u32, k: int)
    requires
        w.movement_error(headings).is_none(),
        0 <= k < w.finished(headings, dt).entities.len(),
    ensures
        w.finished(headings, dt).entities[k].explosion_to_spawn.is_none(),
{
    let v4 = w.after_enemy_movement(headings, dt).after_player_hits().after_enemy_hits().after_animation(
        dt,
    );
    lemma_no_record_left(v4, k);
}

/// What goes into one tick: the player's input, the time the tick covers,
/// the choices for the formations of new squads, and the headings of the
/// enemies.
pub struct TickInput {
    pub intent: Intent,
    pub dt: u32,
    pub draws: Seq<FormationDraw>,
    pub headings: Seq<Heading>,
}

impl WorldView {
    /// The world after one whole tick.
    pub open spec fn ticked(self, input: TickInput) -> WorldView {
        self.begun(input.intent, input.dt, input.draws).finished(input.headings, input.dt)
    }

    /// The world after the first `n` of a run of ticks.
    pub open spec fn run(self, inputs: Seq<TickInput>, n: int) -> WorldView
        decreases n,
    {
        if n <= 0 {
            self
        } else {
            self.run(inputs, n - 1).ticked(inputs[n - 1])
        }
    }
}

/// The time that the first `n` of a run of ticks cover.
pub open spec fn run_time(inputs: Seq<TickInput>, n: int) -> int
    decreases n,
{
    if n <= 0 {
        0
    } else {
        run_time(inputs, n - 1) + inputs[n - 1].dt
    }
}

/// The choices of each of the first `n` ticks fit the viewport.
pub open spec fn run_fits(inputs: Seq<TickInput>, win_size: WinSize, n: int) -> bool {
    forall|i: int| 0 <= i < n ==> all_fit((#[trigger] inputs[i]).draws, win_size)
}

/// A world in which no entity is marked as the player has no player.
proof fn lemma_no_player(w: WorldView)
    requires
        w.players() == 0,
    ensures
        w.player_at().is_none(),
{
    lemma_count_none(w.entities, marked_player(), w.entities.len() as int);
    assert forall|i: int| !w.is_the_player(i) by {
        if w.is_the_player(i) {
            assert(marked_player()(w.entities[i]));
        }
    }
}

/// The wait for the player over one tick. In a well-formed world without a
/// player, a tick that ends before the respawn cooldown has run down leaves
/// the world without a player and the cooldown shorter by the time of the
/// tick; a tick in which the cooldown runs down leaves exactly one player
/// in the world.
pub proof fn lemma_respawn_over_a_tick(w: WorldView, input: TickInput)
    requires
        w.is_well_formed(),
        !w.res.player_state.on,
        all_fit(input.draws, w.res.win_size),
        w.ticked(input).res.next_id < u64::MAX,
    ensures
        w.ticked(input).is_well_formed(),
        input.dt < w.res.player_state.spawn_cooldown.remaining ==> {
            &&& !w.ticked(input).res.player_state.on
            &&& w.ticked(input).players() == 0
            &&& w.ticked(input).res.player_state.spawn_cooldown.remaining
                == w.res.player_state.spawn_cooldown.remaining - input.dt
        },
        input.dt >= w.res.player_state.spawn_cooldown.remaining ==> {
            &&& w.ticked(input).res.player_state.on
            &&& w.ticked(input).players() == 1
        },
{
    let dt = input.dt;
    let headings = input.headings;
    let b = w.begun(input.intent, dt, input.draws);
    let after = w.ticked(input);
    lemma_begun_frame(w, input.intent, dt, input.draws);
    lemma_finished_frame(b, headings, dt);
    lemma_begun_keeps_well_formed(w, input.intent, dt, input.draws);
    lemma_finished_keeps_well_formed(b, headings, dt);
    if b.movement_error(headings).is_none() {
        let v1 = b.after_enemy_movement(headings, dt);
        let v2 = v1.after_player_hits();
        let v3 = v2.after_enemy_hits();
        lemma_player_hits_frame(v1);
        lemma_explosions_frame(v3.after_animation(dt));
        lemma_enemy_movement_keeps_well_formed(b, headings, dt);
        lemma_player_hits_keep_well_formed(v1);
        // the enemies' fire finds no player, or one that is still shielded
        if v2.res.player_state.on {
            let acted = w.clock_advanced(dt).after_actions(input.intent, dt);
            assert(!acted.res.player_state.on);
            assert(acted.after_player_spawn(dt).res.player_state.last_spawned == Some(
                acted.res.clock,
            ));
            assert(v2.res.player_state.last_spawned == Some(v2.res.clock));
            assert(v2.res.player_state.shielded(v2.res.clock));
        } else {
            lemma_count_bounds(v2.entities, marked_player(), v2.entities.len() as int);
            lemma_no_player(v2);
        }
        assert(v3 == v2);
    }
    lemma_count_bounds(after.entities, marked_player(), after.entities.len() as int);
}

/// The handles never go down over a run of ticks, and the viewport and
/// the configuration stay as they are.
pub proof fn lemma_run_frame(w: WorldView, inputs: Seq<TickInput>, n: int)
    ensures
        w.res.next_id <= w.run(inputs, n).res.next_id,
        w.run(inputs, n).res.win_size == w.res.win_size,
        w.run(inputs, n).res.config == w.res.config,
    decreases n,
{
    if n > 0 {
        lemma_run_frame(w, inputs, n - 1);
        let prev = w.run(inputs, n - 1);
        let input = inputs[n - 1];
        lemma_begun_frame(prev, input.intent, input.dt, input.draws);
        lemma_finished_frame(prev.begun(input.intent, input.dt, input.draws), input.headings, input.dt);
    }
}

/// A run of ticks leaves a well-formed world well formed, as long as the
/// handles are not used up and the choices for new formations fit the
/// viewport.
pub proof fn lemma_run_keeps_well_formed(w: WorldView, inputs: Seq<TickInput>, n: int)
    requires
        w.is_well_formed(),
        0 <= n <= inputs.len(),
        run_fits(inputs, w.res.win_size, n),
        w.run(inputs, n).res.next_id < u64::MAX,
    ensures
        w.run(inputs, n).is_well_formed(),
    decreases n,
{
    if n > 0 {
        let prev = w.run(inputs, n - 1);
        let input = inputs[n - 1];
        let begun = prev.begun(input.intent, input.dt, input.draws);
        lemma_run_frame(w, inputs, n - 1);
        lemma_begun_frame(prev, input.intent, input.dt, input.draws);
        lemma_finished_frame(begun, input.headings, input.dt);
        lemma_run_keeps_well_formed(w, inputs, n - 1);
        assert(all_fit(input.draws, w.res.win_size));
        lemma_begun_keeps_well_formed(prev, input.intent, input.dt, input.draws);
        lemma_finished_keeps_well_formed(begun, input.headings, input.dt);
    }
}

/// In a well-formed world the enemies can move whenever there is one
/// heading for each of them: every formation can be followed.
pub proof fn lemma_well_formed_can_move(w: WorldView, headings: Seq<Heading>)
    requires
        w.is_well_formed(),
        headings.len() == w.riders_among(w.entities.len() as int),
    ensures
        w.movement_error(headings).is_none(),
{
}

/// Over a run of ticks the score never goes down.
pub proof fn lemma_score_never_falls(w: WorldView, inputs: Seq<TickInput>, n: int)
    ensures
        w.run(inputs, n).res.player_state.score >= w.res.player_state.score,
    decreases n,
{
    if n > 0 {
        lemma_score_never_falls(w, inputs, n - 1);
        let input = inputs[n - 1];
        lemma_score_over_a_tick(
            w.run(inputs, n - 1),
            input.intent,
            input.dt,
            input.draws,
            input.headings,
        );
    }
}

/// The time of a run never goes back.
proof fn lemma_run_time_grows(inputs: Seq<TickInput>, n: int)
    requires
        0 <= n,
    ensures
        0 <= run_time(inputs, n) <= run_time(inputs, n + 1),
    decreases n,
{
    if n > 0 {
        lemma_run_time_grows(inputs, n - 1);
    }
}

/// From a well-formed world without a player, for as long as the ticks of
/// a run cover less time than is left of the respawn cooldown, there is no
/// player in the world; and after the tick with which they cover that time,
/// there is exactly one.
pub proof fn lemma_respawn_cooldown(w: WorldView, inputs: Seq<TickInput>, n: int)
    requires
        w.is_well_formed(),
        !w.res.player_state.on,
        0 <= n <= inputs.len(),
        run_fits(inputs, w.res.win_size, n),
        w.run(inputs, n).res.next_id < u64::MAX,
        n > 0 ==> run_time(inputs, n - 1) < w.res.player_state.spawn_cooldown.remaining,
    ensures
        w.run(inputs, n).is_well_formed(),
        run_time(inputs, n) < w.res.player_state.spawn_cooldown.remaining ==> {
            &&& !w.run(inputs, n).res.player_state.on
            &&& w.run(inputs, n).players() == 0
            &&& w.run(inputs, n).res.player_state.spawn_cooldown.remaining
                == w.res.player_state.spawn_cooldown.remaining - run_time(inputs, n)
        },
        n > 0 && run_time(inputs, n) >= w.res.player_state.spawn_cooldown.remaining ==> {
            &&& w.run(inputs, n).res.player_state.on
            &&& w.run(inputs, n).players() == 1
        },
    decreases n,
{
    if n > 0 {
        let prev = w.run(inputs, n - 1);
        let input = inputs[n - 1];
        lemma_run_frame(w, inputs, n - 1);
        lemma_begun_frame(prev, input.intent, input.dt, input.draws);
        lemma_finished_frame(prev.begun(input.intent, input.dt, input.draws), input.headings, input.dt);
        if n > 1 {
            lemma_run_time_grows(inputs, n - 2);
        }
        lemma_respawn_cooldown(w, inputs, n - 1);
        assert(all_fit(input.draws, w.res.win_size));
        lemma_respawn_over_a_tick(prev, input);
    } else {
        lemma_count_bounds(w.entities, marked_player(), w.entities.len() as int);
    }
}

/// The wait begins with the player's death: when the enemies' fire brings
/// the player down, the player is recorded as off and shot at the time of
/// the clock, and the respawn cooldown is wound up to its full period,
/// which in a well-formed world is the configured respawn delay.
pub proof fn lemma_death_starts_the_wait(w: WorldView)
    requires
        w.is_well_formed(),
        w.res.player_state.on,
        !w.after_enemy_hits().res.player_state.on,
    ensures
        w.after_enemy_hits().res.player_state.spawn_cooldown.remaining
            == w.res.config.respawn_delay,
        w.after_enemy_hits().res.player_state.last_shot == Some(w.res.clock),
{
}

} // verus!
