//! No enemy is left without hit points: whatever the state of the handles,
//! every system keeps that, and so does every tick.

use vstd::prelude::*;
use crate::collision::{pending_explosion, survivor, Hit, Scan};
use crate::enemy::formation::FormationDraw;
use crate::enemy::{cooled, cooled_by, enemy_laser, enemy_template, shoots, Heading};
use crate::explosion::{animated, animated_in, explosion_at, unless_pending};
use crate::invariants::ticks::TickInput;
use crate::invariants::{
    enemies_alive, is_alive, lemma_filter_map_from, lemma_filter_map_keeps_alive,
    lemma_marched_same_kinds, lemma_same_healths_keep_alive, same_health,
};
use crate::movement::{moved, moved_in};
use crate::resources::Intent;
use crate::world::{Entity, WorldView};

verus! {

/// One more entity that could be left leaves no enemy without hit points.
pub proof fn lemma_push_keeps_alive(s: Seq<Entity>, e: Entity)
    requires
        enemies_alive(s),
        is_alive(e),
    ensures
        enemies_alive(s.push(e)),
{
    let t = s.push(e);
    assert forall|i: int|
        0 <= i < t.len() && (#[trigger] t[i]).enemy.is_some() && t[i].health.is_some() implies
        t[i].health.unwrap().hp > 0 by {
        if i < s.len() {
            assert(t[i] == s[i]);
        }
    }
}

/// Every enemy that a collision phase has left without hit points is used
/// up.
pub open spec fn spent_are_consumed(scan: Scan) -> bool {
    forall|i: int|
        0 <= i < scan.entities.len() && (#[trigger] scan.entities[i]).enemy.is_some()
            && scan.entities[i].health.is_some() && scan.entities[i].health.unwrap().hp <= 0
            ==> scan.consumed.contains(scan.entities[i].id)
}

/// Looking at one more pair leaves every enemy without hit points used up.
proof fn lemma_pair_consumes_spent(scan: Scan, l: int, t: int)
    requires
        spent_are_consumed(scan),
        0 <= l < scan.entities.len(),
        0 <= t < scan.entities.len(),
    ensures
        spent_are_consumed(scan.pair(l, t)),
        scan.pair(l, t).entities.len() == scan.entities.len(),
{
    if scan.strikes(l, t) {
        let after = scan.pair(l, t);
        assert forall|i: int|
            0 <= i < after.entities.len() && (#[trigger] after.entities[i]).enemy.is_some()
                && after.entities[i].health.is_some() && after.entities[i].health.unwrap().hp
                <= 0 implies after.consumed.contains(after.entities[i].id) by {
            if i != t {
                assert(after.entities[i] == scan.entities[i]);
                assert(scan.consumed.contains(scan.entities[i].id));
            }
        }
    }
}

/// Holding one projectile against the entities leaves every enemy without
/// hit points used up.
proof fn lemma_targets_consume_spent(scan: Scan, l: int, n: int)
    requires
        spent_are_consumed(scan),
        0 <= l < scan.entities.len(),
        0 <= n <= scan.entities.len(),
    ensures
        spent_are_consumed(scan.targets(l, n)),
        scan.targets(l, n).entities.len() == scan.entities.len(),
    decreases n,
{
    if n > 0 {
        lemma_targets_consume_spent(scan, l, n - 1);
        lemma_pair_consumes_spent(scan.targets(l, n - 1), l, n - 1);
    }
}

/// A whole collision phase leaves every enemy without hit points used up.
proof fn lemma_lasers_consume_spent(scan: Scan, m: int)
    requires
        spent_are_consumed(scan),
        0 <= m <= scan.entities.len(),
    ensures
        spent_are_consumed(scan.lasers(m)),
        scan.lasers(m).entities.len() == scan.entities.len(),
    decreases m,
{
    if m > 0 {
        lemma_lasers_consume_spent(scan, m - 1);
        lemma_targets_consume_spent(scan.lasers(m - 1), m - 1, scan.entities.len() as int);
    }
}

/// Settling kills leaves no enemy without hit points.
proof fn lemma_settled_keeps_alive(w: WorldView, hits: Seq<Hit>, n: int)
    requires
        enemies_alive(w.entities),
    ensures
        enemies_alive(w.settled(hits, n).entities),
    decreases n,
{
    if n > 0 {
        lemma_settled_keeps_alive(w, hits, n - 1);
        if hits[n - 1].destroyed {
            let prev = w.settled(hits, n - 1);
            lemma_push_keeps_alive(
                prev.entities,
                Entity { id: prev.res.next_id, ..pending_explosion(hits[n - 1].at) },
            );
        }
    }
}

/// The collisions of the player's projectiles leave no enemy without hit
/// points: an enemy whose health is used up is removed in the phase in
/// which it is hit.
pub proof fn lemma_player_hits_keep_alive(w: WorldView)
    requires
        enemies_alive(w.entities),
    ensures
        enemies_alive(w.after_player_hits().entities),
{
    let scan = w.player_hits();
    let f = survivor(scan.consumed);
    lemma_lasers_consume_spent(Scan::start(w.entities), w.entities.len() as int);
    let cleared = w.cleared(scan.entities, scan.consumed);
    assert forall|k: int|
        0 <= k < cleared.entities.len() && (#[trigger] cleared.entities[k]).enemy.is_some()
            && cleared.entities[k].health.is_some() implies cleared.entities[k].health.unwrap().hp
        > 0 by {
        lemma_filter_map_from(scan.entities, f, k);
        let i = choose|i: int|
            0 <= i < scan.entities.len() && f(#[trigger] scan.entities[i]) == Some(
                cleared.entities[k],
            );
        assert(scan.entities[i] == cleared.entities[k]);
        assert(!scan.consumed.contains(scan.entities[i].id));
    }
    lemma_settled_keeps_alive(cleared, scan.hits, scan.hits.len() as int);
}

/// The collisions of the enemies' projectiles leave no enemy without hit
/// points.
pub proof fn lemma_enemy_hits_keep_alive(w: WorldView)
    requires
        enemies_alive(w.entities),
    ensures
        enemies_alive(w.after_enemy_hits().entities),
{
    match w.exposed_player() {
        Some(p) => {
            let a = w.volley(p, w.entities.len() as int);
            let f = survivor(a.consumed);
            assert forall|i: int|
                0 <= i < w.entities.len() && f(#[trigger] w.entities[i]).is_some() implies
                same_health(w.entities[i], f(w.entities[i]).unwrap()) by {}
            lemma_filter_map_keeps_alive(w.entities, f);
            if a.down {
                let kept = w.cleared(w.entities, a.consumed);
                lemma_push_keeps_alive(
                    kept.entities,
                    Entity {
                        id: w.res.next_id,
                        ..pending_explosion(w.entities[p].transform.unwrap().translation)
                    },
                );
            }
        },
        None => {},
    }
}

/// A salvo leaves no enemy without hit points.
proof fn lemma_salvo_keeps_alive(
    w: WorldView,
    gunners: Seq<Entity>,
    player: Option<(i32, i32)>,
    dt: u32,
    n: int,
)
    requires
        enemies_alive(w.entities),
    ensures
        enemies_alive(w.salvo(gunners, player, dt, n).entities),
    decreases n,
{
    if n > 0 {
        lemma_salvo_keeps_alive(w, gunners, player, dt, n - 1);
        if shoots(gunners[n - 1], dt) {
            let prev = w.salvo(gunners, player, dt, n - 1);
            lemma_push_keeps_alive(
                prev.entities,
                Entity { id: prev.res.next_id, ..enemy_laser(gunners[n - 1], player, w.res.clock) },
            );
        }
    }
}

/// The coming of enemies leaves no enemy without hit points: each comes in
/// at full health.
proof fn lemma_enemy_spawns_keep_alive(w: WorldView, draws: Seq<FormationDraw>, n: int)
    requires
        enemies_alive(w.entities),
    ensures
        enemies_alive(w.after_enemy_spawns(draws, n).entities),
    decreases n,
{
    if n > 0 {
        lemma_enemy_spawns_keep_alive(w, draws, n - 1);
        let prev = w.after_enemy_spawns(draws, n - 1);
        if prev.res.enemy_count.0 < prev.res.config.enemy_max {
            let formation = prev.res.formation_maker.handed(prev.res.win_size, draws[n - 1]);
            lemma_push_keeps_alive(
                prev.entities,
                Entity { id: prev.res.next_id, ..enemy_template(formation) },
            );
        }
    }
}

/// The making of explosions leaves no enemy without hit points.
proof fn lemma_exploded_keeps_alive(w: WorldView, records: Seq<Entity>, n: int)
    requires
        enemies_alive(w.entities),
    ensures
        enemies_alive(w.exploded(records, n).entities),
    decreases n,
{
    if n > 0 {
        lemma_exploded_keeps_alive(w, records, n - 1);
        match records[n - 1].explosion_to_spawn {
            Some(pending) => {
                let prev = w.exploded(records, n - 1);
                lemma_push_keeps_alive(
                    prev.entities,
                    Entity { id: prev.res.next_id, ..explosion_at(pending.0) },
                );
            },
            None => {},
        }
    }
}

/// The first half of a tick leaves no enemy without hit points.
pub proof fn lemma_begun_keeps_alive(w: WorldView, intent: Intent, dt: u32, draws: Seq<FormationDraw>)
    requires
        enemies_alive(w.entities),
    ensures
        enemies_alive(w.begun(intent, dt, draws).entities),
{
    let w0 = w.clock_advanced(dt);
    let w1 = w0.after_input(intent);
    let w2 = w1.after_player_fire(dt);
    let w3 = w2.after_enemy_fire(dt);
    let w4 = w3.after_player_spawn(dt);
    let w5 = w4.spawn_timer_cycled(dt);
    let w6 = w5.after_enemy_spawns(draws, draws.len() as int);
    // the input
    if w0.steerable_player().is_some() {
        assert forall|i: int| 0 <= i < w0.entities.len() implies same_health(
            #[trigger] w0.entities[i],
            w1.entities[i],
        ) by {}
        lemma_same_healths_keep_alive(w0.entities, w1.entities);
    }
    // the player's fire
    assert(enemies_alive(w2.entities)) by {
        if w2.entities.len() > w1.entities.len() {
            let shot = w2.entities[w1.entities.len() as int];
            assert(w2.entities == w1.entities.push(shot));
            lemma_push_keeps_alive(w1.entities, shot);
        }
    }
    // the enemies' fire
    let f = cooled_by(dt);
    assert forall|i: int| 0 <= i < w2.entities.len() implies same_health(
        #[trigger] w2.entities[i],
        w2.entities.map_values(f)[i],
    ) by {
        assert(f(w2.entities[i]) == cooled(w2.entities[i], dt));
    }
    lemma_same_healths_keep_alive(w2.entities, w2.entities.map_values(f));
    lemma_salvo_keeps_alive(
        w2.guns_cooled(dt),
        w2.entities,
        w2.player_position(),
        dt,
        w2.entities.len() as int,
    );
    // the coming of the player
    assert(enemies_alive(w4.entities)) by {
        if w4.entities.len() > w3.entities.len() {
            let ship = w4.entities[w3.entities.len() as int];
            assert(w4.entities == w3.entities.push(ship));
            lemma_push_keeps_alive(w3.entities, ship);
        }
    }
    // the coming of the enemies
    lemma_enemy_spawns_keep_alive(w5, draws, draws.len() as int);
    // free movement
    let g = moved_in(w6.res.win_size, dt);
    assert forall|i: int|
        0 <= i < w6.entities.len() && g(#[trigger] w6.entities[i]).is_some() implies same_health(
        w6.entities[i],
        g(w6.entities[i]).unwrap(),
    ) by {
        assert(g(w6.entities[i]) == moved(w6.entities[i], w6.res.win_size, dt));
    }
    lemma_filter_map_keeps_alive(w6.entities, g);
}

/// The second half of a tick leaves no enemy without hit points.
pub proof fn lemma_finished_keeps_alive(w: WorldView, headings: Seq<Heading>, dt: u32)
    requires
        enemies_alive(w.entities),
    ensures
        enemies_alive(w.finished(headings, dt).entities),
{
    if w.movement_error(headings).is_none() {
        let v1 = w.after_enemy_movement(headings, dt);
        let v2 = v1.after_player_hits();
        let v3 = v2.after_enemy_hits();
        let v4 = v3.after_animation(dt);
        lemma_marched_same_kinds(w, headings, dt, w.entities.len() as int);
        lemma_same_healths_keep_alive(w.entities, v1.entities);
        lemma_player_hits_keep_alive(v1);
        lemma_enemy_hits_keep_alive(v2);
        let f = animated_in(v3.res.config.explosion_frames, dt);
        assert forall|i: int|
            0 <= i < v3.entities.len() && f(#[trigger] v3.entities[i]).is_some() implies same_health(
            v3.entities[i],
            f(v3.entities[i]).unwrap(),
        ) by {
            assert(f(v3.entities[i]) == animated(v3.entities[i], v3.res.config.explosion_frames, dt));
        }
        lemma_filter_map_keeps_alive(v3.entities, f);
        lemma_filter_map_keeps_alive(v4.entities, unless_pending());
        lemma_exploded_keeps_alive(v4.without_records(), v4.entities, v4.entities.len() as int);
    }
}

/// Over a run of ticks no enemy is ever left without hit points.
pub proof fn lemma_run_keeps_alive(w: WorldView, inputs: Seq<TickInput>, n: int)
    requires
        enemies_alive(w.entities),
    ensures
        enemies_alive(w.run(inputs, n).entities),
    decreases n,
{
    if n > 0 {
        lemma_run_keeps_alive(w, inputs, n - 1);
        let prev = w.run(inputs, n - 1);
        let input = inputs[n - 1];
        lemma_begun_keeps_alive(prev, input.intent, input.dt, input.draws);
        lemma_finished_keeps_alive(
            prev.begun(input.intent, input.dt, input.draws),
            input.headings,
            input.dt,
        );
    }
}

} // verus!
