//! An explosion through the ticks: nothing but the animation touches it,
//! so it runs through its frames in step with the time of the ticks and is
//! gone when it has shown them all.

use vstd::prelude::*;
use crate::collision::{survivor, Hit, Scan};
use crate::components::EntityId;
use crate::enemy::formation::FormationDraw;
use crate::enemy::{all_fit, cooled, enemy_laser, is_rider, shoots, Heading};
use crate::explosion::{
    animated, animated_in, animation_run, explosion_at, is_animating, lemma_explosion_lifetime,
    unless_pending,
};
use crate::invariants::collisions::{
    lemma_enemy_hits_keep_well_formed, lemma_lasers_in_order, lemma_player_hits_frame,
    lemma_player_hits_keep_well_formed, lemma_volley_in_order,
};
use crate::invariants::ticks::{
    lemma_begun_frame, lemma_begun_keeps_well_formed, lemma_finished_frame, lemma_run_frame,
    lemma_run_keeps_well_formed, run_fits, run_time, TickInput,
};
use crate::invariants::{
    lemma_enemy_movement_keeps_well_formed, lemma_explosions_frame, lemma_filter_map_from,
    lemma_filter_map_holds, lemma_marched_same_kinds, same_kind,
};
use crate::movement::{moved, moved_in};
use crate::resources::Intent;
use crate::timer::elapsed_in;
use crate::world::{Entity, WorldView};

verus! {

/// An explosion that is running and is nothing else: no ship, no
/// projectile, no record, and without a velocity.
pub open spec fn is_bare_explosion(e: Entity) -> bool {
    &&& is_animating(e)
    &&& e.velocity.is_none()
    &&& e.player.is_none()
    &&& e.enemy.is_none()
    &&& e.laser.is_none()
    &&& e.explosion_to_spawn.is_none()
}

/// `e` is among the entities `s`.
pub open spec fn holds(s: Seq<Entity>, e: Entity) -> bool {
    exists|k: int| 0 <= k < s.len() && #[trigger] s[k] == e
}

/// An entity with the handle `h` is among the entities `s`.
pub open spec fn holds_handle(s: Seq<Entity>, h: EntityId) -> bool {
    exists|k: int| 0 <= k < s.len() && (#[trigger] s[k]).id == h
}

/// Every handle in `after` is one that was in `before` or one that had not
/// been handed out then, and the next handle has not gone down.
pub open spec fn handles_from(before: WorldView, after: WorldView) -> bool {
    &&& before.res.next_id <= after.res.next_id
    &&& forall|k: int|
        0 <= k < after.entities.len() ==> holds_handle(
            before.entities,
            (#[trigger] after.entities[k]).id,
        ) || after.entities[k].id >= before.res.next_id
}

/// Handles that come from handles that come from a world come from that
/// world.
pub proof fn lemma_handles_from_chain(a: WorldView, b: WorldView, c: WorldView)
    requires
        handles_from(a, b),
        handles_from(b, c),
    ensures
        handles_from(a, c),
{
    assert forall|k: int| 0 <= k < c.entities.len() implies holds_handle(
        a.entities,
        (#[trigger] c.entities[k]).id,
    ) || c.entities[k].id >= a.res.next_id by {
        let h = c.entities[k].id;
        if holds_handle(b.entities, h) {
            let j = choose|j: int| 0 <= j < b.entities.len() && (#[trigger] b.entities[j]).id == h;
            assert(holds_handle(a.entities, b.entities[j].id) || b.entities[j].id
                >= a.res.next_id);
        }
    }
}

/// A handle that is not in a world any more, though it was handed out, is
/// in no world whose handles come from that world.
pub proof fn lemma_handle_stays_gone(before: WorldView, after: WorldView, h: EntityId)
    requires
        handles_from(before, after),
        !holds_handle(before.entities, h),
        h < before.res.next_id,
    ensures
        !holds_handle(after.entities, h),
        h < after.res.next_id,
{
    if holds_handle(after.entities, h) {
        let k = choose|k: int| 0 <= k < after.entities.len() && (#[trigger] after.entities[k]).id == h;
        assert(holds_handle(before.entities, after.entities[k].id) || after.entities[k].id
            >= before.res.next_id);
    }
}

/// The handles of a world come from that world.
proof fn lemma_handles_from_self(w: WorldView, r: WorldView)
    requires
        r.entities.len() == w.entities.len(),
        forall|i: int| 0 <= i < w.entities.len() ==> (#[trigger] r.entities[i]).id == w.entities[i].id,
        w.res.next_id <= r.res.next_id,
    ensures
        handles_from(w, r),
{
    assert forall|k: int| 0 <= k < r.entities.len() implies holds_handle(
        w.entities,
        (#[trigger] r.entities[k]).id,
    ) by {
        assert(w.entities[k].id == r.entities[k].id);
    }
}

/// The handles left after entities were removed, and others changed
/// without a change of handle, come from the world before.
proof fn lemma_handles_from_filter_map(w: WorldView, f: spec_fn(Entity) -> Option<Entity>, r: WorldView)
    requires
        r.entities == w.entities.filter_map(f),
        forall|i: int|
            0 <= i < w.entities.len() && f(#[trigger] w.entities[i]).is_some()
                ==> f(w.entities[i]).unwrap().id == w.entities[i].id,
        w.res.next_id <= r.res.next_id,
    ensures
        handles_from(w, r),
{
    assert forall|k: int| 0 <= k < r.entities.len() implies holds_handle(
        w.entities,
        (#[trigger] r.entities[k]).id,
    ) by {
        lemma_filter_map_from(w.entities, f, k);
        let i = choose|i: int|
            0 <= i < w.entities.len() && f(#[trigger] w.entities[i]) == Some(r.entities[k]);
        assert(w.entities[i].id == r.entities[k].id);
    }
}

/// The handles after one more entity has come come from the world before.
proof fn lemma_handles_from_spawned(w: WorldView, template: Entity)
    ensures
        handles_from(w, w.spawned(template)),
{
    let r = w.spawned(template);
    assert forall|k: int| 0 <= k < r.entities.len() implies holds_handle(
        w.entities,
        (#[trigger] r.entities[k]).id,
    ) || r.entities[k].id >= w.res.next_id by {
        if k < w.entities.len() {
            assert(w.entities[k].id == r.entities[k].id);
        }
    }
}

/// What is among the entities and stays as it is when entities are removed
/// and changed is among those that are left.
proof fn lemma_kept_holds(s: Seq<Entity>, f: spec_fn(Entity) -> Option<Entity>, e: Entity, kept: Entity)
    requires
        holds(s, e),
        f(e) == Some(kept),
    ensures
        holds(s.filter_map(f), kept),
{
    let i = choose|i: int| 0 <= i < s.len() && #[trigger] s[i] == e;
    lemma_filter_map_holds(s, f, i);
    let k = choose|k: int|
        0 <= k < s.filter_map(f).len() && #[trigger] s.filter_map(f)[k] == f(s[i]).unwrap();
    assert(s.filter_map(f)[k] == kept);
}

/// An explosion stays as it is while those that are there act.
pub proof fn lemma_explosion_through_actions(w: WorldView, intent: Intent, dt: u32, e: Entity)
    requires
        is_bare_explosion(e),
        holds(w.entities, e),
    ensures
        holds(w.after_actions(intent, dt).entities, e),
{
    let k = choose|k: int| 0 <= k < w.entities.len() && #[trigger] w.entities[k] == e;
    let w1 = w.after_input(intent);
    assert(w1.entities[k] == e);
    let w2 = w1.after_player_fire(dt);
    assert(w2.entities[k] == e);
    let cooled_world = w2.guns_cooled(dt);
    assert(cooled_world.entities[k] == cooled(w2.entities[k], dt));
    lemma_salvo_holds(cooled_world, w2.entities, w2.player_position(), dt, w2.entities.len() as int, e);
}

/// What is among the entities is among them after a salvo.
proof fn lemma_salvo_holds(
    w: WorldView,
    gunners: Seq<Entity>,
    player: Option<(i32, i32)>,
    dt: u32,
    n: int,
    e: Entity,
)
    requires
        holds(w.entities, e),
    ensures
        holds(w.salvo(gunners, player, dt, n).entities, e),
    decreases n,
{
    if n > 0 {
        lemma_salvo_holds(w, gunners, player, dt, n - 1, e);
        let prev = w.salvo(gunners, player, dt, n - 1);
        let k = choose|k: int| 0 <= k < prev.entities.len() && #[trigger] prev.entities[k] == e;
        assert(w.salvo(gunners, player, dt, n).entities[k] == e);
    }
}

/// What is among the entities is among them after enemies have come in.
proof fn lemma_enemy_spawns_hold(w: WorldView, draws: Seq<FormationDraw>, n: int, e: Entity)
    requires
        holds(w.entities, e),
    ensures
        holds(w.after_enemy_spawns(draws, n).entities, e),
    decreases n,
{
    if n > 0 {
        lemma_enemy_spawns_hold(w, draws, n - 1, e);
        let prev = w.after_enemy_spawns(draws, n - 1);
        let k = choose|k: int| 0 <= k < prev.entities.len() && #[trigger] prev.entities[k] == e;
        assert(w.after_enemy_spawns(draws, n).entities[k] == e);
    }
}

/// What is among the entities is among them after kills were settled.
proof fn lemma_settled_holds(w: WorldView, hits: Seq<Hit>, n: int, e: Entity)
    requires
        holds(w.entities, e),
    ensures
        holds(w.settled(hits, n).entities, e),
    decreases n,
{
    if n > 0 {
        lemma_settled_holds(w, hits, n - 1, e);
        let prev = w.settled(hits, n - 1);
        let k = choose|k: int| 0 <= k < prev.entities.len() && #[trigger] prev.entities[k] == e;
        assert(w.settled(hits, n).entities[k] == e);
    }
}

/// What is among the entities is among them after explosions were made.
proof fn lemma_exploded_holds_entity(w: WorldView, records: Seq<Entity>, n: int, e: Entity)
    requires
        holds(w.entities, e),
    ensures
        holds(w.exploded(records, n).entities, e),
    decreases n,
{
    if n > 0 {
        lemma_exploded_holds_entity(w, records, n - 1, e);
        let prev = w.exploded(records, n - 1);
        let k = choose|k: int| 0 <= k < prev.entities.len() && #[trigger] prev.entities[k] == e;
        assert(w.exploded(records, n).entities[k] == e);
    }
}

/// The handles after a salvo come from the world before.
proof fn lemma_handles_from_salvo(
    w: WorldView,
    gunners: Seq<Entity>,
    player: Option<(i32, i32)>,
    dt: u32,
    n: int,
)
    ensures
        handles_from(w, w.salvo(gunners, player, dt, n)),
    decreases n,
{
    if n > 0 {
        let prev = w.salvo(gunners, player, dt, n - 1);
        lemma_handles_from_salvo(w, gunners, player, dt, n - 1);
        if shoots(gunners[n - 1], dt) {
            lemma_handles_from_spawned(prev, enemy_laser(gunners[n - 1], player, w.res.clock));
            lemma_handles_from_chain(w, prev, w.salvo(gunners, player, dt, n));
        }
    } else {
        lemma_handles_from_self(w, w);
    }
}

/// The handles after enemies have come in come from the world before.
proof fn lemma_handles_from_enemy_spawns(w: WorldView, draws: Seq<FormationDraw>, n: int)
    ensures
        handles_from(w, w.after_enemy_spawns(draws, n)),
    decreases n,
{
    if n > 0 {
        let prev = w.after_enemy_spawns(draws, n - 1);
        let now = prev.after_enemy_spawn(draws[n - 1]);
        lemma_handles_from_enemy_spawns(w, draws, n - 1);
        assert(handles_from(prev, now)) by {
            assert forall|k: int| 0 <= k < now.entities.len() implies holds_handle(
                prev.entities,
                (#[trigger] now.entities[k]).id,
            ) || now.entities[k].id >= prev.res.next_id by {
                if k < prev.entities.len() {
                    assert(prev.entities[k].id == now.entities[k].id);
                }
            }
        }
        lemma_handles_from_chain(w, prev, now);
    } else {
        lemma_handles_from_self(w, w);
    }
}

/// The handles after kills were settled come from the world before.
proof fn lemma_handles_from_settled(w: WorldView, hits: Seq<Hit>, n: int)
    ensures
        handles_from(w, w.settled(hits, n)),
    decreases n,
{
    if n > 0 {
        let prev = w.settled(hits, n - 1);
        let now = w.settled(hits, n);
        lemma_handles_from_settled(w, hits, n - 1);
        assert(handles_from(prev, now)) by {
            assert forall|k: int| 0 <= k < now.entities.len() implies holds_handle(
                prev.entities,
                (#[trigger] now.entities[k]).id,
            ) || now.entities[k].id >= prev.res.next_id by {
                if k < prev.entities.len() {
                    assert(prev.entities[k].id == now.entities[k].id);
                }
            }
        }
        lemma_handles_from_chain(w, prev, now);
    } else {
        lemma_handles_from_self(w, w);
    }
}

/// The handles after explosions were made come from the world before.
proof fn lemma_handles_from_exploded(w: WorldView, records: Seq<Entity>, n: int)
    ensures
        handles_from(w, w.exploded(records, n)),
    decreases n,
{
    if n > 0 {
        let prev = w.exploded(records, n - 1);
        lemma_handles_from_exploded(w, records, n - 1);
        match records[n - 1].explosion_to_spawn {
            Some(pending) => {
                lemma_handles_from_spawned(prev, explosion_at(pending.0));
                lemma_handles_from_chain(w, prev, w.exploded(records, n));
            },
            None => {},
        }
    } else {
        lemma_handles_from_self(w, w);
    }
}

/// A collision phase leaves every entity its handle.
proof fn lemma_targets_keep_handles(scan: Scan, l: int, n: int, k: int)
    requires
        0 <= k < scan.entities.len(),
        0 <= n <= scan.entities.len(),
    ensures
        scan.targets(l, n).entities.len() == scan.entities.len(),
        scan.targets(l, n).entities[k].id == scan.entities[k].id,
    decreases n,
{
    if n > 0 {
        lemma_targets_keep_handles(scan, l, n - 1, k);
    }
}

/// A whole collision phase leaves every entity its handle.
proof fn lemma_lasers_keep_handles(scan: Scan, m: int, k: int)
    requires
        0 <= k < scan.entities.len(),
        0 <= m <= scan.entities.len(),
    ensures
        scan.lasers(m).entities.len() == scan.entities.len(),
        scan.lasers(m).entities[k].id == scan.entities[k].id,
    decreases m,
{
    if m > 0 {
        lemma_lasers_keep_handles(scan, m - 1, k);
        lemma_targets_keep_handles(scan.lasers(m - 1), m - 1, scan.entities.len() as int, k);
    }
}

/// The handles after the first half of a tick come from the world before.
pub proof fn lemma_handles_from_begun(w: WorldView, intent: Intent, dt: u32, draws: Seq<FormationDraw>)
    ensures
        handles_from(w, w.begun(intent, dt, draws)),
{
    let w0 = w.clock_advanced(dt);
    let w1 = w0.after_input(intent);
    let w2 = w1.after_player_fire(dt);
    let w3 = w2.after_enemy_fire(dt);
    let w4 = w3.after_player_spawn(dt);
    let w5 = w4.spawn_timer_cycled(dt);
    let w6 = w5.after_enemy_spawns(draws, draws.len() as int);
    let w7 = w6.after_free_movement(dt);
    lemma_handles_from_self(w, w0);
    lemma_handles_from_self(w0, w1);
    lemma_handles_from_chain(w, w0, w1);
    assert(handles_from(w1, w2)) by {
        assert forall|k: int| 0 <= k < w2.entities.len() implies holds_handle(
            w1.entities,
            (#[trigger] w2.entities[k]).id,
        ) || w2.entities[k].id >= w1.res.next_id by {
            if k < w1.entities.len() {
                assert(w1.entities[k].id == w2.entities[k].id);
            }
        }
    }
    lemma_handles_from_chain(w, w1, w2);
    let cooled_world = w2.guns_cooled(dt);
    assert forall|i: int| 0 <= i < w2.entities.len() implies (#[trigger] cooled_world.entities[i]).id
        == w2.entities[i].id by {
        assert(cooled_world.entities[i] == cooled(w2.entities[i], dt));
    }
    lemma_handles_from_self(w2, cooled_world);
    lemma_handles_from_salvo(
        cooled_world,
        w2.entities,
        w2.player_position(),
        dt,
        w2.entities.len() as int,
    );
    lemma_handles_from_chain(w2, cooled_world, w3);
    lemma_handles_from_chain(w, w2, w3);
    assert(handles_from(w3, w4)) by {
        assert forall|k: int| 0 <= k < w4.entities.len() implies holds_handle(
            w3.entities,
            (#[trigger] w4.entities[k]).id,
        ) || w4.entities[k].id >= w3.res.next_id by {
            if k < w3.entities.len() {
                assert(w3.entities[k].id == w4.entities[k].id);
            }
        }
    }
    lemma_handles_from_chain(w, w3, w4);
    lemma_handles_from_self(w4, w5);
    lemma_handles_from_chain(w, w4, w5);
    lemma_handles_from_enemy_spawns(w5, draws, draws.len() as int);
    lemma_handles_from_chain(w, w5, w6);
    let f = moved_in(w6.res.win_size, dt);
    assert forall|i: int|
        0 <= i < w6.entities.len() && f(#[trigger] w6.entities[i]).is_some() implies
        f(w6.entities[i]).unwrap().id == w6.entities[i].id by {
        assert(f(w6.entities[i]) == moved(w6.entities[i], w6.res.win_size, dt));
    }
    lemma_handles_from_filter_map(w6, f, w7);
    lemma_handles_from_chain(w, w6, w7);
}

/// The handles after the second half of a tick come from the world
/// before.
pub proof fn lemma_handles_from_finished(w: WorldView, headings: Seq<Heading>, dt: u32)
    ensures
        handles_from(w, w.finished(headings, dt)),
{
    if w.movement_error(headings).is_none() {
        let v1 = w.after_enemy_movement(headings, dt);
        let v2 = v1.after_player_hits();
        let v3 = v2.after_enemy_hits();
        let v4 = v3.after_animation(dt);
        let v5 = v4.after_explosions_spawned();
        // movement
        lemma_marched_same_kinds(w, headings, dt, w.entities.len() as int);
        assert forall|i: int| 0 <= i < w.entities.len() implies (#[trigger] v1.entities[i]).id
            == w.entities[i].id by {
            assert(same_kind(w.entities[i], v1.entities[i]));
        }
        lemma_handles_from_self(w, v1);
        // the player's projectiles
        let scan = v1.player_hits();
        let scanned = WorldView { entities: scan.entities, ..v1 };
        assert forall|i: int| 0 <= i < v1.entities.len() implies (#[trigger] scanned.entities[i]).id
            == v1.entities[i].id by {
            lemma_lasers_keep_handles(Scan::start(v1.entities), v1.entities.len() as int, i);
        }
        if v1.entities.len() == 0 {
            assert(scan.entities.len() == 0);
        } else {
            lemma_lasers_keep_handles(Scan::start(v1.entities), v1.entities.len() as int, 0);
        }
        lemma_handles_from_self(v1, scanned);
        let cleared = v1.cleared(scan.entities, scan.consumed);
        lemma_handles_from_filter_map(scanned, survivor(scan.consumed), cleared);
        lemma_handles_from_settled(cleared, scan.hits, scan.hits.len() as int);
        lemma_handles_from_chain(v1, scanned, cleared);
        lemma_handles_from_chain(v1, cleared, v2);
        lemma_handles_from_chain(w, v1, v2);
        // the enemies' projectiles
        match v2.exposed_player() {
            Some(p) => {
                let a = v2.volley(p, v2.entities.len() as int);
                let kept = v2.cleared(v2.entities, a.consumed);
                lemma_handles_from_filter_map(v2, survivor(a.consumed), kept);
                assert(handles_from(kept, v3)) by {
                    assert forall|k: int| 0 <= k < v3.entities.len() implies holds_handle(
                        kept.entities,
                        (#[trigger] v3.entities[k]).id,
                    ) || v3.entities[k].id >= kept.res.next_id by {
                        if k < kept.entities.len() {
                            assert(kept.entities[k].id == v3.entities[k].id);
                        }
                    }
                }
                lemma_handles_from_chain(v2, kept, v3);
            },
            None => {
                lemma_handles_from_self(v2, v3);
            },
        }
        lemma_handles_from_chain(w, v2, v3);
        // the explosions
        let f = animated_in(v3.res.config.explosion_frames, dt);
        assert forall|i: int|
            0 <= i < v3.entities.len() && f(#[trigger] v3.entities[i]).is_some() implies
            f(v3.entities[i]).unwrap().id == v3.entities[i].id by {
            assert(f(v3.entities[i]) == animated(v3.entities[i], v3.res.config.explosion_frames, dt));
        }
        lemma_handles_from_filter_map(v3, f, v4);
        lemma_handles_from_chain(w, v3, v4);
        let bare = v4.without_records();
        lemma_handles_from_filter_map(v4, unless_pending(), bare);
        lemma_handles_from_exploded(bare, v4.entities, v4.entities.len() as int);
        lemma_handles_from_chain(v4, bare, v5);
        lemma_handles_from_chain(w, v4, v5);
    } else {
        lemma_handles_from_self(w, w);
    }
}

/// An explosion stays as it is through the first half of a tick.
pub proof fn lemma_explosion_through_begun(
    w: WorldView,
    intent: Intent,
    dt: u32,
    draws: Seq<FormationDraw>,
    e: Entity,
)
    requires
        is_bare_explosion(e),
        holds(w.entities, e),
    ensures
        holds(w.begun(intent, dt, draws).entities, e),
{
    let w0 = w.clock_advanced(dt);
    lemma_explosion_through_actions(w0, intent, dt, e);
    let w3 = w0.after_actions(intent, dt);
    let w4 = w3.after_player_spawn(dt);
    let k = choose|k: int| 0 <= k < w3.entities.len() && #[trigger] w3.entities[k] == e;
    assert(w4.entities[k] == e);
    let w5 = w4.spawn_timer_cycled(dt);
    assert(w5.entities[k] == e);
    lemma_enemy_spawns_hold(w5, draws, draws.len() as int, e);
    let w6 = w5.after_enemy_spawns(draws, draws.len() as int);
    let f = moved_in(w6.res.win_size, dt);
    assert(f(e) == moved(e, w6.res.win_size, dt));
    lemma_kept_holds(w6.entities, f, e, e);
}

/// The movement of the enemies leaves every entity that is no enemy on a
/// formation as it is.
proof fn lemma_marched_leaves(w: WorldView, headings: Seq<Heading>, dt: u32, n: int, k: int)
    requires
        0 <= k < n <= w.entities.len(),
        !is_rider(w.entities[k]),
    ensures
        w.marched_among(headings, dt, n).len() == n,
        w.marched_among(headings, dt, n)[k] == w.entities[k],
    decreases n,
{
    if k < n - 1 {
        lemma_marched_leaves(w, headings, dt, n - 1, k);
    } else {
        lemma_marched_len(w, headings, dt, n - 1);
    }
}

/// The movement of the enemies leaves the entities as many as they are.
proof fn lemma_marched_len(w: WorldView, headings: Seq<Heading>, dt: u32, n: int)
    requires
        0 <= n <= w.entities.len(),
    ensures
        w.marched_among(headings, dt, n).len() == n,
    decreases n,
{
    if n > 0 {
        lemma_marched_len(w, headings, dt, n - 1);
    }
}

/// A collision phase leaves every entity that is no enemy as it is.
proof fn lemma_targets_leave(scan: Scan, l: int, n: int, k: int)
    requires
        0 <= k < scan.entities.len(),
        0 <= n <= scan.entities.len(),
        scan.entities[k].enemy.is_none(),
    ensures
        scan.targets(l, n).entities.len() == scan.entities.len(),
        scan.targets(l, n).entities[k] == scan.entities[k],
    decreases n,
{
    if n > 0 {
        lemma_targets_leave(scan, l, n - 1, k);
    }
}

/// A whole collision phase leaves every entity that is no enemy as it is.
proof fn lemma_lasers_leave(scan: Scan, m: int, k: int)
    requires
        0 <= k < scan.entities.len(),
        0 <= m <= scan.entities.len(),
        scan.entities[k].enemy.is_none(),
    ensures
        scan.lasers(m).entities.len() == scan.entities.len(),
        scan.lasers(m).entities[k] == scan.entities[k],
    decreases m,
{
    if m > 0 {
        lemma_lasers_leave(scan, m - 1, k);
        lemma_targets_leave(scan.lasers(m - 1), m - 1, scan.entities.len() as int, k);
    }
}

/// An explosion stays as it is through the collisions of a well-formed
/// world.
pub proof fn lemma_explosion_through_hits(w: WorldView, e: Entity)
    requires
        w.is_well_formed(),
        w.after_player_hits().res.next_id < u64::MAX,
        is_bare_explosion(e),
        holds(w.entities, e),
    ensures
        holds(w.after_player_hits().after_enemy_hits().entities, e),
{
    let all = w.entities;
    let k = choose|k: int| 0 <= k < all.len() && #[trigger] all[k] == e;
    // the player's projectiles
    let scan = w.player_hits();
    lemma_lasers_leave(Scan::start(all), all.len() as int, k);
    lemma_lasers_in_order(all, w.res.next_id, all.len() as int);
    assert(scan.entities[k] == e);
    if scan.consumed.contains(e.id) {
        let i = choose|i: int|
            0 <= i < all.len() && (#[trigger] all[i]).id == e.id && (all[i].laser.is_some()
                || all[i].enemy.is_some());
        if i < k {
            assert(all[i].id < all[k].id);
        } else if k < i {
            assert(all[k].id < all[i].id);
        }
    }
    lemma_kept_holds(scan.entities, survivor(scan.consumed), e, e);
    let cleared = w.cleared(scan.entities, scan.consumed);
    lemma_settled_holds(cleared, scan.hits, scan.hits.len() as int, e);
    // the enemies' projectiles
    let v = w.after_player_hits();
    lemma_player_hits_keep_well_formed(w);
    match v.exposed_player() {
        Some(p) => {
            let j = choose|j: int| 0 <= j < v.entities.len() && #[trigger] v.entities[j] == e;
            let a = v.volley(p, v.entities.len() as int);
            assert(v.is_the_player(p));
            lemma_volley_in_order(v, p, v.entities.len() as int);
            if a.consumed.contains(e.id) {
                if a.down && e.id == v.entities[p].id {
                    if j < p {
                        assert(v.entities[j].id < v.entities[p].id);
                    } else if p < j {
                        assert(v.entities[p].id < v.entities[j].id);
                    }
                } else {
                    let i = choose|i: int|
                        0 <= i < v.entities.len() && (#[trigger] v.entities[i]).id == e.id
                            && v.entities[i].laser.is_some();
                    if i < j {
                        assert(v.entities[i].id < v.entities[j].id);
                    } else if j < i {
                        assert(v.entities[j].id < v.entities[i].id);
                    }
                }
            }
            lemma_kept_holds(v.entities, survivor(a.consumed), e, e);
            let kept = v.cleared(v.entities, a.consumed);
            let m = choose|m: int| 0 <= m < kept.entities.len() && #[trigger] kept.entities[m] == e;
            assert(v.after_enemy_hits().entities[m] == e);
        },
        None => {},
    }
}

/// An explosion over one whole tick of a well-formed world, as long as the
/// handles are not used up and the enemies can move: it is there after the
/// tick as the animation of the tick's time leaves it, and if the animation
/// ends it, nothing is left under its handle.
pub proof fn lemma_explosion_over_a_tick(w: WorldView, input: TickInput, e: Entity)
    requires
        w.is_well_formed(),
        all_fit(input.draws, w.res.win_size),
        w.ticked(input).res.next_id < u64::MAX,
        w.begun(input.intent, input.dt, input.draws).movement_error(input.headings).is_none(),
        is_bare_explosion(e),
        holds(w.entities, e),
    ensures
        match animated(e, w.res.config.explosion_frames, input.dt) {
            Some(next) => holds(w.ticked(input).entities, next) && is_bare_explosion(next)
                && next.id == e.id,
            None => !holds_handle(w.ticked(input).entities, e.id),
        },
        e.id < w.ticked(input).res.next_id,
{
    let dt = input.dt;
    let headings = input.headings;
    let b = w.begun(input.intent, dt, input.draws);
    let v1 = b.after_enemy_movement(headings, dt);
    let v2 = v1.after_player_hits();
    let v3 = v2.after_enemy_hits();
    let v4 = v3.after_animation(dt);
    let v5 = v4.after_explosions_spawned();
    lemma_begun_frame(w, input.intent, dt, input.draws);
    lemma_finished_frame(b, headings, dt);
    lemma_handles_from_finished(b, headings, dt);
    // the handles are not used up at any stage
    lemma_handles_from_finished_stages(b, headings, dt);
    lemma_begun_keeps_well_formed(w, input.intent, dt, input.draws);
    lemma_explosion_through_begun(w, input.intent, dt, input.draws, e);
    // the movement of the enemies
    let k = choose|k: int| 0 <= k < b.entities.len() && #[trigger] b.entities[k] == e;
    lemma_marched_leaves(b, headings, dt, b.entities.len() as int, k);
    assert(v1.entities[k] == e);
    lemma_enemy_movement_keeps_well_formed(b, headings, dt);
    // the collisions
    lemma_explosion_through_hits(v1, e);
    lemma_player_hits_keep_well_formed(v1);
    lemma_enemy_hits_keep_well_formed(v2);
    let j = choose|j: int| 0 <= j < v3.entities.len() && #[trigger] v3.entities[j] == e;
    assert(v3.entities[j].id < v3.res.next_id);
    // the animation
    let frames = w.res.config.explosion_frames;
    let f = animated_in(frames, dt);
    assert(f(e) == animated(e, frames, dt));
    let bare = v4.without_records();
    lemma_handles_from_filter_map(v4, unless_pending(), bare);
    lemma_handles_from_exploded(bare, v4.entities, v4.entities.len() as int);
    lemma_handles_from_chain(v4, bare, v5);
    match animated(e, frames, dt) {
        Some(next) => {
            lemma_kept_holds(v3.entities, f, e, next);
            lemma_kept_holds(v4.entities, unless_pending(), next, next);
            lemma_exploded_holds_entity(bare, v4.entities, v4.entities.len() as int, next);
        },
        None => {
            assert forall|m: int| 0 <= m < v4.entities.len() implies (#[trigger] v4.entities[m]).id
                != e.id by {
                lemma_filter_map_from(v3.entities, f, m);
                let i = choose|i: int|
                    0 <= i < v3.entities.len() && f(#[trigger] v3.entities[i]) == Some(
                        v4.entities[m],
                    );
                assert(f(v3.entities[i]) == animated(v3.entities[i], frames, dt));
                if i < j {
                    assert(v3.entities[i].id < v3.entities[j].id);
                } else if j < i {
                    assert(v3.entities[j].id < v3.entities[i].id);
                }
            }
            lemma_handle_stays_gone(v4, v5, e.id);
        },
    }
}

/// The next handle does not go down from stage to stage of the second
/// half of a tick, and the configuration stays as it is.
proof fn lemma_handles_from_finished_stages(w: WorldView, headings: Seq<Heading>, dt: u32)
    requires
        w.movement_error(headings).is_none(),
    ensures
        w.res.next_id <= w.after_enemy_movement(headings, dt).after_player_hits().res.next_id,
        w.after_enemy_movement(headings, dt).after_player_hits().res.next_id
            <= w.after_enemy_movement(headings, dt).after_player_hits().after_enemy_hits().res.next_id,
        w.after_enemy_movement(headings, dt).after_player_hits().after_enemy_hits().res.next_id
            <= w.finished(headings, dt).res.next_id,
        w.after_enemy_movement(headings, dt).after_player_hits().after_enemy_hits().res.config
            == w.res.config,
{
    let v1 = w.after_enemy_movement(headings, dt);
    let v2 = v1.after_player_hits();
    let v3 = v2.after_enemy_hits();
    let v4 = v3.after_animation(dt);
    lemma_player_hits_frame(v1);
    lemma_explosions_frame(v4);
}

/// The times of the ticks of a run.
pub open spec fn run_dts(inputs: Seq<TickInput>) -> Seq<u32> {
    inputs.map_values(|input: TickInput| input.dt)
}

/// In each of the first `n` ticks of a run the enemies can move: the
/// second half of the tick is carried out.
pub open spec fn run_moves(w: WorldView, inputs: Seq<TickInput>, n: int) -> bool {
    forall|i: int|
        0 <= i < n ==> (#[trigger] w.run(inputs, i)).begun(
            inputs[i].intent,
            inputs[i].dt,
            inputs[i].draws,
        ).movement_error(inputs[i].headings).is_none()
}

/// The time of a run is the sum of the times of its ticks.
proof fn lemma_run_time_is_elapsed(inputs: Seq<TickInput>, n: int)
    requires
        0 <= n <= inputs.len(),
    ensures
        run_time(inputs, n) == elapsed_in(run_dts(inputs), n),
    decreases n,
{
    if n > 0 {
        lemma_run_time_is_elapsed(inputs, n - 1);
    }
}

/// An explosion over a run of ticks of a well-formed world, as long as the
/// handles are not used up and every tick is carried out: after each tick
/// it is as a run of animation phases over the times of the ticks leaves it,
/// and once they have ended it, nothing is under its handle any more.
pub proof fn lemma_explosion_over_a_run(w: WorldView, inputs: Seq<TickInput>, n: int, e: Entity)
    requires
        w.is_well_formed(),
        0 <= n <= inputs.len(),
        run_fits(inputs, w.res.win_size, n),
        run_moves(w, inputs, n),
        w.run(inputs, n).res.next_id < u64::MAX,
        is_bare_explosion(e),
        holds(w.entities, e),
    ensures
        match animation_run(e, w.res.config.explosion_frames, run_dts(inputs), n) {
            Some(now) => holds(w.run(inputs, n).entities, now) && is_bare_explosion(now) && now.id
                == e.id,
            None => !holds_handle(w.run(inputs, n).entities, e.id),
        },
        e.id < w.run(inputs, n).res.next_id,
    decreases n,
{
    let frames = w.res.config.explosion_frames;
    if n > 0 {
        let prev = w.run(inputs, n - 1);
        let input = inputs[n - 1];
        let begun = prev.begun(input.intent, input.dt, input.draws);
        lemma_run_frame(w, inputs, n - 1);
        lemma_begun_frame(prev, input.intent, input.dt, input.draws);
        lemma_finished_frame(begun, input.headings, input.dt);
        lemma_run_keeps_well_formed(w, inputs, n - 1);
        lemma_explosion_over_a_run(w, inputs, n - 1, e);
        assert(all_fit(input.draws, w.res.win_size));
        assert(begun.movement_error(input.headings).is_none());
        assert(run_dts(inputs)[n - 1] == input.dt);
        match animation_run(e, frames, run_dts(inputs), n - 1) {
            Some(now) => {
                lemma_explosion_over_a_tick(prev, input, now);
            },
            None => {
                lemma_handles_from_begun(prev, input.intent, input.dt, input.draws);
                lemma_handles_from_finished(begun, input.headings, input.dt);
                lemma_handles_from_chain(prev, begun, prev.ticked(input));
                lemma_handle_stays_gone(prev, prev.ticked(input), e.id);
            },
        }
    } else {
        let k = choose|k: int| 0 <= k < w.entities.len() && #[trigger] w.entities[k] == e;
        assert(w.entities[k].id < w.res.next_id);
    }
}

/// An explosion at its first frame, with its timer wound up for one
/// period, is gone from a well-formed world once the ticks of a run have
/// covered as many periods as it has frames, and not before: until then it
/// shows one frame further for each period that the ticks have covered.
pub proof fn lemma_explosion_ends_in_time(
    w: WorldView,
    inputs: Seq<TickInput>,
    n: int,
    e: Entity,
)
    requires
        w.is_well_formed(),
        0 <= n <= inputs.len(),
        run_fits(inputs, w.res.win_size, n),
        run_moves(w, inputs, n),
        w.run(inputs, n).res.next_id < u64::MAX,
        is_bare_explosion(e),
        holds(w.entities, e),
        e.sprite_index.unwrap().0 == 0,
        e.explosion_timer.unwrap().0.period > 0,
        e.explosion_timer.unwrap().0.remaining == e.explosion_timer.unwrap().0.period,
    ensures
        run_time(inputs, n) >= w.res.config.explosion_frames * e.explosion_timer.unwrap().0.period
            ==> !holds_handle(w.run(inputs, n).entities, e.id),
        run_time(inputs, n) < w.res.config.explosion_frames * e.explosion_timer.unwrap().0.period
            ==> holds_handle(w.run(inputs, n).entities, e.id),
{
    let frames = w.res.config.explosion_frames;
    lemma_explosion_over_a_run(w, inputs, n, e);
    lemma_run_time_is_elapsed(inputs, n);
    lemma_explosion_lifetime(e, frames, run_dts(inputs), n);
    match animation_run(e, frames, run_dts(inputs), n) {
        Some(now) => {
            let k = choose|k: int|
                0 <= k < w.run(inputs, n).entities.len() && #[trigger] w.run(inputs, n).entities[k]
                    == now;
            assert(w.run(inputs, n).entities[k].id == e.id);
        },
        None => {},
    }
}

} // verus!
