//! Why the collision phases keep a world well formed: what is used up are
//! projectiles and ships destroyed, each once, and every ship destroyed is
//! counted off.

use vstd::prelude::*;
use crate::collision::{
    kills_among, lemma_settled_score, pending_explosion, survivor, Assault, Hit, Scan,
};
use crate::components::EntityId;
use crate::counting::{
    count_all, count_where, lemma_count_agree, lemma_count_bounds, lemma_count_filter_map,
    lemma_count_kept, lemma_count_none, lemma_count_one, lemma_count_push, marked_enemy,
    marked_player,
};
use crate::invariants::{
    enemies_alive, entities_in_order, handles_ascend, is_lasting, is_ship,
    lemma_filter_map_from, lemma_filter_map_in_order, lemma_filter_map_keeps_alive,
    lemma_same_kinds_keep_order, lemma_spawned_keeps_order, same_kind,
};
use crate::resources::PlayerState;
use crate::world::{next_handle, Entity, Resources, WorldView};

verus! {

/// An enemy whose handle is not used up.
pub open spec fn live_enemy(consumed: Set<EntityId>) -> spec_fn(Entity) -> bool {
    |e: Entity| e.enemy.is_some() && !consumed.contains(e.id)
}

/// Using up the handle of one entity takes that entity from the count of
/// live enemies, if it was among them, and no other.
proof fn lemma_live_without(s: Seq<Entity>, next: EntityId, c: Set<EntityId>, k: int, n: int)
    requires
        handles_ascend(s, next),
        0 <= k < s.len(),
        0 <= n <= s.len(),
    ensures
        count_where(s, live_enemy(c.insert(s[k].id)), n) == count_where(s, live_enemy(c), n) - if k
            < n && live_enemy(c)(s[k]) {
            1int
        } else {
            0int
        },
    decreases n,
{
    if n > 0 {
        lemma_live_without(s, next, c, k, n - 1);
        let i = n - 1;
        if i != k {
            if i < k {
                assert(s[i].id < s[k].id);
            } else {
                assert(s[k].id < s[i].id);
            }
            assert(live_enemy(c.insert(s[k].id))(s[i]) == live_enemy(c)(s[i]));
        }
    }
}

/// The count of kills depends on the hits counted over alone.
proof fn lemma_kills_same_prefix(a: Seq<Hit>, b: Seq<Hit>, n: int)
    requires
        0 <= n <= a.len(),
        n <= b.len(),
        forall|i: int| 0 <= i < n ==> a[i] == b[i],
    ensures
        kills_among(a, n) == kills_among(b, n),
    decreases n,
{
    if n > 0 {
        lemma_kills_same_prefix(a, b, n - 1);
    }
}

/// How a collision phase stands to the entities `all` that it began with:
/// every entity is in its place and of its kind, what is used up are
/// projectiles and enemies, the enemies not used up are those not killed,
/// and every enemy without hit points is used up.
pub open spec fn scan_in_order(all: Seq<Entity>, scan: Scan) -> bool {
    &&& scan.entities.len() == all.len()
    &&& forall|i: int| 0 <= i < all.len() ==> same_kind(#[trigger] all[i], scan.entities[i])
    &&& forall|x: EntityId| #[trigger]
        scan.consumed.contains(x) ==> exists|i: int|
            0 <= i < all.len() && (#[trigger] all[i]).id == x && (all[i].laser.is_some()
                || all[i].enemy.is_some())
    &&& count_all(all, live_enemy(scan.consumed)) == count_all(all, marked_enemy()) - kills_among(
        scan.hits,
        scan.hits.len() as int,
    )
    &&& forall|i: int|
        0 <= i < all.len() && (#[trigger] scan.entities[i]).enemy.is_some()
            && scan.entities[i].health.is_some() && scan.entities[i].health.unwrap().hp <= 0
            ==> scan.consumed.contains(scan.entities[i].id)
}

/// Looking at one more pair keeps a collision phase in order.
proof fn lemma_pair_in_order(all: Seq<Entity>, next: EntityId, scan: Scan, l: int, t: int)
    requires
        entities_in_order(all, next),
        scan_in_order(all, scan),
        0 <= l < all.len(),
        0 <= t < all.len(),
    ensures
        scan_in_order(all, scan.pair(l, t)),
{
    if scan.strikes(l, t) {
        let after = scan.pair(l, t);
        let laser = scan.entities[l];
        let target = scan.entities[t];
        assert(same_kind(all[l], laser));
        assert(same_kind(all[t], target));
        let health = target.health.unwrap().after(laser.damage.unwrap().effective());
        assert forall|i: int| 0 <= i < all.len() implies same_kind(
            #[trigger] all[i],
            after.entities[i],
        ) by {
            assert(same_kind(all[i], scan.entities[i]));
        }
        assert forall|x: EntityId| #[trigger] after.consumed.contains(x) implies exists|i: int|
            0 <= i < all.len() && (#[trigger] all[i]).id == x && (all[i].laser.is_some()
                || all[i].enemy.is_some()) by {
            if x == laser.id {
                assert(all[l].id == x && all[l].laser.is_some());
            } else if x == target.id && health.is_spent() {
                assert(all[t].id == x && all[t].enemy.is_some());
            } else {
                assert(scan.consumed.contains(x));
            }
        }
        // the laser is no enemy: a ship is no projectile
        assert(!all[l].enemy.is_some()) by {
            if all[l].enemy.is_some() {
                assert(is_ship(all[l]));
                assert(is_lasting(all[l]));
            }
        }
        let hit = after.hits[scan.hits.len() as int];
        lemma_kills_same_prefix(scan.hits, after.hits, scan.hits.len() as int);
        assert(kills_among(after.hits, after.hits.len() as int) == kills_among(
            scan.hits,
            scan.hits.len() as int,
        ) + if health.is_spent() {
            1int
        } else {
            0int
        });
        if health.is_spent() {
            let first = scan.consumed.insert(all[t].id);
            lemma_live_without(all, next, scan.consumed, t, all.len() as int);
            lemma_live_without(all, next, first, l, all.len() as int);
            assert(after.consumed == first.insert(all[l].id));
        } else {
            lemma_live_without(all, next, scan.consumed, l, all.len() as int);
            assert(after.consumed == scan.consumed.insert(all[l].id));
        }
        assert forall|i: int|
            0 <= i < all.len() && (#[trigger] after.entities[i]).enemy.is_some()
                && after.entities[i].health.is_some() && after.entities[i].health.unwrap().hp
                <= 0 implies after.consumed.contains(after.entities[i].id) by {
            if i != t {
                assert(after.entities[i] == scan.entities[i]);
                assert(scan.consumed.contains(scan.entities[i].id));
            }
        }
    }
}

/// Holding one projectile against the entities keeps a collision phase in
/// order.
proof fn lemma_targets_in_order(all: Seq<Entity>, next: EntityId, scan: Scan, l: int, n: int)
    requires
        entities_in_order(all, next),
        scan_in_order(all, scan),
        0 <= l < all.len(),
        0 <= n <= all.len(),
    ensures
        scan_in_order(all, scan.targets(l, n)),
    decreases n,
{
    if n > 0 {
        lemma_targets_in_order(all, next, scan, l, n - 1);
        lemma_pair_in_order(all, next, scan.targets(l, n - 1), l, n - 1);
    }
}

/// A whole collision phase is in order.
pub proof fn lemma_lasers_in_order(all: Seq<Entity>, next: EntityId, m: int)
    requires
        entities_in_order(all, next),
        enemies_alive(all),
        0 <= m <= all.len(),
    ensures
        scan_in_order(all, Scan::start(all).lasers(m)),
    decreases m,
{
    let start = Scan::start(all);
    if m > 0 {
        lemma_lasers_in_order(all, next, m - 1);
        lemma_targets_in_order(all, next, start.lasers(m - 1), m - 1, all.len() as int);
    } else {
        assert(start.lasers(0) == start);
        assert(kills_among(start.hits, 0) == 0);
        lemma_count_agree(
            all,
            live_enemy(start.consumed),
            all,
            marked_enemy(),
            all.len() as int,
        );
    }
}

/// `b` is `a` but for the count of enemies, the score and the next handle,
/// which has not gone down.
pub open spec fn same_but_kills(a: Resources, b: Resources) -> bool {
    &&& b == (Resources {
        enemy_count: b.enemy_count,
        player_state: PlayerState { score: b.player_state.score, ..a.player_state },
        next_id: b.next_id,
        ..a
    })
    &&& a.next_id <= b.next_id
}

/// Settling kills keeps the entities in order, as long as the handles are
/// not used up; it adds no ship and touches nothing of the shared state but
/// the count of enemies, the score and the next handle.
proof fn lemma_settled_keeps_order(w: WorldView, hits: Seq<Hit>, n: int)
    requires
        entities_in_order(w.entities, w.res.next_id),
        w.settled(hits, n).res.next_id < u64::MAX,
    ensures
        entities_in_order(w.settled(hits, n).entities, w.settled(hits, n).res.next_id),
        same_but_kills(w.res, w.settled(hits, n).res),
        w.settled(hits, n).players() == w.players(),
        w.settled(hits, n).enemies() == w.enemies(),
        enemies_alive(w.entities) ==> enemies_alive(w.settled(hits, n).entities),
    decreases n,
{
    if n > 0 {
        let prev = w.settled(hits, n - 1);
        assert(prev.res.next_id <= next_handle(prev.res.next_id));
        lemma_settled_keeps_order(w, hits, n - 1);
        if hits[n - 1].destroyed {
            let counted = WorldView {
                res: Resources {
                    next_id: prev.res.next_id,
                    ..prev.after_kill(hits[n - 1].at).res
                },
                ..prev
            };
            assert(prev.after_kill(hits[n - 1].at) == counted.spawned(
                pending_explosion(hits[n - 1].at),
            ));
            lemma_spawned_keeps_order(counted, pending_explosion(hits[n - 1].at));
        }
    }
}

/// Settling kills touches nothing of the shared state but the count of
/// enemies, the score and the next handle, which does not go down.
pub proof fn lemma_settled_frame(w: WorldView, hits: Seq<Hit>, n: int)
    ensures
        same_but_kills(w.res, w.settled(hits, n).res),
    decreases n,
{
    if n > 0 {
        lemma_settled_frame(w, hits, n - 1);
    }
}

/// The collisions of the player's projectiles leave a well-formed world
/// well formed, as long as the handles are not used up: the player stays,
/// and every enemy that goes is counted off.
pub proof fn lemma_player_hits_keep_well_formed(w: WorldView)
    requires
        w.is_well_formed(),
        w.after_player_hits().res.next_id < u64::MAX,
    ensures
        w.after_player_hits().is_well_formed(),
{
    let all = w.entities;
    let next = w.res.next_id;
    let scan = w.player_hits();
    let c = scan.consumed;
    let f = survivor(c);
    lemma_lasers_in_order(all, next, all.len() as int);
    lemma_same_kinds_keep_order(all, scan.entities, next);
    assert forall|i: int|
        0 <= i < scan.entities.len() && f(#[trigger] scan.entities[i]).is_some() implies
        same_kind(
        scan.entities[i],
        f(scan.entities[i]).unwrap(),
    ) by {}
    lemma_filter_map_in_order(scan.entities, f, next);
    // the player is not used up
    assert forall|i: int|
        0 <= i < scan.entities.len() && marked_player()(#[trigger] scan.entities[i]) implies f(
        scan.entities[i],
    ).is_some() && marked_player()(f(scan.entities[i]).unwrap()) by {
        assert(same_kind(all[i], scan.entities[i]));
        if c.contains(scan.entities[i].id) {
            let j = choose|j: int|
                0 <= j < all.len() && (#[trigger] all[j]).id == scan.entities[i].id && (
                all[j].laser.is_some() || all[j].enemy.is_some());
            if j < i {
                assert(all[j].id < all[i].id);
            } else if i < j {
                assert(all[i].id < all[j].id);
            }
            assert(is_ship(all[i]));
            assert(is_lasting(all[i]));
        }
    }
    lemma_count_filter_map(scan.entities, f, marked_player());
    // the enemies left are those not killed
    assert forall|i: int| 0 <= i < scan.entities.len() implies live_enemy(c)(
        #[trigger] scan.entities[i],
    ) == (f(scan.entities[i]).is_some() && marked_enemy()(f(scan.entities[i]).unwrap())) by {}
    lemma_count_kept(scan.entities, f, marked_enemy(), live_enemy(c));
    assert forall|i: int| 0 <= i < all.len() implies live_enemy(c)(scan.entities[i]) == live_enemy(
        c,
    )(all[i]) by {
        assert(same_kind(all[i], scan.entities[i]));
    }
    lemma_count_agree(scan.entities, live_enemy(c), all, live_enemy(c), all.len() as int);
    lemma_count_bounds(all, live_enemy(c), all.len() as int);
    let cleared = w.cleared(scan.entities, c);
    // the enemies left have hit points
    assert forall|k: int|
        0 <= k < cleared.entities.len() && (#[trigger] cleared.entities[k]).enemy.is_some()
            && cleared.entities[k].health.is_some() implies cleared.entities[k].health.unwrap().hp
        > 0 by {
        lemma_filter_map_from(scan.entities, f, k);
        let i = choose|i: int|
            0 <= i < scan.entities.len() && f(#[trigger] scan.entities[i]) == Some(
                cleared.entities[k],
            );
        assert(scan.entities[i] == cleared.entities[k]);
        assert(!c.contains(scan.entities[i].id));
    }
    lemma_settled_keeps_order(cleared, scan.hits, scan.hits.len() as int);
    lemma_settled_score(cleared, scan.hits, scan.hits.len() as int);
}

/// The collisions of the player's projectiles touch nothing of the shared
/// state but the count of enemies, the score and the next handle, which
/// does not go down.
pub proof fn lemma_player_hits_frame(w: WorldView)
    ensures
        same_but_kills(w.res, w.after_player_hits().res),
{
    let scan = w.player_hits();
    lemma_settled_frame(w.cleared(scan.entities, scan.consumed), scan.hits, scan.hits.len() as int);
}

/// The player, if its handle is not used up.
pub open spec fn live_player(consumed: Set<EntityId>) -> spec_fn(Entity) -> bool {
    |e: Entity| e.player.is_some() && !consumed.contains(e.id)
}

/// How the fire at the player at place `p` stands to the world: what is
/// used up are projectiles, and the player exactly if it is down; a player
/// that had hit points and is not down has some left, and one that is down
/// has none.
pub open spec fn assault_in_order(w: WorldView, p: int, a: Assault) -> bool {
    &&& forall|x: EntityId| #[trigger]
        a.consumed.contains(x) ==> (a.down && x == w.entities[p].id) || exists|i: int|
            0 <= i < w.entities.len() && (#[trigger] w.entities[i]).id == x
                && w.entities[i].laser.is_some()
    &&& a.down <==> a.consumed.contains(w.entities[p].id)
    &&& w.res.player_state.health.hp > 0 && !a.down ==> a.health.hp > 0
    &&& a.down ==> a.health.hp <= 0
}

/// The fire at the player is in order at every stage.
pub proof fn lemma_volley_in_order(w: WorldView, p: int, n: int)
    requires
        entities_in_order(w.entities, w.res.next_id),
        0 <= p < w.entities.len(),
        w.entities[p].player.is_some(),
        0 <= n <= w.entities.len(),
    ensures
        assault_in_order(w, p, w.volley(p, n)),
    decreases n,
{
    if n > 0 {
        lemma_volley_in_order(w, p, n - 1);
        let a = w.volley(p, n - 1);
        let after = w.volley(p, n);
        if !a.down && w.strikes_player(n - 1, p) {
            let laser = w.entities[n - 1];
            assert(is_ship(w.entities[p]));
            assert(is_lasting(w.entities[p]));
            assert(n - 1 != p);
            if n - 1 < p {
                assert(w.entities[n - 1].id < w.entities[p].id);
            } else {
                assert(w.entities[p].id < w.entities[n - 1].id);
            }
            assert forall|x: EntityId| #[trigger] after.consumed.contains(x) implies (after.down
                && x == w.entities[p].id) || exists|i: int|
                0 <= i < w.entities.len() && (#[trigger] w.entities[i]).id == x
                    && w.entities[i].laser.is_some() by {
                if x == laser.id {
                    assert(w.entities[n - 1].id == x && w.entities[n - 1].laser.is_some());
                } else if x == w.entities[p].id {
                } else {
                    assert(a.consumed.contains(x));
                }
            }
        }
    }
}

/// What the fire at the player at place `p` of a well-formed world leaves
/// of the entities: they are in order, no enemy has gone and none is without
/// hit points, and the player has gone exactly if it is down.
pub proof fn lemma_fire_at_player(w: WorldView, p: int)
    requires
        w.is_well_formed(),
        w.exposed_player() == Some(p),
    ensures
        w.players() == 1,
        w.res.player_state.on,
        entities_in_order(
            w.cleared(w.entities, w.volley(p, w.entities.len() as int).consumed).entities,
            w.res.next_id,
        ),
        enemies_alive(w.cleared(w.entities, w.volley(p, w.entities.len() as int).consumed).entities),
        w.cleared(w.entities, w.volley(p, w.entities.len() as int).consumed).enemies() == w.enemies(),
        w.cleared(w.entities, w.volley(p, w.entities.len() as int).consumed).players() == if w.volley(
            p,
            w.entities.len() as int,
        ).down {
            0int
        } else {
            1int
        },
        w.volley(p, w.entities.len() as int).down ==> w.volley(p, w.entities.len() as int).health.hp
            <= 0,
        !w.volley(p, w.entities.len() as int).down ==> w.volley(
            p,
            w.entities.len() as int,
        ).health.hp > 0,
{
    let all = w.entities;
    let next = w.res.next_id;
    assert(w.is_the_player(p));
    lemma_count_one(all, marked_player(), all.len() as int, p);
    let a = w.volley(p, all.len() as int);
    let c = a.consumed;
    let f = survivor(c);
    lemma_volley_in_order(w, p, all.len() as int);
    assert(is_ship(all[p]));
    assert(is_lasting(all[p]));
    assert forall|i: int| 0 <= i < all.len() && f(#[trigger] all[i]).is_some() implies same_kind(
        all[i],
        f(all[i]).unwrap(),
    ) && f(all[i]).unwrap() == all[i] by {}
    lemma_filter_map_in_order(all, f, next);
    lemma_filter_map_keeps_alive(all, f);
    lemma_count_bounds(all, marked_player(), all.len() as int);
    // no enemy is used up
    assert forall|i: int| 0 <= i < all.len() && marked_enemy()(#[trigger] all[i]) implies f(
        all[i],
    ).is_some() && marked_enemy()(f(all[i]).unwrap()) by {
        assert(is_ship(all[i]));
        assert(is_lasting(all[i]));
        if c.contains(all[i].id) {
            if a.down && all[i].id == all[p].id {
                if i < p {
                    assert(all[i].id < all[p].id);
                } else if p < i {
                    assert(all[p].id < all[i].id);
                }
            } else {
                let j = choose|j: int|
                    0 <= j < all.len() && (#[trigger] all[j]).id == all[i].id
                        && all[j].laser.is_some();
                if j < i {
                    assert(all[j].id < all[i].id);
                } else if i < j {
                    assert(all[i].id < all[j].id);
                }
            }
        }
    }
    lemma_count_filter_map(all, f, marked_enemy());
    // the player is left exactly if it is not down
    assert forall|i: int| 0 <= i < all.len() implies live_player(c)(#[trigger] all[i]) == (f(
        all[i],
    ).is_some() && marked_player()(f(all[i]).unwrap())) by {}
    lemma_count_kept(all, f, marked_player(), live_player(c));
    if a.down {
        assert forall|i: int| 0 <= i < all.len() implies !live_player(c)(#[trigger] all[i]) by {
            if i != p {
                assert(all[i].player.is_none());
            }
        }
        lemma_count_none(all, live_player(c), all.len() as int);
    } else {
        assert forall|i: int| 0 <= i < all.len() implies live_player(c)(all[i]) == marked_player()(
            all[i],
        ) by {
            if i != p {
                assert(all[i].player.is_none());
            }
        }
        lemma_count_agree(all, live_player(c), all, marked_player(), all.len() as int);
    }
}

/// The collisions of the enemies' projectiles leave a well-formed world
/// well formed, as long as the handles are not used up: no enemy goes, and
/// the player goes exactly if it is recorded as shot.
pub proof fn lemma_enemy_hits_keep_well_formed(w: WorldView)
    requires
        w.is_well_formed(),
        w.after_enemy_hits().res.next_id < u64::MAX,
    ensures
        w.after_enemy_hits().is_well_formed(),
{
    match w.exposed_player() {
        Some(p) => {
            let all = w.entities;
            let a = w.volley(p, all.len() as int);
            lemma_fire_at_player(w, p);
            let after = w.after_enemy_hits();
            if a.down {
                let cleared = WorldView {
                    res: Resources { next_id: w.res.next_id, ..after.res },
                    ..w.cleared(all, a.consumed)
                };
                let record = pending_explosion(all[p].transform.unwrap().translation);
                assert(after == cleared.spawned(record));
                lemma_spawned_keeps_order(cleared, record);
            }
        },
        None => {},
    }
}

/// A hit that leaves the player of a well-formed world without hit points
/// takes the player out: after the collisions no entity is marked as the
/// player, the player is recorded as off and as shot at the time of the
/// clock, the wait for the next player has begun, and the last entity is
/// the record of an explosion at the place where the player was. No enemy
/// has gone.
pub proof fn lemma_player_goes_down(w: WorldView, p: int)
    requires
        w.is_well_formed(),
        w.exposed_player() == Some(p),
        w.volley(p, w.entities.len() as int).down,
    ensures
        w.after_enemy_hits().players() == 0,
        w.after_enemy_hits().enemies() == w.enemies(),
        !w.after_enemy_hits().res.player_state.on,
        w.after_enemy_hits().res.player_state.health.hp <= 0,
        w.after_enemy_hits().res.player_state.last_shot == Some(w.res.clock),
        w.after_enemy_hits().res.player_state.spawn_cooldown.remaining
            == w.res.config.respawn_delay,
        w.after_enemy_hits().entities.len() > 0,
        w.after_enemy_hits().entities.last() == (Entity {
            id: w.res.next_id,
            ..pending_explosion(w.entities[p].transform.unwrap().translation)
        }),
{
    let all = w.entities;
    let a = w.volley(p, all.len() as int);
    lemma_fire_at_player(w, p);
    let kept = w.cleared(all, a.consumed);
    let record = Entity {
        id: w.res.next_id,
        ..pending_explosion(all[p].transform.unwrap().translation)
    };
    assert(w.after_enemy_hits().entities == kept.entities.push(record));
    lemma_count_push(kept.entities, marked_player(), record);
    lemma_count_push(kept.entities, marked_enemy(), record);
}

/// A player of a well-formed world that the enemies' fire leaves with hit
/// points stays: after the collisions it is the one entity marked as the
/// player, it is recorded as on, and its health is what the hits have left,
/// which is more than nothing. No enemy has gone, and no explosion is
/// recorded.
pub proof fn lemma_player_stays_up(w: WorldView, p: int)
    requires
        w.is_well_formed(),
        w.exposed_player() == Some(p),
        !w.volley(p, w.entities.len() as int).down,
    ensures
        w.after_enemy_hits().players() == 1,
        w.after_enemy_hits().enemies() == w.enemies(),
        w.after_enemy_hits().res.player_state.on,
        w.after_enemy_hits().res.player_state.health == w.volley(
            p,
            w.entities.len() as int,
        ).health,
        w.after_enemy_hits().res.player_state.health.hp > 0,
        w.after_enemy_hits().entities == w.cleared(
            w.entities,
            w.volley(p, w.entities.len() as int).consumed,
        ).entities,
{
    lemma_fire_at_player(w, p);
}

/// What the enemies' fire makes of the player of a well-formed world is
/// decided by the health that the hits leave: the player stays exactly if
/// that is more than nothing. Either way the health recorded after the
/// collisions is the health that the hits have left.
pub proof fn lemma_fire_decides_player(w: WorldView, p: int)
    requires
        w.is_well_formed(),
        w.exposed_player() == Some(p),
    ensures
        w.volley(p, w.entities.len() as int).down <==> w.volley(
            p,
            w.entities.len() as int,
        ).health.hp <= 0,
        w.after_enemy_hits().res.player_state.health == w.volley(
            p,
            w.entities.len() as int,
        ).health,
        w.after_enemy_hits().res.player_state.on <==> w.volley(
            p,
            w.entities.len() as int,
        ).health.hp > 0,
        w.after_enemy_hits().players() == if w.volley(p, w.entities.len() as int).health.hp > 0 {
            1int
        } else {
            0int
        },
{
    lemma_fire_at_player(w, p);
    if w.volley(p, w.entities.len() as int).down {
        lemma_player_goes_down(w, p);
    } else {
        lemma_player_stays_up(w, p);
    }
}

} // verus!
