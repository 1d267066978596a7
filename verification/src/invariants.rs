//! What holds of a simulation at all times, and why every system keeps it.
//!
//! A world is well formed if its handles are under control, its ships last,
//! its formations can be followed and its counts are right. Every system
//! takes a well-formed world to a well-formed world, as long as the handles
//! are not used up.

use vstd::prelude::*;
use crate::components::EntityId;
use crate::counting::{
    count_all, lemma_count_bounds, lemma_count_filter_map, lemma_count_map, lemma_count_push,
    lemma_count_same_prefix, marked_enemy, marked_player,
};
use crate::enemy::formation::FormationDraw;
use crate::enemy::{all_fit, cooled, cooled_by, enemy_laser, enemy_template, shoots, Heading};
use crate::explosion::{animated, animated_in, explosion_at, unless_pending};
use crate::movement::{moved, moved_in};
use crate::player::{player_laser, player_template};
use crate::resources::{Config, EnemyCount, Intent, WinSize};
use crate::world::{config_error, next_handle, Entity, Resources, WorldView};

pub mod collisions;
pub mod explosions;
pub mod health;
pub mod ticks;

verus! {

/// The handles go up along the entities, and all are below `next`: no two
/// entities share a handle, and the next handle is new.
pub open spec fn handles_ascend(s: Seq<Entity>, next: EntityId) -> bool {
    &&& forall|i: int, j: int| 0 <= i < j < s.len() ==> (#[trigger] s[i]).id < (#[trigger] s[j]).id
    &&& forall|i: int| 0 <= i < s.len() ==> (#[trigger] s[i]).id < next
}

/// A ship: the player or an enemy.
pub open spec fn is_ship(e: Entity) -> bool {
    e.player.is_some() || e.enemy.is_some()
}

/// The entity is none of the things that come and go by themselves: no
/// projectile, no explosion, nothing that is removed out of bounds. It is
/// not the player and an enemy at once.
pub open spec fn is_lasting(e: Entity) -> bool {
    &&& e.laser.is_none()
    &&& e.explosion.is_none()
    &&& e.explosion_to_spawn.is_none()
    &&& (e.movable.is_some() ==> !e.movable.unwrap().auto_despawn)
    &&& !(e.player.is_some() && e.enemy.is_some())
}

/// Every ship lasts until it is destroyed.
pub open spec fn ships_last(s: Seq<Entity>) -> bool {
    forall|i: int| 0 <= i < s.len() && is_ship(#[trigger] s[i]) ==> is_lasting(s[i])
}

/// Every formation that an entity is on can be followed.
pub open spec fn formations_valid(s: Seq<Entity>) -> bool {
    forall|i: int|
        0 <= i < s.len() && (#[trigger] s[i]).formation.is_some()
            ==> s[i].formation.unwrap().is_valid()
}

/// No enemy is left without hit points: an enemy whose health is used up
/// is removed at once.
pub open spec fn enemies_alive(s: Seq<Entity>) -> bool {
    forall|i: int|
        0 <= i < s.len() && (#[trigger] s[i]).enemy.is_some() && s[i].health.is_some()
            ==> s[i].health.unwrap().hp > 0
}

/// The entity could be left in a world where no enemy is without hit
/// points.
pub open spec fn is_alive(e: Entity) -> bool {
    e.enemy.is_some() && e.health.is_some() ==> e.health.unwrap().hp > 0
}

/// `b` has the health of `a`, and is an enemy exactly if `a` is.
pub open spec fn same_health(a: Entity, b: Entity) -> bool {
    b.health == a.health && b.enemy == a.enemy
}

/// `b` is `a` at a later time: the same handle, the same kind, on a
/// formation of the same shape and speed if on any.
pub open spec fn same_kind(a: Entity, b: Entity) -> bool {
    &&& b.id == a.id
    &&& b.player == a.player
    &&& b.enemy == a.enemy
    &&& b.laser == a.laser
    &&& b.explosion == a.explosion
    &&& b.explosion_to_spawn == a.explosion_to_spawn
    &&& b.movable == a.movable
    &&& (b.formation.is_some() ==> a.formation.is_some() && b.formation.unwrap().radius
        == a.formation.unwrap().radius && b.formation.unwrap().speed == a.formation.unwrap().speed)
}

/// The entities are in order: handles, ships and formations.
pub open spec fn entities_in_order(s: Seq<Entity>, next: EntityId) -> bool {
    handles_ascend(s, next) && ships_last(s) && formations_valid(s)
}

impl WorldView {
    /// The world is well formed.
    pub open spec fn is_well_formed(self) -> bool {
        &&& self.res.win_size.is_valid()
        &&& self.res.config.is_valid()
        &&& entities_in_order(self.entities, self.res.next_id)
        &&& self.res.formation_maker.holds_made()
        &&& self.res.formation_maker.squad_cap == self.res.config.squad_cap
        &&& self.res.formation_maker.current_members <= self.res.formation_maker.squad_cap
        &&& self.res.enemy_count.0 == self.enemies()
        &&& self.enemies() <= self.res.config.enemy_max
        &&& self.players() <= 1
        &&& (self.res.player_state.on <==> self.players() == 1)
        &&& self.res.player_state.spawn_cooldown.period == self.res.config.respawn_delay
        &&& enemies_alive(self.entities)
        &&& (self.res.player_state.on ==> self.res.player_state.health.hp > 0)
    }
}

/// A change in place that leaves each entity its health leaves no enemy
/// without hit points.
pub proof fn lemma_same_healths_keep_alive(s: Seq<Entity>, t: Seq<Entity>)
    requires
        enemies_alive(s),
        t.len() == s.len(),
        forall|i: int| 0 <= i < s.len() ==> same_health(#[trigger] s[i], t[i]),
    ensures
        enemies_alive(t),
{
    assert forall|i: int|
        0 <= i < t.len() && (#[trigger] t[i]).enemy.is_some() && t[i].health.is_some() implies t[i].health.unwrap().hp
        > 0 by {
        assert(same_health(s[i], t[i]));
    }
}

/// Removing entities, and changing others without a change of health,
/// leaves no enemy without hit points.
pub proof fn lemma_filter_map_keeps_alive(s: Seq<Entity>, f: spec_fn(Entity) -> Option<Entity>)
    requires
        enemies_alive(s),
        forall|i: int|
            0 <= i < s.len() && f(#[trigger] s[i]).is_some()
                ==> same_health(s[i], f(s[i]).unwrap()),
    ensures
        enemies_alive(s.filter_map(f)),
{
    let t = s.filter_map(f);
    assert forall|k: int|
        0 <= k < t.len() && (#[trigger] t[k]).enemy.is_some() && t[k].health.is_some() implies t[k].health.unwrap().hp
        > 0 by {
        lemma_filter_map_from(s, f, k);
        let i = choose|i: int| 0 <= i < s.len() && f(#[trigger] s[i]) == Some(t[k]);
        assert(same_health(s[i], t[k]));
    }
}

/// What a change keeps that leaves each entity its kind: the order of the
/// entities and the counts of players and enemies.
pub proof fn lemma_map_keeps_order(s: Seq<Entity>, f: spec_fn(Entity) -> Entity, next: EntityId)
    requires
        entities_in_order(s, next),
        forall|i: int| 0 <= i < s.len() ==> same_kind(#[trigger] s[i], f(s[i])),
    ensures
        entities_in_order(s.map_values(f), next),
        count_all(s.map_values(f), marked_player()) == count_all(s, marked_player()),
        count_all(s.map_values(f), marked_enemy()) == count_all(s, marked_enemy()),
{
    let t = s.map_values(f);
    assert forall|i: int| 0 <= i < t.len() implies same_kind(s[i], #[trigger] t[i]) by {}
    lemma_count_map(s, f, marked_player());
    lemma_count_map(s, f, marked_enemy());
}

/// Every entity that is left after entities were removed and changed comes
/// from one of the entities before, and what is left is in their order.
pub proof fn lemma_filter_map_from(s: Seq<Entity>, f: spec_fn(Entity) -> Option<Entity>, k: int)
    requires
        0 <= k < s.filter_map(f).len(),
    ensures
        exists|i: int| 0 <= i < s.len() && f(#[trigger] s[i]) == Some(s.filter_map(f)[k]),
    decreases s.len(),
{
    if s.len() > 0 {
        let rest = s.drop_last();
        if k < rest.filter_map(f).len() {
            lemma_filter_map_from(rest, f, k);
            let i = choose|i: int| 0 <= i < rest.len() && f(#[trigger] rest[i]) == Some(rest.filter_map(f)[k]);
            assert(rest[i] == s[i]);
        } else {
            assert(f(s[s.len() - 1]) == Some(s.filter_map(f)[k]));
        }
    }
}

/// Every entity that stays when entities are removed and changed is among
/// those that are left.
pub proof fn lemma_filter_map_holds(s: Seq<Entity>, f: spec_fn(Entity) -> Option<Entity>, i: int)
    requires
        0 <= i < s.len(),
        f(s[i]).is_some(),
    ensures
        exists|k: int|
            0 <= k < s.filter_map(f).len() && #[trigger] s.filter_map(f)[k] == f(s[i]).unwrap(),
    decreases s.len(),
{
    let rest = s.drop_last();
    let t = s.filter_map(f);
    if i < s.len() - 1 {
        assert(rest[i] == s[i]);
        lemma_filter_map_holds(rest, f, i);
        let k = choose|k: int|
            0 <= k < rest.filter_map(f).len() && #[trigger] rest.filter_map(f)[k] == f(s[i]).unwrap();
        assert(t[k] == f(s[i]).unwrap());
    } else {
        assert(s.last() == s[i]);
        assert(t[t.len() - 1] == f(s[i]).unwrap());
    }
}

/// Removing entities, and changing others without a change of kind, keeps
/// the entities in order.
pub proof fn lemma_filter_map_in_order(
    s: Seq<Entity>,
    f: spec_fn(Entity) -> Option<Entity>,
    next: EntityId,
)
    requires
        entities_in_order(s, next),
        forall|i: int|
            0 <= i < s.len() && f(#[trigger] s[i]).is_some() ==> same_kind(s[i], f(s[i]).unwrap()),
    ensures
        entities_in_order(s.filter_map(f), next),
{
    lemma_filter_map_keeps_handles(s, f, next);
    let t = s.filter_map(f);
    assert forall|k: int| 0 <= k < t.len() && is_ship(#[trigger] t[k]) implies is_lasting(t[k]) by {
        lemma_filter_map_from(s, f, k);
        let i = choose|i: int| 0 <= i < s.len() && f(#[trigger] s[i]) == Some(t[k]);
        assert(same_kind(s[i], t[k]));
    }
    assert forall|k: int|
        0 <= k < t.len() && (#[trigger] t[k]).formation.is_some() implies
        t[k].formation.unwrap().is_valid() by {
        lemma_filter_map_from(s, f, k);
        let i = choose|i: int| 0 <= i < s.len() && f(#[trigger] s[i]) == Some(t[k]);
        assert(same_kind(s[i], t[k]));
    }
}

/// What a removal and change keeps that leaves each entity its kind and
/// removes no ship: the order of the entities and the counts of players and
/// enemies.
pub proof fn lemma_filter_map_keeps_order(
    s: Seq<Entity>,
    f: spec_fn(Entity) -> Option<Entity>,
    next: EntityId,
)
    requires
        entities_in_order(s, next),
        forall|i: int|
            0 <= i < s.len() && f(#[trigger] s[i]).is_some() ==> same_kind(s[i], f(s[i]).unwrap()),
        forall|i: int| 0 <= i < s.len() && is_ship(#[trigger] s[i]) ==> f(s[i]).is_some(),
    ensures
        entities_in_order(s.filter_map(f), next),
        count_all(s.filter_map(f), marked_player()) == count_all(s, marked_player()),
        count_all(s.filter_map(f), marked_enemy()) == count_all(s, marked_enemy()),
{
    lemma_filter_map_in_order(s, f, next);
    lemma_count_filter_map(s, f, marked_player());
    lemma_count_filter_map(s, f, marked_enemy());
}

/// Removing entities and changing them without a change of handles keeps
/// the handles in order.
pub proof fn lemma_filter_map_keeps_handles(
    s: Seq<Entity>,
    f: spec_fn(Entity) -> Option<Entity>,
    next: EntityId,
)
    requires
        handles_ascend(s, next),
        forall|i: int|
            0 <= i < s.len() && f(#[trigger] s[i]).is_some()
                ==> f(s[i]).unwrap().id == s[i].id,
    ensures
        handles_ascend(s.filter_map(f), next),
    decreases s.len(),
{
    if s.len() > 0 {
        let rest = s.drop_last();
        let last = s[s.len() - 1];
        assert forall|i: int| 0 <= i < rest.len() implies (#[trigger] rest[i]) == s[i] by {}
        lemma_filter_map_keeps_handles(rest, f, next);
        let t = s.filter_map(f);
        let r = rest.filter_map(f);
        assert forall|k: int| 0 <= k < r.len() implies (#[trigger] r[k]).id < last.id by {
            lemma_filter_map_from(rest, f, k);
            let i = choose|i: int| 0 <= i < rest.len() && f(#[trigger] rest[i]) == Some(r[k]);
            assert(rest[i] == s[i]);
            assert(s[i].id < s[s.len() - 1].id);
        }
        match f(last) {
            Some(kept) => {
                assert(s.last() == last);
                assert(t =~= r.push(kept));
            },
            None => {},
        }
    }
}

/// What a change in place keeps that leaves each entity its kind: the
/// order of the entities and the counts of players and enemies.
pub proof fn lemma_same_kinds_keep_order(s: Seq<Entity>, t: Seq<Entity>, next: EntityId)
    requires
        entities_in_order(s, next),
        t.len() == s.len(),
        forall|i: int| 0 <= i < s.len() ==> same_kind(#[trigger] s[i], t[i]),
    ensures
        entities_in_order(t, next),
        count_all(t, marked_player()) == count_all(s, marked_player()),
        count_all(t, marked_enemy()) == count_all(s, marked_enemy()),
{
    assert forall|i: int, j: int| 0 <= i < j < t.len() implies (#[trigger] t[i]).id < (
    #[trigger] t[j]).id by {
        assert(same_kind(s[i], t[i]));
        assert(same_kind(s[j], t[j]));
    }
    assert forall|i: int| 0 <= i < t.len() implies (#[trigger] t[i]).id < next by {
        assert(same_kind(s[i], t[i]));
    }
    assert forall|i: int| 0 <= i < t.len() && is_ship(#[trigger] t[i]) implies is_lasting(t[i]) by {
        assert(same_kind(s[i], t[i]));
    }
    assert forall|i: int|
        0 <= i < t.len() && (#[trigger] t[i]).formation.is_some() implies
        t[i].formation.unwrap().is_valid() by {
        assert(same_kind(s[i], t[i]));
    }
    assert forall|i: int| 0 <= i < s.len() implies marked_player()(t[i]) == marked_player()(
        s[i],
    ) by {
        assert(same_kind(s[i], t[i]));
    }
    assert forall|i: int| 0 <= i < s.len() implies marked_enemy()(t[i]) == marked_enemy()(s[i]) by {
        assert(same_kind(s[i], t[i]));
    }
    lemma_count_same_prefix(t, s, marked_player(), s.len() as int);
    lemma_count_same_prefix(t, s, marked_enemy(), s.len() as int);
}

/// The clock does not touch what makes a world well formed.
pub proof fn lemma_clock_keeps_well_formed(w: WorldView, dt: u32)
    requires
        w.is_well_formed(),
    ensures
        w.clock_advanced(dt).is_well_formed(),
{
}

/// The player's input leaves a well-formed world well formed.
pub proof fn lemma_input_keeps_well_formed(w: WorldView, intent: Intent)
    requires
        w.is_well_formed(),
    ensures
        w.after_input(intent).is_well_formed(),
{
    match w.steerable_player() {
        Some(i) => {
            let after = w.after_input(intent);
            assert forall|k: int| 0 <= k < w.entities.len() implies same_kind(
                #[trigger] w.entities[k],
                after.entities[k],
            ) && same_health(w.entities[k], after.entities[k]) by {}
            lemma_same_kinds_keep_order(w.entities, after.entities, w.res.next_id);
            lemma_same_healths_keep_alive(w.entities, after.entities);
        },
        None => {},
    }
}

/// Free movement leaves a well-formed world well formed: no ship is
/// removed out of bounds.
pub proof fn lemma_free_movement_keeps_well_formed(w: WorldView, dt: u32)
    requires
        w.is_well_formed(),
    ensures
        w.after_free_movement(dt).is_well_formed(),
{
    let f = moved_in(w.res.win_size, dt);
    assert forall|i: int|
        0 <= i < w.entities.len() && f(#[trigger] w.entities[i]).is_some() implies
        same_kind(
        w.entities[i],
        f(w.entities[i]).unwrap(),
    ) && same_health(w.entities[i], f(w.entities[i]).unwrap()) by {
        assert(f(w.entities[i]) == moved(w.entities[i], w.res.win_size, dt));
    }
    lemma_filter_map_keeps_alive(w.entities, f);
    assert forall|i: int| 0 <= i < w.entities.len() && is_ship(#[trigger] w.entities[i]) implies f(
        w.entities[i],
    ).is_some() by {
        assert(f(w.entities[i]) == moved(w.entities[i], w.res.win_size, dt));
        assert(is_lasting(w.entities[i]));
    }
    lemma_filter_map_keeps_order(w.entities, f, w.res.next_id);
}

/// The animation of explosions leaves a well-formed world well formed: no
/// ship is an explosion.
pub proof fn lemma_animation_keeps_well_formed(w: WorldView, dt: u32)
    requires
        w.is_well_formed(),
    ensures
        w.after_animation(dt).is_well_formed(),
{
    let f = animated_in(w.res.config.explosion_frames, dt);
    assert forall|i: int|
        0 <= i < w.entities.len() && f(#[trigger] w.entities[i]).is_some() implies
        same_kind(
        w.entities[i],
        f(w.entities[i]).unwrap(),
    ) && same_health(w.entities[i], f(w.entities[i]).unwrap()) by {
        assert(f(w.entities[i]) == animated(w.entities[i], w.res.config.explosion_frames, dt));
    }
    lemma_filter_map_keeps_alive(w.entities, f);
    assert forall|i: int| 0 <= i < w.entities.len() && is_ship(#[trigger] w.entities[i]) implies f(
        w.entities[i],
    ).is_some() by {
        assert(f(w.entities[i]) == animated(w.entities[i], w.res.config.explosion_frames, dt));
        assert(is_lasting(w.entities[i]));
    }
    lemma_filter_map_keeps_order(w.entities, f, w.res.next_id);
}

/// The movement of the enemies changes no entity's kind and no entity's
/// place among the entities.
pub proof fn lemma_marched_same_kinds(w: WorldView, headings: Seq<Heading>, dt: u32, n: int)
    requires
        0 <= n <= w.entities.len(),
    ensures
        w.marched_among(headings, dt, n).len() == n,
        forall|i: int|
            0 <= i < n ==> same_kind(
                #[trigger] w.entities[i],
                w.marched_among(headings, dt, n)[i],
            ) && same_health(w.entities[i], w.marched_among(headings, dt, n)[i]),
    decreases n,
{
    if n > 0 {
        lemma_marched_same_kinds(w, headings, dt, n - 1);
        let prev = w.marched_among(headings, dt, n - 1);
        let now = w.marched_among(headings, dt, n);
        assert forall|i: int| 0 <= i < n implies same_kind(#[trigger] w.entities[i], now[i])
            && same_health(w.entities[i], now[i]) by {
            if i < n - 1 {
                assert(now[i] == prev[i]);
            }
        }
    }
}

/// The movement of the enemies leaves a well-formed world well formed.
pub proof fn lemma_enemy_movement_keeps_well_formed(w: WorldView, headings: Seq<Heading>, dt: u32)
    requires
        w.is_well_formed(),
    ensures
        w.after_enemy_movement(headings, dt).is_well_formed(),
{
    if w.movement_error(headings).is_none() {
        lemma_marched_same_kinds(w, headings, dt, w.entities.len() as int);
        lemma_same_kinds_keep_order(
            w.entities,
            w.marched_among(headings, dt, w.entities.len() as int),
            w.res.next_id,
        );
        lemma_same_healths_keep_alive(
            w.entities,
            w.marched_among(headings, dt, w.entities.len() as int),
        );
    }
}

/// `b` is `a` but for the next handle, which has not gone down.
pub open spec fn same_but_handles(a: Resources, b: Resources) -> bool {
    b == (Resources { next_id: b.next_id, ..a }) && a.next_id <= b.next_id
}

/// One more entity keeps the entities in order, as long as the handles are
/// not used up and the entity, if it is a ship, lasts and is on no
/// formation that cannot be followed.
pub proof fn lemma_spawned_keeps_order(w: WorldView, template: Entity)
    requires
        entities_in_order(w.entities, w.res.next_id),
        w.spawned(template).res.next_id < u64::MAX,
        is_ship(template) ==> is_lasting(template),
        template.formation.is_some() ==> template.formation.unwrap().is_valid(),
    ensures
        entities_in_order(w.spawned(template).entities, w.spawned(template).res.next_id),
        same_but_handles(w.res, w.spawned(template).res),
        w.spawned(template).players() == w.players() + if template.player.is_some() {
            1int
        } else {
            0int
        },
        w.spawned(template).enemies() == w.enemies() + if template.enemy.is_some() {
            1int
        } else {
            0int
        },
        enemies_alive(w.entities) && is_alive(template) ==> enemies_alive(
            w.spawned(template).entities,
        ),
{
    let e = Entity { id: w.res.next_id, ..template };
    let t = w.entities.push(e);
    assert(w.spawned(template).entities == t);
    if enemies_alive(w.entities) && is_alive(template) {
        assert forall|i: int|
            0 <= i < t.len() && (#[trigger] t[i]).enemy.is_some() && t[i].health.is_some() implies t[i].health.unwrap().hp
            > 0 by {
            if i < w.entities.len() {
                assert(t[i] == w.entities[i]);
            }
        }
    }
    assert forall|i: int, j: int| 0 <= i < j < t.len() implies (#[trigger] t[i]).id < (
    #[trigger] t[j]).id by {
        if j < w.entities.len() {
            assert(t[i] == w.entities[i] && t[j] == w.entities[j]);
        } else {
            assert(t[i] == w.entities[i]);
        }
    }
    assert forall|i: int| 0 <= i < t.len() && is_ship(#[trigger] t[i]) implies is_lasting(t[i]) by {
        if i < w.entities.len() {
            assert(t[i] == w.entities[i]);
        }
    }
    assert forall|i: int|
        0 <= i < t.len() && (#[trigger] t[i]).formation.is_some() implies
        t[i].formation.unwrap().is_valid() by {
        if i < w.entities.len() {
            assert(t[i] == w.entities[i]);
        }
    }
    assert forall|i: int| 0 <= i < t.len() implies (#[trigger] t[i]).id < w.spawned(
        template,
    ).res.next_id by {
        if i < w.entities.len() {
            assert(t[i] == w.entities[i]);
        }
    }
    lemma_count_push(w.entities, marked_player(), e);
    lemma_count_push(w.entities, marked_enemy(), e);
}

/// The coming of the player leaves a well-formed world well formed, as long
/// as the handles are not used up: a player comes in only when none is on.
pub proof fn lemma_player_spawn_keeps_well_formed(w: WorldView, dt: u32)
    requires
        w.is_well_formed(),
        w.after_player_spawn(dt).res.next_id < u64::MAX,
    ensures
        w.after_player_spawn(dt).is_well_formed(),
{
    let state = w.res.player_state;
    if !state.on && state.spawn_cooldown.ticked(dt).is_finished() {
        let after = w.after_player_spawn(dt);
        let waiting = WorldView {
            res: Resources { player_state: after.res.player_state, ..w.res },
            ..w
        };
        assert(after == waiting.spawned(player_template(w.res.win_size)));
        lemma_spawned_keeps_order(waiting, player_template(w.res.win_size));
        lemma_count_bounds(w.entities, marked_player(), w.entities.len() as int);
    }
}

/// The player's fire leaves a well-formed world well formed, as long as
/// the handles are not used up.
pub proof fn lemma_player_fire_keeps_well_formed(w: WorldView, dt: u32)
    requires
        w.is_well_formed(),
        w.after_player_fire(dt).res.next_id < u64::MAX,
    ensures
        w.after_player_fire(dt).is_well_formed(),
{
    match w.steerable_player() {
        Some(i) => {
            let state = w.res.player_state;
            let cooled = state.fire_cooldown.ticked(dt);
            if cooled.is_finished() && state.firing {
                let after = w.after_player_fire(dt);
                let armed = WorldView {
                    res: Resources { player_state: after.res.player_state, ..w.res },
                    ..w
                };
                let shot = player_laser(w.entities[i].transform.unwrap(), state);
                assert(after == armed.spawned(shot));
                lemma_spawned_keeps_order(armed, shot);
            }
        },
        None => {},
    }
}

/// The coming of enemies leaves a well-formed world well formed, as long
/// as the handles are not used up and the choices fit the viewport: each
/// enemy that comes in is counted, and none comes in beyond the maximum.
pub proof fn lemma_enemy_spawns_keep_well_formed(w: WorldView, draws: Seq<FormationDraw>, n: int)
    requires
        w.is_well_formed(),
        0 <= n <= draws.len(),
        all_fit(draws, w.res.win_size),
        w.after_enemy_spawns(draws, n).res.next_id < u64::MAX,
    ensures
        w.after_enemy_spawns(draws, n).is_well_formed(),
    decreases n,
{
    if n > 0 {
        let prev = w.after_enemy_spawns(draws, n - 1);
        let draw = draws[n - 1];
        assert(draw.fits(w.res.win_size));
        if prev.res.enemy_count.0 < prev.res.config.enemy_max {
            assert(prev.res.next_id <= next_handle(prev.res.next_id));
        }
        lemma_enemy_spawns_frame(w, draws, n - 1);
        lemma_enemy_spawns_keep_well_formed(w, draws, n - 1);
        if prev.res.enemy_count.0 < prev.res.config.enemy_max {
            let maker = prev.res.formation_maker;
            let formation = maker.handed(prev.res.win_size, draw);
            let counted = WorldView {
                res: Resources {
                    formation_maker: maker.step(prev.res.win_size, draw),
                    enemy_count: EnemyCount((prev.res.enemy_count.0 + 1) as u32),
                    ..prev.res
                },
                ..prev
            };
            assert(formation.is_valid());
            lemma_spawned_keeps_order(counted, enemy_template(formation));
        }
    }
}

/// The coming of enemies touches nothing of the shared state but the
/// formation maker, the count of enemies and the next handle, which does not
/// go down.
pub proof fn lemma_enemy_spawns_frame(w: WorldView, draws: Seq<FormationDraw>, n: int)
    ensures
        w.res.next_id <= w.after_enemy_spawns(draws, n).res.next_id,
        w.after_enemy_spawns(draws, n).res == (Resources {
            formation_maker: w.after_enemy_spawns(draws, n).res.formation_maker,
            enemy_count: w.after_enemy_spawns(draws, n).res.enemy_count,
            next_id: w.after_enemy_spawns(draws, n).res.next_id,
            ..w.res
        }),
    decreases n,
{
    if n > 0 {
        lemma_enemy_spawns_frame(w, draws, n - 1);
    }
}

/// A salvo keeps the entities in order, as long as the handles are not used
/// up; it adds no ship and touches nothing of the shared state but the next
/// handle.
pub proof fn lemma_salvo_keeps_order(
    w: WorldView,
    gunners: Seq<Entity>,
    player: Option<(i32, i32)>,
    dt: u32,
    n: int,
)
    requires
        entities_in_order(w.entities, w.res.next_id),
        w.salvo(gunners, player, dt, n).res.next_id < u64::MAX,
    ensures
        entities_in_order(
            w.salvo(gunners, player, dt, n).entities,
            w.salvo(gunners, player, dt, n).res.next_id,
        ),
        same_but_handles(w.res, w.salvo(gunners, player, dt, n).res),
        w.salvo(gunners, player, dt, n).players() == w.players(),
        w.salvo(gunners, player, dt, n).enemies() == w.enemies(),
        enemies_alive(w.entities) ==> enemies_alive(w.salvo(gunners, player, dt, n).entities),
    decreases n,
{
    if n > 0 {
        let prev = w.salvo(gunners, player, dt, n - 1);
        assert(prev.res.next_id <= next_handle(prev.res.next_id));
        lemma_salvo_keeps_order(w, gunners, player, dt, n - 1);
        if shoots(gunners[n - 1], dt) {
            lemma_spawned_keeps_order(prev, enemy_laser(gunners[n - 1], player, w.res.clock));
        }
    }
}

/// A salvo touches nothing of the shared state but the next handle, which
/// does not go down.
pub proof fn lemma_salvo_frame(
    w: WorldView,
    gunners: Seq<Entity>,
    player: Option<(i32, i32)>,
    dt: u32,
    n: int,
)
    ensures
        same_but_handles(w.res, w.salvo(gunners, player, dt, n).res),
    decreases n,
{
    if n > 0 {
        lemma_salvo_frame(w, gunners, player, dt, n - 1);
    }
}

/// The enemies' fire leaves a well-formed world well formed, as long as the
/// handles are not used up.
pub proof fn lemma_enemy_fire_keeps_well_formed(w: WorldView, dt: u32)
    requires
        w.is_well_formed(),
        w.after_enemy_fire(dt).res.next_id < u64::MAX,
    ensures
        w.after_enemy_fire(dt).is_well_formed(),
{
    let f = cooled_by(dt);
    assert forall|i: int| 0 <= i < w.entities.len() implies same_kind(
        #[trigger] w.entities[i],
        f(w.entities[i]),
    ) && same_health(w.entities[i], w.entities.map_values(f)[i]) by {
        assert(f(w.entities[i]) == cooled(w.entities[i], dt));
    }
    lemma_map_keeps_order(w.entities, f, w.res.next_id);
    lemma_same_healths_keep_alive(w.entities, w.entities.map_values(f));
    lemma_salvo_keeps_order(
        w.guns_cooled(dt),
        w.entities,
        w.player_position(),
        dt,
        w.entities.len() as int,
    );
}

/// The enemies' fire touches nothing of the shared state but the next
/// handle, which does not go down.
pub proof fn lemma_enemy_fire_frame(w: WorldView, dt: u32)
    ensures
        same_but_handles(w.res, w.after_enemy_fire(dt).res),
{
    lemma_salvo_frame(
        w.guns_cooled(dt),
        w.entities,
        w.player_position(),
        dt,
        w.entities.len() as int,
    );
}

/// The making of explosions keeps the entities in order, as long as the
/// handles are not used up; it adds no ship and touches nothing of the
/// shared state but the next handle.
pub proof fn lemma_exploded_keeps_order(w: WorldView, records: Seq<Entity>, n: int)
    requires
        entities_in_order(w.entities, w.res.next_id),
        w.exploded(records, n).res.next_id < u64::MAX,
    ensures
        entities_in_order(w.exploded(records, n).entities, w.exploded(records, n).res.next_id),
        same_but_handles(w.res, w.exploded(records, n).res),
        w.exploded(records, n).players() == w.players(),
        w.exploded(records, n).enemies() == w.enemies(),
        enemies_alive(w.entities) ==> enemies_alive(w.exploded(records, n).entities),
    decreases n,
{
    if n > 0 {
        let prev = w.exploded(records, n - 1);
        assert(prev.res.next_id <= next_handle(prev.res.next_id));
        lemma_exploded_keeps_order(w, records, n - 1);
        match records[n - 1].explosion_to_spawn {
            Some(pending) => {
                lemma_spawned_keeps_order(prev, explosion_at(pending.0));
            },
            None => {},
        }
    }
}

/// The making of explosions touches nothing of the shared state but the
/// next handle, which does not go down.
pub proof fn lemma_exploded_frame(w: WorldView, records: Seq<Entity>, n: int)
    ensures
        same_but_handles(w.res, w.exploded(records, n).res),
    decreases n,
{
    if n > 0 {
        lemma_exploded_frame(w, records, n - 1);
    }
}

/// The making of explosions leaves a well-formed world well formed, as long
/// as the handles are not used up.
pub proof fn lemma_explosions_keep_well_formed(w: WorldView)
    requires
        w.is_well_formed(),
        w.after_explosions_spawned().res.next_id < u64::MAX,
    ensures
        w.after_explosions_spawned().is_well_formed(),
{
    let f = unless_pending();
    assert forall|i: int| 0 <= i < w.entities.len() && is_ship(#[trigger] w.entities[i]) implies f(
        w.entities[i],
    ).is_some() by {
        assert(is_lasting(w.entities[i]));
    }
    lemma_filter_map_keeps_order(w.entities, f, w.res.next_id);
    lemma_filter_map_keeps_alive(w.entities, f);
    lemma_exploded_keeps_order(w.without_records(), w.entities, w.entities.len() as int);
}

/// The making of explosions touches nothing of the shared state but the
/// next handle, which does not go down.
pub proof fn lemma_explosions_frame(w: WorldView)
    ensures
        same_but_handles(w.res, w.after_explosions_spawned().res),
{
    lemma_exploded_frame(w.without_records(), w.entities, w.entities.len() as int);
}

/// A world before its first tick is well formed.
pub proof fn lemma_initial_well_formed(w: WorldView, win_size: WinSize, config: Config)
    requires
        w.entities.len() == 0,
        w.res.is_initial(win_size, config),
        config_error(win_size, config).is_none(),
    ensures
        w.is_well_formed(),
{
}

} // verus!
