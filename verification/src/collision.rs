//! Collisions between projectiles and what they are aimed at.

use vstd::prelude::*;
use crate::components::{EntityId, ExplosionToSpawn, Health, SpriteSize, Transform};
use crate::consumed::{consumed_contains, consumed_ids, consumed_insert, consumed_new, Consumed};
use crate::fixed::{quot, SCALE};
use crate::resources::{EnemyCount, PlayerState, KILL_SCORE};
use crate::world::{Entity, Resources, World, WorldView};

verus! {

/// A length as it is drawn: scaled by the render scale.
pub open spec fn scaled(length: i32, scale: i32) -> int {
    quot(length * scale, SCALE as int)
}

/// Two boxes, each given by its centre and its size, overlap along one
/// axis. Boxes that only touch do not overlap.
pub open spec fn spans_overlap(a: int, a_size: int, b: int, b_size: int) -> bool {
    2 * a - a_size < 2 * b + b_size && 2 * a + a_size > 2 * b - b_size
}

/// The bounding boxes of two sprites overlap: the boxes are centred at the
/// sprites' places and have their scaled sizes.
pub open spec fn overlaps(
    a: Transform,
    a_size: SpriteSize,
    b: Transform,
    b_size: SpriteSize,
) -> bool {
    &&& spans_overlap(
        a.translation.0 as int,
        scaled(a_size.0.0, a.scale),
        b.translation.0 as int,
        scaled(b_size.0.0, b.scale),
    )
    &&& spans_overlap(
        a.translation.1 as int,
        scaled(a_size.0.1, a.scale),
        b.translation.1 as int,
        scaled(b_size.0.1, b.scale),
    )
}

/// A length as it is drawn.
fn scale_length(length: i32, scale: i32) -> (r: i64)
    ensures
        r == scaled(length, scale),
        -0x20_0000_0000_0000 <= r <= 0x20_0000_0000_0000,
{
    let l: i64 = length as i64;
    let s: i64 = scale as i64;
    assert(-0x4000_0000_0000_0000 <= l * s <= 0x4000_0000_0000_0000) by (nonlinear_arith)
        requires
            -0x8000_0000 <= l <= 0x7fff_ffff,
            -0x8000_0000 <= s <= 0x7fff_ffff,
    ;
    (l * s) / (SCALE as i64)
}

/// Whether the bounding boxes of two sprites overlap.
pub fn collide(
    a: &Transform,
    a_size: &SpriteSize,
    b: &Transform,
    b_size: &SpriteSize,
) -> (hit: bool)
    ensures
        hit == overlaps(*a, *a_size, *b, *b_size),
{
    let aw: i64 = scale_length(a_size.0.0, a.scale);
    let ah: i64 = scale_length(a_size.0.1, a.scale);
    let bw: i64 = scale_length(b_size.0.0, b.scale);
    let bh: i64 = scale_length(b_size.0.1, b.scale);
    let ax: i64 = 2 * (a.translation.0 as i64);
    let ay: i64 = 2 * (a.translation.1 as i64);
    let bx: i64 = 2 * (b.translation.0 as i64);
    let by: i64 = 2 * (b.translation.1 as i64);
    ax - aw < bx + bw && ax + aw > bx - bw && ay - ah < by + bh && ay + ah > by - bh
}

/// One projectile that struck one target.
#[derive(Clone, Copy, Debug, PartialEq, Eq)]
pub struct Hit {
    pub laser: EntityId,
    pub target: EntityId,
    /// The target had no hit points left after the hit.
    pub destroyed: bool,
    /// Where the target was.
    pub at: (i32, i32),
}

/// How far a collision phase has got.
pub struct Scan {
    /// The entities, with the health that the hits so far have left them.
    pub entities: Seq<Entity>,
    /// The handles used up: projectiles that have hit, targets destroyed.
    pub consumed: Set<EntityId>,
    /// The hits so far, in the order in which they fell.
    pub hits: Seq<Hit>,
}

/// A projectile of the player that can hit.
pub open spec fn is_player_laser(e: Entity) -> bool {
    &&& e.from_player.is_some()
    &&& e.laser.is_some()
    &&& e.transform.is_some()
    &&& e.sprite_size.is_some()
    &&& e.damage.is_some()
}

/// An enemy that can be hit.
pub open spec fn is_enemy_target(e: Entity) -> bool {
    &&& e.enemy.is_some()
    &&& e.transform.is_some()
    &&& e.sprite_size.is_some()
    &&& e.health.is_some()
}

/// A projectile of an enemy that can hit.
pub open spec fn is_enemy_laser(e: Entity) -> bool {
    &&& e.from_enemy.is_some()
    &&& e.laser.is_some()
    &&& e.transform.is_some()
    &&& e.sprite_size.is_some()
    &&& e.damage.is_some()
}

impl Scan {
    /// The phase before any pair was looked at.
    pub open spec fn start(entities: Seq<Entity>) -> Scan {
        Scan { entities, consumed: Set::empty(), hits: Seq::empty() }
    }

    /// The player's projectile at place `l` strikes the enemy at place `t`:
    /// neither is used up, and their boxes overlap.
    pub open spec fn strikes(self, l: int, t: int) -> bool {
        &&& is_player_laser(self.entities[l])
        &&& is_enemy_target(self.entities[t])
        &&& !self.consumed.contains(self.entities[l].id)
        &&& !self.consumed.contains(self.entities[t].id)
        &&& overlaps(
            self.entities[l].transform.unwrap(),
            self.entities[l].sprite_size.unwrap(),
            self.entities[t].transform.unwrap(),
            self.entities[t].sprite_size.unwrap(),
        )
    }

    /// The phase after the pair of places `l` and `t` was looked at. Where
    /// the projectile strikes, the target loses the effective damage, the
    /// projectile is used up, and so is the target if nothing is left of it.
    pub open spec fn pair(self, l: int, t: int) -> Scan {
        if self.strikes(l, t) {
            let laser = self.entities[l];
            let target = self.entities[t];
            let health = target.health.unwrap().after(laser.damage.unwrap().effective());
            Scan {
                entities: self.entities.update(t, Entity { health: Some(health), ..target }),
                consumed: if health.is_spent() {
                    self.consumed.insert(target.id).insert(laser.id)
                } else {
                    self.consumed.insert(laser.id)
                },
                hits: self.hits.push(
                    Hit {
                        laser: laser.id,
                        target: target.id,
                        destroyed: health.is_spent(),
                        at: target.transform.unwrap().translation,
                    },
                ),
            }
        } else {
            self
        }
    }

    /// The phase after the projectile at place `l` was held against the
    /// first `n` entities.
    pub open spec fn targets(self, l: int, n: int) -> Scan
        decreases n,
    {
        if n <= 0 {
            self
        } else {
            self.targets(l, n - 1).pair(l, n - 1)
        }
    }

    /// The phase after each of the first `m` entities was held, as a
    /// projectile, against all entities.
    pub open spec fn lasers(self, m: int) -> Scan
        decreases m,
    {
        if m <= 0 {
            self
        } else {
            self.lasers(m - 1).targets(m - 1, self.entities.len() as int)
        }
    }

}

/// Number of targets destroyed by the first `n` of `hits`.
pub open spec fn kills_among(hits: Seq<Hit>, n: int) -> int
    decreases n,
{
    if n <= 0 {
        0
    } else {
        kills_among(hits, n - 1) + if hits[n - 1].destroyed {
            1int
        } else {
            0int
        }
    }
}

/// An entity as a collision phase leaves it: gone if it is used up.
pub open spec fn survivor(consumed: Set<EntityId>) -> spec_fn(Entity) -> Option<Entity> {
    |e: Entity|
        if consumed.contains(e.id) {
            None
        } else {
            Some(e)
        }
}

/// The record from which an explosion is made at `at`.
pub open spec fn pending_explosion(at: (i32, i32)) -> Entity {
    Entity { explosion_to_spawn: Some(ExplosionToSpawn(at)), ..Entity::bare() }
}

/// The score after one more enemy was destroyed. It stops at the largest
/// number that can be held.
pub open spec fn score_after_kill(score: u64) -> u64 {
    if score + KILL_SCORE > u64::MAX {
        u64::MAX
    } else {
        (score + KILL_SCORE) as u64
    }
}

impl WorldView {
    /// The world after one more enemy was destroyed at `at`: one enemy less
    /// is counted, the score goes up, and an explosion is due at the place.
    pub open spec fn after_kill(self, at: (i32, i32)) -> WorldView {
        WorldView {
            res: Resources {
                enemy_count: EnemyCount(
                    if self.res.enemy_count.0 > 0 {
                        (self.res.enemy_count.0 - 1) as u32
                    } else {
                        0
                    },
                ),
                player_state: PlayerState {
                    score: score_after_kill(self.res.player_state.score),
                    ..self.res.player_state
                },
                ..self.res
            },
            ..self
        }.spawned(pending_explosion(at))
    }

    /// The world after the first `n` of `hits` were settled.
    pub open spec fn settled(self, hits: Seq<Hit>, n: int) -> WorldView
        decreases n,
    {
        if n <= 0 {
            self
        } else if hits[n - 1].destroyed {
            self.settled(hits, n - 1).after_kill(hits[n - 1].at)
        } else {
            self.settled(hits, n - 1)
        }
    }

    /// All that the player's projectiles do in one collision phase.
    pub open spec fn player_hits(self) -> Scan {
        Scan::start(self.entities).lasers(self.entities.len() as int)
    }

    /// The world with `entities` for its entities, but for those whose
    /// handles are used up.
    pub open spec fn cleared(self, entities: Seq<Entity>, consumed: Set<EntityId>) -> WorldView {
        WorldView { entities: entities.filter_map(survivor(consumed)), ..self }
    }

    /// The world after the player's projectiles were held against the
    /// enemies: the entities used up are gone, and each kill is settled.
    pub open spec fn after_player_hits(self) -> WorldView {
        let scan = self.player_hits();
        self.cleared(scan.entities, scan.consumed).settled(scan.hits, scan.hits.len() as int)
    }
}

/// How far the enemies' fire at the player has got.
pub struct Assault {
    /// The health that the hits so far have left the player.
    pub health: Health,
    /// The handles used up: projectiles that have hit, and the player once
    /// destroyed.
    pub consumed: Set<EntityId>,
    /// The hits so far, in the order in which they fell.
    pub hits: Seq<Hit>,
    /// The player was destroyed: what follows passes by.
    pub down: bool,
}

impl WorldView {
    /// The place of the player, if there is one that can be hit: it has a
    /// transform and a size, and is not shielded.
    pub open spec fn exposed_player(self) -> Option<int> {
        match self.player_at() {
            Some(p) => if !self.res.player_state.shielded(self.res.clock)
                && self.entities[p].transform.is_some() && self.entities[p].sprite_size.is_some() {
                Some(p)
            } else {
                None
            },
            None => None,
        }
    }

    /// The enemy projectile at place `i` strikes the player at place `p`.
    pub open spec fn strikes_player(self, i: int, p: int) -> bool {
        &&& is_enemy_laser(self.entities[i])
        &&& overlaps(
            self.entities[i].transform.unwrap(),
            self.entities[i].sprite_size.unwrap(),
            self.entities[p].transform.unwrap(),
            self.entities[p].sprite_size.unwrap(),
        )
    }

    /// The fire at the player at place `p` after the first `n` entities were
    /// held against it. Each projectile that strikes takes its effective
    /// damage off the player's health and is used up; once nothing is left
    /// of the player, the rest passes by.
    pub open spec fn volley(self, p: int, n: int) -> Assault
        decreases n,
    {
        if n <= 0 {
            Assault {
                health: self.res.player_state.health,
                consumed: Set::empty(),
                hits: Seq::empty(),
                down: false,
            }
        } else {
            let a = self.volley(p, n - 1);
            if !a.down && self.strikes_player(n - 1, p) {
                let laser = self.entities[n - 1];
                let health = a.health.after(laser.damage.unwrap().effective());
                Assault {
                    health,
                    consumed: if health.is_spent() {
                        a.consumed.insert(self.entities[p].id).insert(laser.id)
                    } else {
                        a.consumed.insert(laser.id)
                    },
                    hits: a.hits.push(
                        Hit {
                            laser: laser.id,
                            target: self.entities[p].id,
                            destroyed: health.is_spent(),
                            at: self.entities[p].transform.unwrap().translation,
                        },
                    ),
                    down: health.is_spent(),
                }
            } else {
                a
            }
        }
    }

    /// The hits of the enemies' projectiles on the player in one collision
    /// phase, in the order in which they fall.
    pub open spec fn enemy_hits(self) -> Seq<Hit> {
        match self.exposed_player() {
            Some(p) => self.volley(p, self.entities.len() as int).hits,
            None => Seq::empty(),
        }
    }

    /// The world after the enemies' projectiles were held against the
    /// player. While the player is shielded, or there is none, nothing
    /// changes. Otherwise what was used up is gone, the player has the health
    /// that is left, and a player destroyed is recorded as shot and leaves an
    /// explosion behind.
    pub open spec fn after_enemy_hits(self) -> WorldView {
        match self.exposed_player() {
            Some(p) => {
                let a = self.volley(p, self.entities.len() as int);
                let state = PlayerState { health: a.health, ..self.res.player_state };
                let cleared = WorldView {
                    res: Resources {
                        player_state: if a.down {
                            state.after_shot(self.res.clock)
                        } else {
                            state
                        },
                        ..self.res
                    },
                    ..self.cleared(self.entities, a.consumed)
                };
                if a.down {
                    cleared.spawned(
                        pending_explosion(self.entities[p].transform.unwrap().translation),
                    )
                } else {
                    cleared
                }
            },
            None => self,
        }
    }
}

impl Scan {
    /// Nothing was counted twice so far: every projectile that has hit is
    /// used up and has hit once, and every target destroyed is used up and
    /// was not hit again.
    pub open spec fn each_once(self) -> bool {
        &&& forall|i: int|
            0 <= i < self.hits.len() ==> self.consumed.contains((#[trigger] self.hits[i]).laser)
        &&& forall|i: int|
            0 <= i < self.hits.len() && (#[trigger] self.hits[i]).destroyed
                ==> self.consumed.contains(self.hits[i].target)
        &&& forall|i: int, j: int|
            0 <= i < j < self.hits.len() ==> (#[trigger] self.hits[i]).laser != (
            #[trigger] self.hits[j]).laser
        &&& forall|i: int, j: int|
            0 <= i < j < self.hits.len() && (#[trigger] self.hits[i]).destroyed
                ==> self.hits[i].target != (#[trigger] self.hits[j]).target
    }
}

/// Looking at one more pair counts nothing twice.
proof fn lemma_pair_each_once(s: Scan, l: int, t: int)
    requires
        s.each_once(),
    ensures
        s.pair(l, t).each_once(),
        s.pair(l, t).hits.len() >= s.hits.len(),
{
    if s.strikes(l, t) {
        let next = s.pair(l, t);
        let last = s.hits.len() as int;
        assert forall|i: int| 0 <= i < next.hits.len() implies next.consumed.contains(
            (#[trigger] next.hits[i]).laser,
        ) by {
            if i < last {
                assert(next.hits[i] == s.hits[i]);
            }
        }
        assert forall|i: int|
            0 <= i < next.hits.len() && (#[trigger] next.hits[i]).destroyed implies next.consumed.contains(
            next.hits[i].target,
        ) by {
            if i < last {
                assert(next.hits[i] == s.hits[i]);
            }
        }
        assert forall|i: int, j: int| 0 <= i < j < next.hits.len() implies (
        #[trigger] next.hits[i]).laser != (#[trigger] next.hits[j]).laser by {
            assert(next.hits[i] == s.hits[i]);
            if j < last {
                assert(next.hits[j] == s.hits[j]);
            }
        }
        assert forall|i: int, j: int|
            0 <= i < j < next.hits.len() && (#[trigger] next.hits[i]).destroyed implies next.hits[i].target
            != (#[trigger] next.hits[j]).target by {
            assert(next.hits[i] == s.hits[i]);
            if j < last {
                assert(next.hits[j] == s.hits[j]);
            }
        }
    }
}

/// Holding one projectile against the entities counts nothing twice.
proof fn lemma_targets_each_once(s: Scan, l: int, n: int)
    requires
        s.each_once(),
    ensures
        s.targets(l, n).each_once(),
    decreases n,
{
    if n > 0 {
        lemma_targets_each_once(s, l, n - 1);
        lemma_pair_each_once(s.targets(l, n - 1), l, n - 1);
    }
}

/// A whole collision phase counts nothing twice.
proof fn lemma_lasers_each_once(s: Scan, m: int)
    requires
        s.each_once(),
    ensures
        s.lasers(m).each_once(),
    decreases m,
{
    if m > 0 {
        lemma_lasers_each_once(s, m - 1);
        lemma_targets_each_once(s.lasers(m - 1), m - 1, s.entities.len() as int);
    }
}

/// In one collision phase no projectile hits twice, however many targets
/// it overlaps, and no target is hit again once it was destroyed, so that no
/// death is counted twice. Every projectile that has hit, and every target
/// destroyed, is used up.
pub proof fn lemma_one_hit_per_laser(w: WorldView)
    ensures
        forall|i: int, j: int|
            0 <= i < j < w.player_hits().hits.len() ==> (#[trigger] w.player_hits().hits[i]).laser != (
            #[trigger] w.player_hits().hits[j]).laser,
        forall|i: int, j: int|
            0 <= i < j < w.player_hits().hits.len() && (#[trigger] w.player_hits().hits[i]).destroyed
                ==> w.player_hits().hits[i].target != (#[trigger] w.player_hits().hits[j]).target,
        forall|i: int|
            0 <= i < w.player_hits().hits.len() ==> w.player_hits().consumed.contains(
                (#[trigger] w.player_hits().hits[i]).laser,
            ),
        forall|i: int|
            0 <= i < w.player_hits().hits.len() && (#[trigger] w.player_hits().hits[i]).destroyed
                ==> w.player_hits().consumed.contains(w.player_hits().hits[i].target),
{
    lemma_lasers_each_once(Scan::start(w.entities), w.entities.len() as int);
}

/// What is used up is removed: among the entities that a collision phase
/// leaves, none has a handle that was used up.
pub proof fn lemma_consumed_are_gone(entities: Seq<Entity>, consumed: Set<EntityId>, k: int)
    requires
        0 <= k < entities.filter_map(survivor(consumed)).len(),
    ensures
        !consumed.contains(entities.filter_map(survivor(consumed))[k].id),
    decreases entities.len(),
{
    let f = survivor(consumed);
    if entities.len() > 0 {
        let rest = entities.drop_last();
        if k < rest.filter_map(f).len() {
            lemma_consumed_are_gone(rest, consumed, k);
        }
    }
}

/// The score after `kills` enemies were destroyed.
pub open spec fn score_after(score: u64, kills: int) -> int {
    if score + kills * KILL_SCORE > u64::MAX {
        u64::MAX as int
    } else {
        score + kills * KILL_SCORE
    }
}

/// Settling the first `n` hits raises the score by the points for one kill
/// for each target destroyed among them, and lowers the count of enemies by
/// one for each; neither changes otherwise.
pub proof fn lemma_settled_score(w: WorldView, hits: Seq<Hit>, n: int)
    requires
        0 <= n <= hits.len(),
    ensures
        0 <= kills_among(hits, n) <= n,
        w.settled(hits, n).res.player_state.score == score_after(
            w.res.player_state.score,
            kills_among(hits, n),
        ),
        w.settled(hits, n).res.player_state.score >= w.res.player_state.score,
        w.settled(hits, n).res.enemy_count.0 == if w.res.enemy_count.0 >= kills_among(hits, n) {
            w.res.enemy_count.0 - kills_among(hits, n)
        } else {
            0
        },
    decreases n,
{
    if n > 0 {
        lemma_settled_score(w, hits, n - 1);
    }
}

/// A collision phase of the player's projectiles never lowers the score,
/// and raises it by the points for one kill for each enemy that the phase
/// destroyed.
pub proof fn lemma_score_counts_kills(w: WorldView)
    ensures
        w.after_player_hits().res.player_state.score >= w.res.player_state.score,
        w.after_player_hits().res.player_state.score == score_after(
            w.res.player_state.score,
            kills_among(w.player_hits().hits, w.player_hits().hits.len() as int),
        ),
{
    let scan = w.player_hits();
    lemma_settled_score(w.cleared(scan.entities, scan.consumed), scan.hits, scan.hits.len() as int);
}

/// Whether an entity is a projectile of the player that can hit.
fn check_player_laser(e: &Entity) -> (r: bool)
    ensures
        r == is_player_laser(*e),
{
    e.from_player.is_some() && e.laser.is_some() && e.transform.is_some() && e.sprite_size.is_some()
        && e.damage.is_some()
}

/// Whether an entity is an enemy that can be hit.
fn check_enemy_target(e: &Entity) -> (r: bool)
    ensures
        r == is_enemy_target(*e),
{
    e.enemy.is_some() && e.transform.is_some() && e.sprite_size.is_some() && e.health.is_some()
}

/// Removes the entities that are used up.
fn despawn_consumed(world: &mut World, consumed: &Consumed)
    ensures
        final(world)@ == old(world)@.cleared(old(world)@.entities, consumed_ids(*consumed)),
{
    let ghost before: Seq<Entity> = world.entities@;
    let ghost f = survivor(consumed_ids(*consumed));
    let mut kept: Vec<Entity> = Vec::new();
    let mut i: usize = 0;
    assert(before.take(0).filter_map(f) =~= Seq::<Entity>::empty());
    while i < world.entities.len()
        invariant
            i <= before.len(),
            world.entities@ == before,
            world.res == old(world).res,
            f == survivor(consumed_ids(*consumed)),
            kept@ == before.take(i as int).filter_map(f),
        decreases before.len() - i,
    {
        proof {
            before.lemma_filter_map_take_succ(f, i as int);
        }
        let e: Entity = world.entities[i];
        if !consumed_contains(consumed, e.id) {
            kept.push(e);
        }
        i = i + 1;
    }
    assert(before.take(before.len() as int) =~= before);
    world.entities = kept;
}

/// Settles the kills among `hits`.
fn settle_kills(world: &mut World, hits: &Vec<Hit>)
    ensures
        final(world)@ == old(world)@.settled(hits@, hits@.len() as int),
{
    let mut i: usize = 0;
    while i < hits.len()
        invariant
            i <= hits.len(),
            world@ == old(world)@.settled(hits@, i as int),
        decreases hits.len() - i,
    {
        let hit: Hit = hits[i];
        if hit.destroyed {
            if world.res.enemy_count.0 > 0 {
                world.res.enemy_count = EnemyCount(world.res.enemy_count.0 - 1);
            }
            world.res.player_state.score = world.res.player_state.score.saturating_add(KILL_SCORE);
            let template = Entity {
                explosion_to_spawn: Some(ExplosionToSpawn(hit.at)),
                ..Entity::new()
            };
            world.spawn(template);
        }
        i = i + 1;
    }
}

/// An entity that is no projectile of the player, or is used up, hits
/// nothing.
proof fn lemma_targets_idle(scan: Scan, l: int, n: int)
    requires
        !is_player_laser(scan.entities[l]) || scan.consumed.contains(scan.entities[l].id),
    ensures
        scan.targets(l, n) == scan,
    decreases n,
{
    if n > 0 {
        lemma_targets_idle(scan, l, n - 1);
    }
}

/// Holds the player's projectiles against the enemies. A projectile that
/// overlaps an enemy takes its effective damage off the enemy's health and
/// is removed; an enemy left without hit points is removed, counted off,
/// scored, and leaves an explosion behind. What is used up takes no further
/// part in the phase. Returns the hits in the order in which they fell.
pub fn player_laser_hit_enemy_system(world: &mut World) -> (hits: Vec<Hit>)
    ensures
        final(world)@ == old(world)@.after_player_hits(),
        hits@ == old(world)@.player_hits().hits,
{
    let mut consumed: Consumed = consumed_new();
    let mut hits: Vec<Hit> = Vec::new();
    let n: usize = world.entities.len();
    let ghost start: Scan = Scan::start(world.entities@);
    let mut l: usize = 0;
    while l < n
        invariant
            l <= n,
            n == world.entities.len(),
            n == start.entities.len(),
            world.res == old(world).res,
            start == Scan::start(old(world).entities@),
            world.entities@ == start.lasers(l as int).entities,
            consumed_ids(consumed) == start.lasers(l as int).consumed,
            hits@ == start.lasers(l as int).hits,
        decreases n - l,
    {
        let ghost row: Scan = start.lasers(l as int);
        let shot: Entity = world.entities[l];
        if !check_player_laser(&shot) || consumed_contains(&consumed, shot.id) {
            proof {
                lemma_targets_idle(row, l as int, n as int);
            }
            l = l + 1;
            continue;
        }
        let mut t: usize = 0;
        while t < n
            invariant
                t <= n,
                l < n,
                n == world.entities.len(),
                n == row.entities.len(),
                world.res == old(world).res,
                world.entities@ == row.targets(l as int, t as int).entities,
                consumed_ids(consumed) == row.targets(l as int, t as int).consumed,
                hits@ == row.targets(l as int, t as int).hits,
            decreases n - t,
        {
            let ghost cur: Scan = row.targets(l as int, t as int);
            let laser: Entity = world.entities[l];
            let target: Entity = world.entities[t];
            if check_player_laser(&laser) && check_enemy_target(&target) && !consumed_contains(
                &consumed,
                laser.id,
            ) && !consumed_contains(&consumed, target.id) && collide(
                &laser.transform.unwrap(),
                &laser.sprite_size.unwrap(),
                &target.transform.unwrap(),
                &target.sprite_size.unwrap(),
            ) {
                assert(cur.strikes(l as int, t as int));
                let dealt: i64 = laser.damage.unwrap().damage_dealt();
                let mut health: Health = target.health.unwrap();
                let spent: bool = health.hit(dealt);
                let mut struck: Entity = target;
                struck.health = Some(health);
                world.entities[t] = struck;
                if spent {
                    consumed_insert(&mut consumed, target.id);
                }
                consumed_insert(&mut consumed, laser.id);
                hits.push(
                    Hit {
                        laser: laser.id,
                        target: target.id,
                        destroyed: spent,
                        at: target.transform.unwrap().translation,
                    },
                );
            } else {
                assert(!cur.strikes(l as int, t as int));
            }
            t = t + 1;
        }
        l = l + 1;
    }
    despawn_consumed(world, &consumed);
    settle_kills(world, &hits);
    hits
}

/// Whether an entity is a projectile of an enemy that can hit.
fn check_enemy_laser(e: &Entity) -> (r: bool)
    ensures
        r == is_enemy_laser(*e),
{
    e.from_enemy.is_some() && e.laser.is_some() && e.transform.is_some() && e.sprite_size.is_some()
        && e.damage.is_some()
}

/// Holds the enemies' projectiles against the player. While the player is
/// still shielded after its spawn, hostile fire passes through it: nothing
/// is hit, and no projectile is removed. Otherwise a projectile that
/// overlaps the player takes its effective damage off the player's health
/// and is removed; a player left without hit points is removed, recorded as
/// shot, and leaves an explosion behind, and the projectiles not yet looked
/// at pass by. Returns the hits in the order in which they fell.
pub fn enemy_laser_hit_player_system(world: &mut World) -> (hits: Vec<Hit>)
    ensures
        final(world)@ == old(world)@.after_enemy_hits(),
        hits@ == old(world)@.enemy_hits(),
{
    let mut hits: Vec<Hit> = Vec::new();
    let now: u64 = world.res.clock;
    if world.res.player_state.is_shielded(now) {
        return hits;
    }
    let at: Option<usize> = world.find_player();
    match at {
        Some(p) => {
            let player: Entity = world.entities[p];
            match (player.transform, player.sprite_size) {
                (Some(player_tf), Some(player_size)) => {
                    let ghost w: WorldView = world@;
                    let mut consumed: Consumed = consumed_new();
                    let mut health: Health = world.res.player_state.health;
                    let mut down: bool = false;
                    let mut i: usize = 0;
                    while i < world.entities.len()
                        invariant
                            i <= world.entities.len(),
                            world@ == w,
                            p < w.entities.len(),
                            player == w.entities[p as int],
                            player.transform == Some(player_tf),
                            player.sprite_size == Some(player_size),
                            health == w.volley(p as int, i as int).health,
                            consumed_ids(consumed) == w.volley(p as int, i as int).consumed,
                            hits@ == w.volley(p as int, i as int).hits,
                            down == w.volley(p as int, i as int).down,
                        decreases world.entities.len() - i,
                    {
                        let laser: Entity = world.entities[i];
                        if !down && check_enemy_laser(&laser) && collide(
                            &laser.transform.unwrap(),
                            &laser.sprite_size.unwrap(),
                            &player_tf,
                            &player_size,
                        ) {
                            let dealt: i64 = laser.damage.unwrap().damage_dealt();
                            down = health.hit(dealt);
                            if down {
                                consumed_insert(&mut consumed, player.id);
                            }
                            consumed_insert(&mut consumed, laser.id);
                            hits.push(
                                Hit {
                                    laser: laser.id,
                                    target: player.id,
                                    destroyed: down,
                                    at: player_tf.translation,
                                },
                            );
                        }
                        i = i + 1;
                    }
                    despawn_consumed(world, &consumed);
                    world.res.player_state.health = health;
                    if down {
                        world.res.player_state.shot(now);
                        let template = Entity {
                            explosion_to_spawn: Some(ExplosionToSpawn(player_tf.translation)),
                            ..Entity::new()
                        };
                        world.spawn(template);
                    }
                    hits
                },
                _ => hits,
            }
        },
        None => hits,
    }
}

} // verus!
