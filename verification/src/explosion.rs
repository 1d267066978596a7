//! Explosions: from the record a death leaves behind to the last frame.

use vstd::prelude::*;
use crate::components::{
    Explosion, ExplosionTimer, SpriteIndex, Transform, EXPLOSION_FRAME_PERIOD,
};
use crate::timer::{elapsed_in, lemma_cycled_keeps_time, lemma_elapsed_grows, CooldownTimer};
use crate::world::{Entity, World, WorldView};

verus! {

/// The explosion that goes off at `at`, at its first frame.
pub open spec fn explosion_at(at: (i32, i32)) -> Entity {
    Entity {
        transform: Some(Transform { translation: at, facing: (0, 1000), scale: 1000 }),
        explosion: Some(Explosion),
        explosion_timer: Some(
            ExplosionTimer(
                CooldownTimer { remaining: EXPLOSION_FRAME_PERIOD, period: EXPLOSION_FRAME_PERIOD },
            ),
        ),
        sprite_index: Some(SpriteIndex(0)),
        ..Entity::bare()
    }
}

/// An entity as the making of explosions leaves it: gone if it is the
/// record of an explosion to be made.
pub open spec fn unless_pending() -> spec_fn(Entity) -> Option<Entity> {
    |e: Entity|
        if e.explosion_to_spawn.is_some() {
            None
        } else {
            Some(e)
        }
}

/// The explosion is running: it has a timer and shows a frame.
pub open spec fn is_animating(e: Entity) -> bool {
    e.explosion.is_some() && e.explosion_timer.is_some() && e.sprite_index.is_some()
}

/// The frame an explosion shows after `dt` microseconds: one further for
/// each time its timer fires.
pub open spec fn frame_after(e: Entity, dt: u32) -> int {
    e.sprite_index.unwrap().0 + e.explosion_timer.unwrap().0.fires(dt)
}

/// What becomes of an entity within `dt` microseconds of animation: a
/// running explosion moves on through its frames and is gone once it has
/// shown `frames` of them; any other entity stays as it is.
pub open spec fn animated(e: Entity, frames: u32, dt: u32) -> Option<Entity> {
    if is_animating(e) {
        if frame_after(e, dt) >= frames {
            None
        } else {
            Some(
                Entity {
                    explosion_timer: Some(ExplosionTimer(e.explosion_timer.unwrap().0.cycled(dt))),
                    sprite_index: Some(SpriteIndex(frame_after(e, dt) as u32)),
                    ..e
                },
            )
        }
    } else {
        Some(e)
    }
}

/// `animated`, as a function of the entity alone.
pub open spec fn animated_in(frames: u32, dt: u32) -> spec_fn(Entity) -> Option<Entity> {
    |e: Entity| animated(e, frames, dt)
}

impl WorldView {
    /// The world after the records among the first `n` of `records` were
    /// turned into explosions.
    pub open spec fn exploded(self, records: Seq<Entity>, n: int) -> WorldView
        decreases n,
    {
        if n <= 0 {
            self
        } else {
            match records[n - 1].explosion_to_spawn {
                Some(pending) => self.exploded(records, n - 1).spawned(explosion_at(pending.0)),
                None => self.exploded(records, n - 1),
            }
        }
    }

    /// The world without the records of explosions to be made.
    pub open spec fn without_records(self) -> WorldView {
        WorldView { entities: self.entities.filter_map(unless_pending()), ..self }
    }

    /// The world after every record of an explosion to be made was replaced
    /// by the explosion itself, at the recorded place and at its first frame.
    pub open spec fn after_explosions_spawned(self) -> WorldView {
        self.without_records().exploded(self.entities, self.entities.len() as int)
    }

    /// The world after all running explosions went on by `dt` microseconds.
    pub open spec fn after_animation(self, dt: u32) -> WorldView {
        WorldView {
            entities: self.entities.filter_map(animated_in(self.res.config.explosion_frames, dt)),
            ..self
        }
    }
}

/// Replaces every record of an explosion to be made by the explosion itself.
pub fn explosion_to_spawn_system(world: &mut World)
    ensures
        final(world)@ == old(world)@.after_explosions_spawned(),
{
    let ghost before: Seq<Entity> = world.entities@;
    let ghost f = unless_pending();
    let mut kept: Vec<Entity> = Vec::new();
    let mut i: usize = 0;
    assert(before.take(0).filter_map(f) =~= Seq::<Entity>::empty());
    while i < world.entities.len()
        invariant
            i <= before.len(),
            world@ == old(world)@,
            before == old(world)@.entities,
            f == unless_pending(),
            kept@ == before.take(i as int).filter_map(f),
        decreases before.len() - i,
    {
        proof {
            before.lemma_filter_map_take_succ(f, i as int);
        }
        let e: Entity = world.entities[i];
        if e.explosion_to_spawn.is_none() {
            kept.push(e);
        }
        i = i + 1;
    }
    assert(before.take(before.len() as int) =~= before);
    std::mem::swap(&mut world.entities, &mut kept);
    let records: Vec<Entity> = kept;
    let ghost cleared: WorldView = world@;
    let mut k: usize = 0;
    while k < records.len()
        invariant
            k <= records.len(),
            records@ == before,
            cleared == old(world)@.without_records(),
            world@ == cleared.exploded(before, k as int),
        decreases records.len() - k,
    {
        match records[k].explosion_to_spawn {
            Some(pending) => {
                let template = Entity {
                    transform: Some(
                        Transform { translation: pending.0, facing: (0, 1000), scale: 1000 },
                    ),
                    explosion: Some(Explosion),
                    explosion_timer: Some(ExplosionTimer::default()),
                    sprite_index: Some(SpriteIndex(0)),
                    ..Entity::new()
                };
                world.spawn(template);
            },
            None => {},
        }
        k = k + 1;
    }
}

/// What becomes of one entity within `dt` microseconds of animation.
fn animate_one(e: Entity, frames: u32, dt: u32) -> (r: Option<Entity>)
    ensures
        r == animated(e, frames, dt),
{
    match (e.explosion, e.explosion_timer, e.sprite_index) {
        (Some(_), Some(timer), Some(index)) => {
            let mut timer: CooldownTimer = timer.0;
            let fired: u64 = timer.tick_repeating(dt);
            let frame: u64 = index.0 as u64 + fired;
            if frame >= frames as u64 {
                None
            } else {
                let mut next: Entity = e;
                next.explosion_timer = Some(ExplosionTimer(timer));
                next.sprite_index = Some(SpriteIndex(frame as u32));
                Some(next)
            }
        },
        _ => Some(e),
    }
}

/// Moves every running explosion on by `dt` microseconds and removes those
/// that have shown their last frame.
pub fn explosion_animation_system(world: &mut World, dt: u32)
    ensures
        final(world)@ == old(world)@.after_animation(dt),
{
    let ghost before: Seq<Entity> = world.entities@;
    let frames: u32 = world.res.config.explosion_frames;
    let ghost f = animated_in(frames, dt);
    let mut kept: Vec<Entity> = Vec::new();
    let mut i: usize = 0;
    assert(before.take(0).filter_map(f) =~= Seq::<Entity>::empty());
    while i < world.entities.len()
        invariant
            i <= before.len(),
            world@ == old(world)@,
            before == old(world)@.entities,
            f == animated_in(frames, dt),
            kept@ == before.take(i as int).filter_map(f),
        decreases before.len() - i,
    {
        proof {
            before.lemma_filter_map_take_succ(f, i as int);
        }
        match animate_one(world.entities[i], frames, dt) {
            Some(e) => {
                kept.push(e);
            },
            None => {},
        }
        i = i + 1;
    }
    assert(before.take(before.len() as int) =~= before);
    world.entities = kept;
}

/// What is left of an explosion after the first `n` of a run of animation
/// phases, `dts` being the time that each phase covers.
pub open spec fn animation_run(e: Entity, frames: u32, dts: Seq<u32>, n: int) -> Option<Entity>
    decreases n,
{
    if n <= 0 {
        Some(e)
    } else {
        match animation_run(e, frames, dts, n - 1) {
            Some(prev) => animated(prev, frames, dts[n - 1]),
            None => None,
        }
    }
}

/// Each record among those turned into explosions has its explosion.
proof fn lemma_exploded_holds(w: WorldView, records: Seq<Entity>, n: int, i: int)
    requires
        0 <= i < n <= records.len(),
        records[i].explosion_to_spawn.is_some(),
    ensures
        exists|k: int|
            0 <= k < w.exploded(records, n).entities.len() && #[trigger] w.exploded(
                records,
                n,
            ).entities[k] == (Entity {
                id: w.exploded(records, n).entities[k].id,
                ..explosion_at(records[i].explosion_to_spawn.unwrap().0)
            }),
    decreases n,
{
    let prev = w.exploded(records, n - 1);
    let now = w.exploded(records, n);
    if i == n - 1 {
        let k = prev.entities.len() as int;
        assert(now.entities[k] == (Entity {
            id: now.entities[k].id,
            ..explosion_at(records[i].explosion_to_spawn.unwrap().0)
        }));
    } else {
        lemma_exploded_holds(w, records, n - 1, i);
        let k = choose|k: int|
            0 <= k < prev.entities.len() && #[trigger] prev.entities[k] == (Entity {
                id: prev.entities[k].id,
                ..explosion_at(records[i].explosion_to_spawn.unwrap().0)
            });
        assert(now.entities[k] == prev.entities[k]);
    }
}

/// Every record of an explosion to be made becomes an explosion at the
/// recorded place, at its first frame and with a full period to run.
pub proof fn lemma_record_becomes_explosion(w: WorldView, i: int)
    requires
        0 <= i < w.entities.len(),
        w.entities[i].explosion_to_spawn.is_some(),
    ensures
        exists|k: int|
            0 <= k < w.after_explosions_spawned().entities.len()
                && #[trigger] w.after_explosions_spawned().entities[k] == (Entity {
                id: w.after_explosions_spawned().entities[k].id,
                ..explosion_at(w.entities[i].explosion_to_spawn.unwrap().0)
            }),
{
    lemma_exploded_holds(w.without_records(), w.entities, w.entities.len() as int, i);
}

/// Once explosions were made, no record of an explosion to be made is left.
pub proof fn lemma_no_record_left(w: WorldView, k: int)
    requires
        0 <= k < w.after_explosions_spawned().entities.len(),
    ensures
        w.after_explosions_spawned().entities[k].explosion_to_spawn.is_none(),
{
    let cleared = w.without_records();
    assert forall|i: int| 0 <= i < cleared.entities.len() implies (
    #[trigger] cleared.entities[i]).explosion_to_spawn.is_none() by {
        lemma_kept_are_no_records(w.entities, i);
    }
    lemma_exploded_has_no_record(cleared, w.entities, w.entities.len() as int, k);
}

proof fn lemma_kept_are_no_records(entities: Seq<Entity>, k: int)
    requires
        0 <= k < entities.filter_map(unless_pending()).len(),
    ensures
        entities.filter_map(unless_pending())[k].explosion_to_spawn.is_none(),
    decreases entities.len(),
{
    if entities.len() > 0 {
        let rest = entities.drop_last();
        if k < rest.filter_map(unless_pending()).len() {
            lemma_kept_are_no_records(rest, k);
        }
    }
}

proof fn lemma_exploded_has_no_record(w: WorldView, records: Seq<Entity>, n: int, k: int)
    requires
        forall|i: int|
            0 <= i < w.entities.len()
                ==> (#[trigger] w.entities[i]).explosion_to_spawn.is_none(),
        0 <= k < w.exploded(records, n).entities.len(),
    ensures
        w.exploded(records, n).entities[k].explosion_to_spawn.is_none(),
    decreases n,
{
    if n > 0 {
        let prev = w.exploded(records, n - 1);
        if k < prev.entities.len() {
            lemma_exploded_has_no_record(w, records, n - 1, k);
        }
    }
}

/// An explosion at its first frame, with a timer wound up for one period,
/// shows the frame that the time elapsed so far has reached, one frame for
/// each full period, and is removed by the first animation phase at which
/// `frames` periods have gone by.
pub proof fn lemma_explosion_lifetime(e: Entity, frames: u32, dts: Seq<u32>, n: int)
    requires
        is_animating(e),
        e.sprite_index.unwrap().0 == 0,
        e.explosion_timer.unwrap().0.period > 0,
        e.explosion_timer.unwrap().0.remaining == e.explosion_timer.unwrap().0.period,
        frames >= 1,
        0 <= n <= dts.len(),
    ensures
        elapsed_in(dts, n) >= frames * e.explosion_timer.unwrap().0.period <==> animation_run(
            e,
            frames,
            dts,
            n,
        ).is_none(),
        match animation_run(e, frames, dts, n) {
            Some(now) => {
                &&& is_animating(now)
                &&& now.explosion_timer.unwrap().0.period == e.explosion_timer.unwrap().0.period
                &&& 0 < now.explosion_timer.unwrap().0.remaining <= now.explosion_timer.unwrap().0.period
                &&& now.sprite_index.unwrap().0 * now.explosion_timer.unwrap().0.period
                    + now.explosion_timer.unwrap().0.progress() == elapsed_in(dts, n)
            },
            None => true,
        },
    decreases n,
{
    let period: int = e.explosion_timer.unwrap().0.period as int;
    assert(frames * period >= 1) by (nonlinear_arith)
        requires
            frames >= 1,
            period >= 1,
    ;
    if n > 0 {
        lemma_explosion_lifetime(e, frames, dts, n - 1);
        lemma_elapsed_grows(dts, n - 1);
        match animation_run(e, frames, dts, n - 1) {
            Some(prev) => {
                let timer = prev.explosion_timer.unwrap().0;
                let dt = dts[n - 1];
                lemma_cycled_keeps_time(timer, dt);
                let frame = frame_after(prev, dt);
                let index = prev.sprite_index.unwrap().0 as int;
                let fired = timer.fires(dt);
                let rest = timer.cycled(dt).progress();
                assert(frame * period + rest == elapsed_in(dts, n)) by (nonlinear_arith)
                    requires
                        frame == index + fired,
                        fired * period + rest == timer.progress() + dt,
                        index * period + timer.progress() == elapsed_in(dts, n - 1),
                        elapsed_in(dts, n) == elapsed_in(dts, n - 1) + dt,
                ;
                assert(frame >= frames <==> elapsed_in(dts, n) >= frames * period) by (nonlinear_arith)
                    requires
                        frame * period + rest == elapsed_in(dts, n),
                        0 <= rest < period,
                ;
            },
            None => {},
        }
    }
}

} // verus!
