//! Free movement: entities that fly along their velocity, and the removal of
//! those that have left the viewport far behind.

use vstd::prelude::*;
use crate::components::Transform;
use crate::fixed::{quot, sat32, saturate};
use crate::invariants::{handles_ascend, lemma_filter_map_from, lemma_filter_map_holds};
use crate::resources::{WinSize, BASE_SPEED};
use crate::world::{Entity, World, WorldView};

verus! {

/// How far beyond the edge of the viewport an entity may fly before it is
/// removed.
pub const MARGIN: i32 = 200_000;

/// A coordinate after `dt` microseconds at velocity `v`.
pub open spec fn drifted(p: i32, v: i32, dt: u32) -> int {
    sat32(p + quot(v * BASE_SPEED * dt, 1_000_000_000))
}

/// The place lies beyond the viewport and its margin, along some axis.
pub open spec fn out_of_bounds(at: (i32, i32), win_size: WinSize) -> bool {
    ||| at.1 > quot(win_size.h as int, 2) + MARGIN
    ||| at.1 < -quot(win_size.h as int, 2) - MARGIN
    ||| at.0 > quot(win_size.w as int, 2) + MARGIN
    ||| at.0 < -quot(win_size.w as int, 2) - MARGIN
}

/// The entity moves freely: it has a velocity, a transform and is movable.
pub open spec fn is_free_mover(e: Entity) -> bool {
    e.velocity.is_some() && e.transform.is_some() && e.movable.is_some()
}

/// Where a free mover is after `dt` microseconds.
pub open spec fn flown(e: Entity, dt: u32) -> (i32, i32) {
    (
        drifted(e.transform.unwrap().translation.0, e.velocity.unwrap().x, dt) as i32,
        drifted(e.transform.unwrap().translation.1, e.velocity.unwrap().y, dt) as i32,
    )
}

/// What becomes of an entity in one movement phase: a free mover flies on,
/// and is gone if it is to be removed out of bounds and has got there; any
/// other entity stays as it is.
pub open spec fn moved(e: Entity, win_size: WinSize, dt: u32) -> Option<Entity> {
    if is_free_mover(e) {
        if e.movable.unwrap().auto_despawn && out_of_bounds(flown(e, dt), win_size) {
            None
        } else {
            Some(
                Entity {
                    transform: Some(
                        Transform { translation: flown(e, dt), ..e.transform.unwrap() },
                    ),
                    ..e
                },
            )
        }
    } else {
        Some(e)
    }
}

/// `moved`, as a function of the entity alone.
pub open spec fn moved_in(win_size: WinSize, dt: u32) -> spec_fn(Entity) -> Option<Entity> {
    |e: Entity| moved(e, win_size, dt)
}

impl WorldView {
    /// The world after all free movers have moved: what is left of each
    /// entity, in the same order.
    pub open spec fn after_free_movement(self, dt: u32) -> WorldView {
        WorldView { entities: self.entities.filter_map(moved_in(self.res.win_size, dt)), ..self }
    }
}

/// A coordinate after `dt` microseconds at velocity `v`.
fn drift(p: i32, v: i32, dt: u32) -> (r: i32)
    ensures
        r == drifted(p, v, dt),
{
    let speed: i128 = BASE_SPEED as i128;
    assert(-0x1_0000_0000_0000_0000_0000_0000 <= (v as i128) * speed * (dt as i128)
        <= 0x1_0000_0000_0000_0000_0000_0000) by (nonlinear_arith)
        requires
            -0x8000_0000 <= v <= 0x7fff_ffff,
            speed == 500_000,
            0 <= dt <= 0xffff_ffff,
    ;
    assert(-0x1_0000_0000_0000_0000 <= (v as i128) * speed <= 0x1_0000_0000_0000_0000)
        by (nonlinear_arith)
        requires
            -0x8000_0000 <= v <= 0x7fff_ffff,
            speed == 500_000,
    ;
    let step: i128 = (v as i128) * speed * (dt as i128) / 1_000_000_000;
    saturate(p as i128 + step)
}

/// Whether a place lies beyond the viewport and its margin.
fn is_out_of_bounds(at: (i32, i32), win_size: &WinSize) -> (out: bool)
    ensures
        out == out_of_bounds(at, *win_size),
{
    let half_h: i64 = (win_size.h / 2) as i64;
    let half_w: i64 = (win_size.w / 2) as i64;
    let margin: i64 = MARGIN as i64;
    let x: i64 = at.0 as i64;
    let y: i64 = at.1 as i64;
    y > half_h + margin || y < -half_h - margin || x > half_w + margin || x < -half_w - margin
}

/// What becomes of one entity in a movement phase.
fn move_one(e: Entity, win_size: &WinSize, dt: u32) -> (r: Option<Entity>)
    ensures
        r == moved(e, *win_size, dt),
{
    match (e.velocity, e.transform, e.movable) {
        (Some(velocity), Some(transform), Some(movable)) => {
            let x: i32 = drift(transform.translation.0, velocity.x, dt);
            let y: i32 = drift(transform.translation.1, velocity.y, dt);
            if movable.auto_despawn && is_out_of_bounds((x, y), win_size) {
                None
            } else {
                let mut next: Entity = e;
                next.transform = Some(
                    Transform {
                        translation: (x, y),
                        facing: transform.facing,
                        scale: transform.scale,
                    },
                );
                Some(next)
            }
        },
        _ => Some(e),
    }
}

/// Moves every free mover along its velocity and removes those that are to
/// be removed out of bounds and have left the viewport and its margin.
pub fn movable_system(world: &mut World, dt: u32)
    ensures
        final(world)@ == old(world)@.after_free_movement(dt),
{
    let ghost before: Seq<Entity> = world.entities@;
    let ghost f = moved_in(world.res.win_size, dt);
    let mut kept: Vec<Entity> = Vec::new();
    let mut i: usize = 0;
    assert(before.take(0).filter_map(f) =~= Seq::<Entity>::empty());
    while i < world.entities.len()
        invariant
            i <= before.len(),
            world.entities@ == before,
            world.res == old(world).res,
            f == moved_in(world.res.win_size, dt),
            kept@ == before.take(i as int).filter_map(f),
        decreases before.len() - i,
    {
        proof {
            before.lemma_filter_map_take_succ(f, i as int);
        }
        match move_one(world.entities[i], &world.res.win_size, dt) {
            Some(e) => {
                kept.push(e);
            },
            None => {},
        }
        i = i + 1;
    }
    assert(before.take(before.len() as int) =~= before);
    world.entities = kept;
}

/// An entity that a movement phase removes is gone: where no two entities
/// share a handle, nothing is left under its handle.
pub proof fn lemma_removed_is_gone(w: WorldView, dt: u32, i: int, k: int)
    requires
        handles_ascend(w.entities, w.res.next_id),
        0 <= i < w.entities.len(),
        moved(w.entities[i], w.res.win_size, dt).is_none(),
        0 <= k < w.after_free_movement(dt).entities.len(),
    ensures
        w.after_free_movement(dt).entities[k].id != w.entities[i].id,
{
    let f = moved_in(w.res.win_size, dt);
    lemma_filter_map_from(w.entities, f, k);
    let j = choose|j: int|
        0 <= j < w.entities.len() && f(#[trigger] w.entities[j]) == Some(
            w.after_free_movement(dt).entities[k],
        );
    assert(f(w.entities[j]) == moved(w.entities[j], w.res.win_size, dt));
    assert(f(w.entities[i]) == moved(w.entities[i], w.res.win_size, dt));
    if j < i {
        assert(w.entities[j].id < w.entities[i].id);
    } else if i < j {
        assert(w.entities[i].id < w.entities[j].id);
    }
}

/// An entity that a movement phase does not remove is there after it, as
/// the phase has left it.
pub proof fn lemma_kept_is_there(w: WorldView, dt: u32, i: int)
    requires
        0 <= i < w.entities.len(),
        moved(w.entities[i], w.res.win_size, dt).is_some(),
    ensures
        exists|k: int|
            0 <= k < w.after_free_movement(dt).entities.len() && #[trigger] w.after_free_movement(
                dt,
            ).entities[k] == moved(w.entities[i], w.res.win_size, dt).unwrap(),
{
    let f = moved_in(w.res.win_size, dt);
    assert(f(w.entities[i]) == moved(w.entities[i], w.res.win_size, dt));
    lemma_filter_map_holds(w.entities, f, i);
    let k = choose|k: int|
        0 <= k < w.entities.filter_map(f).len() && #[trigger] w.entities.filter_map(f)[k] == f(
            w.entities[i],
        ).unwrap();
    assert(w.after_free_movement(dt).entities[k] == moved(w.entities[i], w.res.win_size, dt).unwrap());
}

/// An entity that flies freely and is to be removed out of bounds is gone
/// after a movement phase exactly if the phase has carried it beyond the
/// viewport and its margin; no other entity is ever removed. An entity at
/// rest stays where it is.
pub proof fn lemma_bounds_despawn(e: Entity, win_size: WinSize, dt: u32)
    ensures
        moved(e, win_size, dt).is_none() <==> is_free_mover(e) && e.movable.unwrap().auto_despawn
            && out_of_bounds(flown(e, dt), win_size),
        is_free_mover(e) && e.velocity.unwrap().x == 0 && e.velocity.unwrap().y == 0
            ==> flown(e, dt)
            == e.transform.unwrap().translation,
{
    if is_free_mover(e) && e.velocity.unwrap().x == 0 && e.velocity.unwrap().y == 0 {
        assert(0 * BASE_SPEED * dt == 0) by (nonlinear_arith);
    }
}

} // verus!
