//! The components an entity can carry.
//!
//! Every component is a plain value. Lengths, speeds, sizes and hit points
//! are counted in thousandths of a unit (see `fixed`), times in microseconds.

use vstd::prelude::*;
use vstd::std_specs::convert::FromSpecImpl;
use crate::fixed::{min_int, quot, sat32, saturate, SCALE};
use crate::timer::CooldownTimer;

verus! {

/// Time between two frames of an explosion, in microseconds.
pub const EXPLOSION_FRAME_PERIOD: u32 = 50_000;

/// Handle of an entity; stable for as long as the entity lives.
pub type EntityId = u64;

// --- Common components

/// Where an entity is, which way it looks and how large it is drawn.
#[derive(Clone, Copy, Debug, PartialEq, Eq)]
pub struct Transform {
    /// Centre of the entity.
    pub translation: (i32, i32),
    /// The direction the sprite looks along; its length carries no meaning.
    /// `(0, 1)` is straight up.
    pub facing: (i32, i32),
    /// Render scale, in thousandths; bounding boxes are scaled by it.
    pub scale: i32,
}

#[derive(Clone, Copy, Debug, PartialEq, Eq)]
pub struct Velocity {
    pub x: i32,
    pub y: i32,
}

#[derive(Clone, Copy, Debug, PartialEq, Eq)]
pub struct Movable {
    pub auto_despawn: bool,
}

#[derive(Clone, Copy, Debug, PartialEq, Eq)]
pub struct Laser;

#[derive(Clone, Copy, Debug, PartialEq, Eq)]
pub struct ScoreText;

#[derive(Clone, Copy, Debug, PartialEq, Eq)]
pub struct Health {
    pub hp: i32,
    pub multiplier: i32,
}

#[derive(Clone, Copy, Debug, PartialEq, Eq)]
pub struct NumberOfHits {
    pub hits: i32,
}

#[derive(Clone, Copy, Debug, PartialEq, Eq)]
pub struct Damage {
    pub dmg: i32,
    pub limit: i32,
    pub multiplier: i32,
}

impl Damage {
    /// The hit points one hit takes away: the raw damage times the
    /// multiplier, capped by the limit.
    pub open spec fn effective(self) -> int {
        min_int(quot(self.dmg * self.multiplier, SCALE as int), self.limit as int)
    }

    pub fn damage_dealt(&self) -> (dealt: i64)
        ensures
            dealt == self.effective(),
            dealt <= self.limit,
    {
        let raw: i64 = self.dmg as i64;
        let mult: i64 = self.multiplier as i64;
        assert(-0x4000_0000_0000_0000 <= raw * mult <= 0x4000_0000_0000_0000) by (nonlinear_arith)
            requires
                -0x8000_0000 <= raw <= 0x7fff_ffff,
                -0x8000_0000 <= mult <= 0x7fff_ffff,
        ;
        let scaled: i64 = (raw * mult) / (SCALE as i64);
        if scaled > self.limit as i64 {
            self.limit as i64
        } else {
            scaled
        }
    }
}

impl Health {
    /// The health left after losing `dealt` hit points.
    pub open spec fn after(self, dealt: int) -> Health {
        Health { hp: sat32(self.hp - dealt) as i32, multiplier: self.multiplier }
    }

    /// Nothing is left: the entity is to be removed.
    pub open spec fn is_spent(self) -> bool {
        self.hp <= 0
    }

    /// Takes `dealt` hit points away and reports whether none are left.
    pub fn hit(&mut self, dealt: i64) -> (spent: bool)
        ensures
            *final(self) == old(self).after(dealt as int),
            spent == final(self).is_spent(),
    {
        self.hp = saturate(self.hp as i128 - dealt as i128);
        self.hp <= 0
    }
}

/// Width and height of the sprite before scaling.
#[derive(Clone, Copy, Debug, PartialEq, Eq)]
pub struct SpriteSize(pub (i32, i32));

impl From<(i32, i32)> for SpriteSize {
    fn from(val: (i32, i32)) -> (size: Self) {
        SpriteSize((val.0, val.1))
    }
}

impl FromSpecImpl<(i32, i32)> for SpriteSize {
    open spec fn obeys_from_spec() -> bool {
        true
    }

    open spec fn from_spec(val: (i32, i32)) -> Self {
        SpriteSize((val.0, val.1))
    }
}

/// Frame of the sprite sheet that is shown.
#[derive(Clone, Copy, Debug, PartialEq, Eq)]
pub struct SpriteIndex(pub u32);

// --- Player components

#[derive(Clone, Copy, Debug, PartialEq, Eq)]
pub struct Player;

#[derive(Clone, Copy, Debug, PartialEq, Eq)]
pub struct FromPlayer;

// --- Enemy components

#[derive(Clone, Copy, Debug, PartialEq, Eq)]
pub struct Enemy;

#[derive(Clone, Copy, Debug, PartialEq, Eq)]
pub struct FromEnemy;

/// The entity that fired a projectile. The firer may be gone already: look
/// the handle up before use.
#[derive(Clone, Copy, Debug, PartialEq, Eq)]
pub struct ParentEntity {
    pub entity: EntityId,
}

/// What an armed enemy keeps between ticks.
#[derive(Clone, Copy, Debug, PartialEq, Eq)]
pub struct EnemyState {
    pub fire_cooldown: CooldownTimer,
}

// --- Explosion components

#[derive(Clone, Copy, Debug, PartialEq, Eq)]
pub struct Explosion;

/// An explosion waiting to be shown, with the place where it goes off.
#[derive(Clone, Copy, Debug, PartialEq, Eq)]
pub struct ExplosionToSpawn(pub (i32, i32));

#[derive(Clone, Copy, Debug, PartialEq, Eq)]
pub struct ExplosionTimer(pub CooldownTimer);

impl Default for ExplosionTimer {
    fn default() -> (timer: Self)
        ensures
            timer == ExplosionTimer(
                CooldownTimer { remaining: EXPLOSION_FRAME_PERIOD, period: EXPLOSION_FRAME_PERIOD },
            ),
    {
        Self(CooldownTimer::new(EXPLOSION_FRAME_PERIOD))
    }
}

/// Effective damage never exceeds the limit, whatever the signs of the three
/// numbers, and is the scaled product wherever that is within the limit.
pub proof fn lemma_damage_capped(d: Damage)
    ensures
        d.effective() <= d.limit,
        d.effective() == quot(d.dmg * d.multiplier, SCALE as int) || d.effective() == d.limit,
        quot(d.dmg * d.multiplier, SCALE as int) <= d.limit ==> d.effective() == quot(
            d.dmg * d.multiplier,
            SCALE as int,
        ),
{
}

} // verus!
