//! The simulation core of a two-dimensional arcade shooter.
//!
//! The player's ship sits near the lower edge of the viewport and fires at
//! squads of enemies that circle on elliptical formations and fire back.
//! A `world::World` holds the entities and the state they share; the
//! functions of `tick` carry it from one tick to the next, through the
//! systems of `player`, `enemy`, `movement`, `collision` and `explosion`.
//!
//! All numbers are integers. Lengths, speeds, sizes and hit points are
//! counted in thousandths of a unit, times in microseconds, angles in
//! millionths of a radian (see `fixed`). Nothing in here knows a cosine: the
//! caller works out the headings of the enemies from the bearings that a
//! tick hands out.
//!
//! What holds of a world at all times, and of whole runs of ticks, is stated
//! and proved in `invariants`.

pub mod collision;
pub mod components;
pub mod consumed;
pub mod counting;
pub mod enemy;
pub mod explosion;
pub mod fixed;
pub mod invariants;
pub mod movement;
pub mod player;
pub mod resources;
pub mod tick;
pub mod timer;
pub mod world;
