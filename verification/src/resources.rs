//! The constants of the game and the state shared by all systems.

use vstd::prelude::*;
use crate::components::Health;
use crate::timer::CooldownTimer;

verus! {

// --- Asset constants

pub const PLAYER_SIZE: (i32, i32) = (144_000, 75_000);

pub const PLAYER_LASER_SIZE: (i32, i32) = (9_000, 54_000);

/// Time between the player's death and the next player, in microseconds.
pub const PLAYER_RESPAWN_DELAY: u32 = 2_000_000;

pub const ENEMY_SIZE: (i32, i32) = (144_000, 75_000);

pub const ENEMY_LASER_SIZE: (i32, i32) = (9_000, 54_000);

pub const SPRITE_SCALE: i32 = 500;

/// Number of frames of an explosion.
pub const EXPLOSION_LEN: u32 = 16;

pub const ENEMY_MAX: u32 = 5;

pub const FORMATION_MEMBERS_MAX: u32 = 1;

// --- Game constants

/// The length of one tick at sixty ticks a second, in microseconds.
pub const TIME_STEP: u32 = 16_667;

/// Distance covered in one second at velocity one.
pub const BASE_SPEED: i32 = 500_000;

/// What a newly spawned player can take.
pub const PLAYER_HP: i32 = 3_000;

/// What a newly spawned enemy can take.
pub const ENEMY_HP: i32 = 2_000;

/// Time after a spawn during which hostile fire passes through the player.
pub const PLAYER_GRACE: u64 = 2_000_000;

/// Time between two shots of the player.
pub const PLAYER_FIRE_PERIOD: u32 = 200_000;

/// Time between two shots of one enemy.
pub const ENEMY_FIRE_PERIOD: u32 = 1_000_000;

/// Time between two attempts to bring in a new enemy.
pub const ENEMY_SPAWN_PERIOD: u32 = 1_500_000;

/// Until this much time has passed since the start, enemy fire is weak.
pub const ENEMY_WARMUP: u64 = 10_000_000;

/// What one tick with a key held adds to the player's speed.
pub const ACCELERATION: i32 = 1_000;

/// The player's top speed along each axis, per tick.
pub const MAX_VELOCITY: i32 = 15_000;

/// Points for one enemy destroyed.
pub const KILL_SCORE: u64 = 1;

// --- Resources

/// Size of the viewport. The origin is at its centre.
#[derive(Clone, Copy, Debug, PartialEq, Eq)]
pub struct WinSize {
    pub w: i32,
    pub h: i32,
}

impl WinSize {
    /// Both dimensions are positive.
    pub open spec fn is_valid(self) -> bool {
        self.w > 0 && self.h > 0
    }
}

/// What can be tuned before a simulation starts.
#[derive(Clone, Copy, Debug, PartialEq, Eq)]
pub struct Config {
    /// The largest number of enemies alive at one time.
    pub enemy_max: u32,
    /// The number of enemies that share one formation.
    pub squad_cap: u32,
    /// Time between the player's death and the next player, in microseconds.
    pub respawn_delay: u32,
    /// Number of frames an explosion runs through before it is removed.
    pub explosion_frames: u32,
}

impl Config {
    /// Every count is at least one.
    pub open spec fn is_valid(self) -> bool {
        self.enemy_max >= 1 && self.squad_cap >= 1 && self.explosion_frames >= 1
    }
}

impl Default for Config {
    fn default() -> (config: Self)
        ensures
            config == (Config {
                enemy_max: ENEMY_MAX,
                squad_cap: FORMATION_MEMBERS_MAX,
                respawn_delay: PLAYER_RESPAWN_DELAY,
                explosion_frames: EXPLOSION_LEN,
            }),
            config.is_valid(),
    {
        Config {
            enemy_max: ENEMY_MAX,
            squad_cap: FORMATION_MEMBERS_MAX,
            respawn_delay: PLAYER_RESPAWN_DELAY,
            explosion_frames: EXPLOSION_LEN,
        }
    }
}

/// Why a simulation cannot start.
#[derive(Clone, Copy, Debug, PartialEq, Eq)]
pub enum ConfigError {
    /// The viewport has a dimension that is zero or negative.
    EmptyViewport,
    /// No enemy would ever be allowed.
    NoEnemies,
    /// A formation would have no member.
    NoSquad,
    /// An explosion would have no frame.
    NoFrames,
}

/// Number of enemies alive.
#[derive(Clone, Copy, Debug, PartialEq, Eq)]
pub struct EnemyCount(pub u32);

/// One of the four directions the player can aim along.
#[derive(Clone, Copy, Debug, PartialEq, Eq, Structural)]
pub enum Direction {
    Up,
    Down,
    Left,
    Right,
}

impl Direction {
    /// The unit vector of the direction.
    pub open spec fn unit(self) -> (i32, i32) {
        match self {
            Direction::Up => (0i32, 1000i32),
            Direction::Down => (0i32, -1000i32),
            Direction::Left => (-1000i32, 0i32),
            Direction::Right => (1000i32, 0i32),
        }
    }

    pub fn vector(&self) -> (v: (i32, i32))
        ensures
            v == self.unit(),
    {
        match self {
            Direction::Up => (0, 1000),
            Direction::Down => (0, -1000),
            Direction::Left => (-1000, 0),
            Direction::Right => (1000, 0),
        }
    }
}

/// What the player asks for in one tick, already decoded from the keys.
#[derive(Clone, Copy, Debug, PartialEq, Eq)]
pub struct Intent {
    pub left: bool,
    pub right: bool,
    pub down: bool,
    pub up: bool,
    /// The direction held for firing, if any: while one is held, the player
    /// fires.
    pub aim: Option<Direction>,
}

#[derive(Clone, Copy, Debug, PartialEq, Eq)]
pub struct PlayerState {
    pub on: bool,
    /// When the player was last destroyed; `None` while alive or before the
    /// first death.
    pub last_shot: Option<u64>,
    pub health: Health,
    pub last_fired: Option<u64>,
    pub last_spawned: Option<u64>,
    pub score: u64,
    /// Runs while there is no player; a new one appears when it has run down.
    pub spawn_cooldown: CooldownTimer,
    pub fire_cooldown: CooldownTimer,
    /// Speed of the player along each axis, per tick.
    pub delta_x: i32,
    pub delta_y: i32,
    pub aim: Direction,
    pub firing: bool,
}

impl PlayerState {
    /// The state after the player was destroyed at `time`: the wait for the
    /// next player starts over.
    pub open spec fn after_shot(self, time: u64) -> PlayerState {
        PlayerState {
            on: false,
            last_shot: Some(time),
            spawn_cooldown: self.spawn_cooldown.rewound(),
            ..self
        }
    }

    /// The state after a player appeared at `time`.
    pub open spec fn after_spawned(self, time: u64) -> PlayerState {
        PlayerState { on: true, last_shot: None, last_spawned: Some(time), ..self }
    }

    /// Whether hostile fire passes through the player at `now`: only for
    /// `PLAYER_GRACE` microseconds after a spawn, that moment included.
    pub open spec fn shielded(self, now: u64) -> bool {
        match self.last_spawned {
            Some(at) => now - at <= PLAYER_GRACE,
            None => false,
        }
    }

    /// The state before the first tick: no player yet, none shot, nothing
    /// scored, the guns cool, and a player due at once.
    pub open spec fn initial(respawn_delay: u32) -> PlayerState {
        PlayerState {
            on: false,
            last_shot: None,
            health: Health { hp: PLAYER_HP, multiplier: 0 },
            last_fired: None,
            last_spawned: None,
            score: 0,
            spawn_cooldown: CooldownTimer { remaining: 0, period: respawn_delay },
            fire_cooldown: CooldownTimer { remaining: 0, period: PLAYER_FIRE_PERIOD },
            delta_x: 0,
            delta_y: 0,
            aim: Direction::Up,
            firing: false,
        }
    }

    /// The state before the first tick, with a player due at once and then
    /// `respawn_delay` microseconds after each death.
    pub fn new(respawn_delay: u32) -> (state: Self)
        ensures
            state == PlayerState::initial(respawn_delay),
    {
        PlayerState {
            on: false,
            last_shot: None,
            health: Health { hp: PLAYER_HP, multiplier: 0 },
            last_fired: None,
            last_spawned: None,
            score: 0,
            spawn_cooldown: CooldownTimer::elapsed(respawn_delay),
            fire_cooldown: CooldownTimer::elapsed(PLAYER_FIRE_PERIOD),
            delta_x: 0,
            delta_y: 0,
            aim: Direction::Up,
            firing: false,
        }
    }

    pub fn shot(&mut self, time: u64)
        ensures
            *final(self) == old(self).after_shot(time),
    {
        self.on = false;
        self.last_shot = Some(time);
        self.spawn_cooldown.reset();
    }

    pub fn spawned(&mut self, time: u64)
        ensures
            *final(self) == old(self).after_spawned(time),
    {
        self.on = true;
        self.last_shot = None;
        self.last_spawned = Some(time);
    }

    pub fn fired(&mut self, time: u64)
        ensures
            *final(self) == (PlayerState { last_fired: Some(time), ..*old(self) }),
    {
        self.last_fired = Some(time);
    }

    /// Whether hostile fire passes through the player at `now`.
    pub fn is_shielded(&self, now: u64) -> (shielded: bool)
        ensures
            shielded == self.shielded(now),
    {
        match self.last_spawned {
            Some(at) => now <= at || now - at <= PLAYER_GRACE,
            None => false,
        }
    }
}

impl Default for PlayerState {
    fn default() -> (state: Self)
        ensures
            state == PlayerState::initial(PLAYER_RESPAWN_DELAY),
    {
        PlayerState::new(PLAYER_RESPAWN_DELAY)
    }
}

} // verus!
