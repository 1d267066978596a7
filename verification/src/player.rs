//! The player: how it comes in, steers and fires.

use vstd::prelude::*;
use crate::components::{
    Damage, FromPlayer, Health, Laser, Movable, Player, SpriteSize, Transform, Velocity,
};
use crate::fixed::{quot, sat32, saturate};
use crate::resources::{
    Intent, PlayerState, WinSize, ACCELERATION, MAX_VELOCITY, PLAYER_HP, PLAYER_LASER_SIZE,
    PLAYER_SIZE, SPRITE_SCALE,
};
use crate::world::{Entity, Resources, World, WorldView};

verus! {

/// How far above the lower edge of the viewport the player comes in.
pub const PLAYER_RISE: i32 = 23_750;

/// The damage a shot of the player carries.
pub open spec fn player_damage() -> Damage {
    Damage { dmg: 10_000, multiplier: 1_000, limit: 5_000 }
}

/// The speed along one axis after the keys were applied: one step down for
/// `minus`, one up for `plus`, kept within the top speed.
pub open spec fn thrust(delta: i32, minus: bool, plus: bool) -> int {
    let pushed = delta - (if minus {
        ACCELERATION as int
    } else {
        0
    }) + (if plus {
        ACCELERATION as int
    } else {
        0
    });
    if pushed < -MAX_VELOCITY {
        -MAX_VELOCITY as int
    } else if pushed > MAX_VELOCITY {
        MAX_VELOCITY as int
    } else {
        pushed
    }
}

/// The speed left for the next tick: nine tenths of it.
pub open spec fn decayed(delta: int) -> int {
    quot(delta * 9, 10)
}

/// The player's state after one tick of input.
pub open spec fn steered(state: PlayerState, intent: Intent) -> PlayerState {
    PlayerState {
        delta_x: decayed(thrust(state.delta_x, intent.left, intent.right)) as i32,
        delta_y: decayed(thrust(state.delta_y, intent.down, intent.up)) as i32,
        aim: match intent.aim {
            Some(aim) => aim,
            None => state.aim,
        },
        firing: intent.aim.is_some(),
        ..state
    }
}

/// The player's transform after one tick of input: moved by the speed the
/// keys give, and turned to the aim where the aim has changed.
pub open spec fn steered_transform(t: Transform, state: PlayerState, intent: Intent) -> Transform {
    Transform {
        translation: (
            sat32(t.translation.0 + thrust(state.delta_x, intent.left, intent.right)) as i32,
            sat32(t.translation.1 + thrust(state.delta_y, intent.down, intent.up)) as i32,
        ),
        facing: if steered(state, intent).aim != state.aim {
            steered(state, intent).aim.unit()
        } else {
            t.facing
        },
        ..t
    }
}

/// The entity a new player starts as.
pub open spec fn player_template(win_size: WinSize) -> Entity {
    Entity {
        transform: Some(
            Transform {
                translation: (0, (-quot(win_size.h as int, 2) + PLAYER_RISE) as i32),
                facing: (0, 1000),
                scale: SPRITE_SCALE,
            },
        ),
        player: Some(Player),
        sprite_size: Some(SpriteSize(PLAYER_SIZE)),
        movable: Some(Movable { auto_despawn: false }),
        velocity: Some(Velocity { x: 0, y: 0 }),
        ..Entity::bare()
    }
}

/// The shot a player at `t` fires in state `state`: it starts where the
/// player is and flies along the aim, at unit length.
pub open spec fn player_laser(t: Transform, state: PlayerState) -> Entity {
    Entity {
        transform: Some(
            Transform { translation: t.translation, facing: t.facing, scale: SPRITE_SCALE },
        ),
        from_player: Some(FromPlayer),
        laser: Some(Laser),
        damage: Some(player_damage()),
        sprite_size: Some(SpriteSize(PLAYER_LASER_SIZE)),
        movable: Some(Movable { auto_despawn: true }),
        velocity: Some(Velocity { x: state.aim.unit().0, y: state.aim.unit().1 }),
        ..Entity::bare()
    }
}

impl WorldView {
    /// The place of the player, if there is one with a transform and a
    /// velocity.
    pub open spec fn steerable_player(self) -> Option<int> {
        match self.player_at() {
            Some(i) => if self.entities[i].transform.is_some()
                && self.entities[i].velocity.is_some() {
                Some(i)
            } else {
                None
            },
            None => None,
        }
    }

    /// The world after the player's input was applied. Without a player
    /// nothing changes.
    pub open spec fn after_input(self, intent: Intent) -> WorldView {
        match self.steerable_player() {
            Some(i) => WorldView {
                entities: self.entities.update(
                    i,
                    Entity {
                        transform: Some(
                            steered_transform(
                                self.entities[i].transform.unwrap(),
                                self.res.player_state,
                                intent,
                            ),
                        ),
                        ..self.entities[i]
                    },
                ),
                res: Resources { player_state: steered(self.res.player_state, intent), ..self.res },
            },
            None => self,
        }
    }

    /// The world after the wait for a player went on by `dt` microseconds.
    /// While a player is on, nothing changes. Otherwise the cooldown runs,
    /// and when it has run down a player comes in at full health.
    pub open spec fn after_player_spawn(self, dt: u32) -> WorldView {
        let state = self.res.player_state;
        if state.on {
            self
        } else {
            let waited = PlayerState { spawn_cooldown: state.spawn_cooldown.ticked(dt), ..state };
            if waited.spawn_cooldown.is_finished() {
                WorldView {
                    res: Resources {
                        player_state: PlayerState {
                            health: Health { hp: PLAYER_HP, multiplier: 1_000 },
                            ..waited.after_spawned(self.res.clock)
                        },
                        ..self.res
                    },
                    ..self
                }.spawned(player_template(self.res.win_size))
            } else {
                WorldView { res: Resources { player_state: waited, ..self.res }, ..self }
            }
        }
    }

    /// The world after the player's gun went on by `dt` microseconds. The
    /// cooldown runs while there is a player; once it has run down, the
    /// first tick with the player firing brings a shot and winds it up.
    pub open spec fn after_player_fire(self, dt: u32) -> WorldView {
        match self.steerable_player() {
            Some(i) => {
                let state = self.res.player_state;
                let cooled = state.fire_cooldown.ticked(dt);
                if cooled.is_finished() && state.firing {
                    WorldView {
                        res: Resources {
                            player_state: PlayerState { fire_cooldown: cooled.rewound(), ..state },
                            ..self.res
                        },
                        ..self
                    }.spawned(player_laser(self.entities[i].transform.unwrap(), state))
                } else {
                    WorldView {
                        res: Resources {
                            player_state: PlayerState { fire_cooldown: cooled, ..state },
                            ..self.res
                        },
                        ..self
                    }
                }
            },
            None => self,
        }
    }
}

/// The speed along one axis after the keys were applied.
fn push(delta: i32, minus: bool, plus: bool) -> (pushed: i32)
    ensures
        pushed == thrust(delta, minus, plus),
{
    let mut v: i64 = delta as i64;
    if minus {
        v = v - ACCELERATION as i64;
    }
    if plus {
        v = v + ACCELERATION as i64;
    }
    if v < -(MAX_VELOCITY as i64) {
        -MAX_VELOCITY
    } else if v > MAX_VELOCITY as i64 {
        MAX_VELOCITY
    } else {
        v as i32
    }
}

/// Brings a player in when none is on and the wait after the last death is
/// over.
pub fn player_spawn_system(world: &mut World, dt: u32)
    ensures
        final(world)@ == old(world)@.after_player_spawn(dt),
{
    if !world.res.player_state.on {
        if world.res.player_state.spawn_cooldown.tick(dt) {
            let now: u64 = world.res.clock;
            world.res.player_state.spawned(now);
            let bottom: i32 = -(world.res.win_size.h / 2);
            let template = Entity {
                transform: Some(
                    Transform {
                        translation: (0, bottom + PLAYER_RISE),
                        facing: (0, 1000),
                        scale: SPRITE_SCALE,
                    },
                ),
                player: Some(Player),
                sprite_size: Some(SpriteSize::from(PLAYER_SIZE)),
                movable: Some(Movable { auto_despawn: false }),
                velocity: Some(Velocity { x: 0, y: 0 }),
                ..Entity::new()
            };
            world.res.player_state.health = Health { hp: PLAYER_HP, multiplier: 1_000 };
            world.spawn(template);
        }
    }
}

/// Applies the player's input: the keys change its speed, the speed moves
/// it, and the held direction becomes its aim.
pub fn player_keyboard_event_system(world: &mut World, intent: &Intent)
    ensures
        final(world)@ == old(world)@.after_input(*intent),
{
    let at: Option<usize> = world.find_player();
    match at {
        Some(i) => {
            let mut entity: Entity = world.entities[i];
            match (entity.transform, entity.velocity) {
                (Some(t), Some(_)) => {
                    let state: PlayerState = world.res.player_state;
                    let dx: i32 = push(state.delta_x, intent.left, intent.right);
                    let dy: i32 = push(state.delta_y, intent.down, intent.up);
                    let x: i32 = saturate(t.translation.0 as i128 + dx as i128);
                    let y: i32 = saturate(t.translation.1 as i128 + dy as i128);
                    // decelerate
                    world.res.player_state.delta_x = (dx as i64 * 9 / 10) as i32;
                    world.res.player_state.delta_y = (dy as i64 * 9 / 10) as i32;
                    // fire angle
                    let mut facing: (i32, i32) = t.facing;
                    match intent.aim {
                        Some(aim) => {
                            world.res.player_state.firing = true;
                            if aim != state.aim {
                                world.res.player_state.aim = aim;
                                facing = aim.vector();
                            }
                        },
                        None => {
                            world.res.player_state.firing = false;
                        },
                    }
                    entity.transform = Some(
                        Transform { translation: (x, y), facing, scale: t.scale },
                    );
                    world.entities[i] = entity;
                    assert(final(world)@.entities =~= old(world)@.after_input(*intent).entities);
                },
                _ => {},
            }
        },
        None => {},
    }
}

/// Fires the player's gun when it has cooled down and a direction is held.
pub fn player_fire_system(world: &mut World, dt: u32)
    ensures
        final(world)@ == old(world)@.after_player_fire(dt),
{
    let at: Option<usize> = world.find_player();
    match at {
        Some(i) => {
            let entity: Entity = world.entities[i];
            match (entity.transform, entity.velocity) {
                (Some(t), Some(_)) => {
                    if world.res.player_state.fire_cooldown.tick(dt) {
                        let state: PlayerState = world.res.player_state;
                        if state.firing {
                            let aim: (i32, i32) = state.aim.vector();
                            let laser = Entity {
                                transform: Some(
                                    Transform {
                                        translation: t.translation,
                                        facing: t.facing,
                                        scale: SPRITE_SCALE,
                                    },
                                ),
                                from_player: Some(FromPlayer),
                                laser: Some(Laser),
                                damage: Some(
                                    Damage { dmg: 10_000, multiplier: 1_000, limit: 5_000 },
                                ),
                                sprite_size: Some(SpriteSize::from(PLAYER_LASER_SIZE)),
                                movable: Some(Movable { auto_despawn: true }),
                                velocity: Some(Velocity { x: aim.0, y: aim.1 }),
                                ..Entity::new()
                            };
                            world.spawn(laser);
                            world.res.player_state.fire_cooldown.reset();
                        }
                    }
                },
                _ => {},
            }
        },
        None => {},
    }
}

} // verus!
