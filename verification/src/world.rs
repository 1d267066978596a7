//! The entities of a simulation and the state they share.

use vstd::prelude::*;
use crate::components::{
    Damage, Enemy, EnemyState, EntityId, Explosion, ExplosionTimer, ExplosionToSpawn, FromEnemy,
    FromPlayer, Health, Laser, Movable, NumberOfHits, ParentEntity, Player, ScoreText, SpriteIndex,
    SpriteSize, Transform, Velocity,
};
use crate::counting::{count_all, marked_enemy, marked_player};
use crate::enemy::formation::{Formation, FormationMaker};
use crate::resources::{
    Config, ConfigError, EnemyCount, PlayerState, WinSize, ENEMY_SPAWN_PERIOD,
};
use crate::timer::CooldownTimer;

verus! {

/// One entity: its handle and the components it carries. What an entity is
/// follows from its components alone; a system works on the entities that
/// carry all the components it asks for.
#[derive(Clone, Copy, Debug, PartialEq, Eq)]
pub struct Entity {
    pub id: EntityId,
    pub transform: Option<Transform>,
    pub velocity: Option<Velocity>,
    pub movable: Option<Movable>,
    pub sprite_size: Option<SpriteSize>,
    pub sprite_index: Option<SpriteIndex>,
    pub health: Option<Health>,
    pub damage: Option<Damage>,
    pub formation: Option<Formation>,
    pub enemy_state: Option<EnemyState>,
    pub parent: Option<ParentEntity>,
    pub explosion_to_spawn: Option<ExplosionToSpawn>,
    pub explosion_timer: Option<ExplosionTimer>,
    pub player: Option<Player>,
    pub enemy: Option<Enemy>,
    pub laser: Option<Laser>,
    pub from_player: Option<FromPlayer>,
    pub from_enemy: Option<FromEnemy>,
    pub explosion: Option<Explosion>,
    pub score_text: Option<ScoreText>,
    pub hits: Option<NumberOfHits>,
}

impl Entity {
    /// The entity without any component.
    pub open spec fn bare() -> Entity {
        Entity {
            id: 0,
            transform: None,
            velocity: None,
            movable: None,
            sprite_size: None,
            sprite_index: None,
            health: None,
            damage: None,
            formation: None,
            enemy_state: None,
            parent: None,
            explosion_to_spawn: None,
            explosion_timer: None,
            player: None,
            enemy: None,
            laser: None,
            from_player: None,
            from_enemy: None,
            explosion: None,
            score_text: None,
            hits: None,
        }
    }

    /// An entity without any component, to add components to.
    pub fn new() -> (e: Entity)
        ensures
            e == Entity::bare(),
    {
        Entity {
            id: 0,
            transform: None,
            velocity: None,
            movable: None,
            sprite_size: None,
            sprite_index: None,
            health: None,
            damage: None,
            formation: None,
            enemy_state: None,
            parent: None,
            explosion_to_spawn: None,
            explosion_timer: None,
            player: None,
            enemy: None,
            laser: None,
            from_player: None,
            from_enemy: None,
            explosion: None,
            score_text: None,
            hits: None,
        }
    }
}

/// The state that all systems share.
#[derive(Clone, Copy, Debug, PartialEq, Eq)]
pub struct Resources {
    pub win_size: WinSize,
    pub config: Config,
    pub enemy_count: EnemyCount,
    pub player_state: PlayerState,
    pub formation_maker: FormationMaker,
    /// Fires whenever a new enemy is due.
    pub enemy_spawn_timer: CooldownTimer,
    /// Simulated time since the start, in microseconds.
    pub clock: u64,
    /// The handle that the next entity gets.
    pub next_id: EntityId,
}

/// A simulation: the entities, in the order in which they were spawned, and
/// the shared state.
pub struct World {
    pub entities: Vec<Entity>,
    pub res: Resources,
}

/// A simulation as a mathematical value.
pub struct WorldView {
    pub entities: Seq<Entity>,
    pub res: Resources,
}

impl View for World {
    type V = WorldView;

    open spec fn view(&self) -> WorldView {
        WorldView { entities: self.entities@, res: self.res }
    }
}

/// The first reason, if any, for which a simulation cannot start.
pub open spec fn config_error(win_size: WinSize, config: Config) -> Option<ConfigError> {
    if !win_size.is_valid() {
        Some(ConfigError::EmptyViewport)
    } else if config.enemy_max < 1 {
        Some(ConfigError::NoEnemies)
    } else if config.squad_cap < 1 {
        Some(ConfigError::NoSquad)
    } else if config.explosion_frames < 1 {
        Some(ConfigError::NoFrames)
    } else {
        None
    }
}

/// The handle after `id`. The last handle is never passed.
pub open spec fn next_handle(id: EntityId) -> EntityId {
    if id < u64::MAX {
        (id + 1) as u64
    } else {
        id
    }
}

impl Resources {
    /// The shared state before the first tick.
    pub open spec fn is_initial(self, win_size: WinSize, config: Config) -> bool {
        &&& self.win_size == win_size
        &&& self.config == config
        &&& self.enemy_count == EnemyCount(0)
        &&& self.player_state == PlayerState::initial(config.respawn_delay)
        &&& self.formation_maker == (FormationMaker {
            current_template: None,
            current_members: 0,
            squad_cap: config.squad_cap,
        })
        &&& self.enemy_spawn_timer == (CooldownTimer {
            remaining: ENEMY_SPAWN_PERIOD,
            period: ENEMY_SPAWN_PERIOD,
        })
        &&& self.clock == 0
        &&& self.next_id == 0
    }
}

impl WorldView {
    /// The world with one more entity: `template` under the next handle.
    pub open spec fn spawned(self, template: Entity) -> WorldView {
        WorldView {
            entities: self.entities.push(Entity { id: self.res.next_id, ..template }),
            res: Resources { next_id: next_handle(self.res.next_id), ..self.res },
        }
    }

    /// `i` is the place of the one entity marked as the player.
    pub open spec fn is_the_player(self, i: int) -> bool {
        &&& 0 <= i < self.entities.len()
        &&& self.entities[i].player.is_some()
        &&& forall|j: int|
            0 <= j < self.entities.len() && j != i
                ==> (#[trigger] self.entities[j]).player.is_none()
    }

    /// The place of the player; `None` unless exactly one entity is marked
    /// as the player.
    pub open spec fn player_at(self) -> Option<int> {
        if exists|i: int| self.is_the_player(i) {
            Some(choose|i: int| self.is_the_player(i))
        } else {
            None
        }
    }

    /// Where the player is, if there is one and it has a place.
    pub open spec fn player_position(self) -> Option<(i32, i32)> {
        match self.player_at() {
            Some(i) => match self.entities[i].transform {
                Some(t) => Some(t.translation),
                None => None,
            },
            None => None,
        }
    }

    /// Number of entities marked as the player.
    pub open spec fn players(self) -> int {
        count_all(self.entities, marked_player())
    }

    /// Number of entities marked as enemies.
    pub open spec fn enemies(self) -> int {
        count_all(self.entities, marked_enemy())
    }
}

/// At most one place is that of the player.
pub proof fn lemma_one_player(w: WorldView, i: int, j: int)
    requires
        w.is_the_player(i),
        w.is_the_player(j),
    ensures
        i == j,
{
}

impl World {
    /// A simulation before its first tick, or the reason why this viewport
    /// and configuration allow none.
    pub fn new(win_size: WinSize, config: Config) -> (world: Result<World, ConfigError>)
        ensures
            match world {
                Ok(w) => config_error(win_size, config).is_none() && w@.entities.len() == 0
                    && w.res.is_initial(win_size, config) && w@.is_well_formed(),
                Err(e) => config_error(win_size, config) == Some(e),
            },
    {
        if win_size.w <= 0 || win_size.h <= 0 {
            Err(ConfigError::EmptyViewport)
        } else if config.enemy_max < 1 {
            Err(ConfigError::NoEnemies)
        } else if config.squad_cap < 1 {
            Err(ConfigError::NoSquad)
        } else if config.explosion_frames < 1 {
            Err(ConfigError::NoFrames)
        } else {
            Ok(
                World {
                    entities: Vec::new(),
                    res: Resources {
                        win_size,
                        config,
                        enemy_count: EnemyCount(0),
                        player_state: PlayerState::new(config.respawn_delay),
                        formation_maker: FormationMaker::new(config.squad_cap),
                        enemy_spawn_timer: CooldownTimer::new(ENEMY_SPAWN_PERIOD),
                        clock: 0,
                        next_id: 0,
                    },
                },
            )
        }
    }

    /// Takes a new size for the viewport, unless it has a dimension that is
    /// zero or negative: then the size stays as it is. A well-formed world
    /// stays well formed either way.
    pub fn resize(&mut self, win_size: WinSize) -> (done: Result<(), ConfigError>)
        ensures
            win_size.is_valid() ==> done.is_ok() && final(self)@ == (WorldView {
                res: Resources { win_size, ..old(self).res },
                ..old(self)@
            }),
            !win_size.is_valid() ==> done == Err::<(), ConfigError>(ConfigError::EmptyViewport)
                && final(self)@ == old(self)@,
            old(self)@.is_well_formed() ==> final(self)@.is_well_formed(),
    {
        if win_size.w <= 0 || win_size.h <= 0 {
            Err(ConfigError::EmptyViewport)
        } else {
            self.res.win_size = win_size;
            Ok(())
        }
    }

    /// The score so far.
    pub fn score(&self) -> (score: u64)
        ensures
            score == self.res.player_state.score,
    {
        self.res.player_state.score
    }

    /// Adds an entity with the components of `template` and returns its
    /// handle.
    pub fn spawn(&mut self, template: Entity) -> (id: EntityId)
        ensures
            final(self)@ == old(self)@.spawned(template),
            id == old(self).res.next_id,
    {
        let id: EntityId = self.res.next_id;
        let mut entity = template;
        entity.id = id;
        self.entities.push(entity);
        if id < u64::MAX {
            self.res.next_id = id + 1;
        }
        id
    }

    /// The place of the player, if exactly one entity is marked as the
    /// player.
    pub fn find_player(&self) -> (at: Option<usize>)
        ensures
            match at {
                Some(i) => self@.player_at() == Some(i as int) && self@.is_the_player(i as int),
                None => self@.player_at().is_none(),
            },
    {
        let ghost w = self@;
        let mut found: Option<usize> = None;
        let mut many: bool = false;
        let mut i: usize = 0;
        while i < self.entities.len()
            invariant
                i <= self.entities.len(),
                w == self@,
                match found {
                    Some(k) => k < i && w.entities[k as int].player.is_some(),
                    None => !many && forall|j: int|
                        0 <= j < i ==> (#[trigger] w.entities[j]).player.is_none(),
                },
                many ==> exists|a: int, b: int|
                    0 <= a < b < i && (#[trigger] w.entities[a]).player.is_some() && (
                    #[trigger] w.entities[b]).player.is_some(),
                !many ==> forall|j: int|
                    0 <= j < i && found != Some(j as usize) ==> (
                    #[trigger] w.entities[j]).player.is_none(),
            decreases self.entities.len() - i,
        {
            if self.entities[i].player.is_some() {
                match found {
                    Some(k) => {
                        many = true;
                        assert(w.entities[k as int].player.is_some() && w.entities[i as int].player.is_some());
                    },
                    None => {
                        found = Some(i);
                    },
                }
            }
            i = i + 1;
        }
        if many {
            proof {
                let (a, b) = choose|a: int, b: int|
                    0 <= a < b < w.entities.len() && (#[trigger] w.entities[a]).player.is_some()
                        && (#[trigger] w.entities[b]).player.is_some();
                assert forall|k: int| !w.is_the_player(k) by {
                    if w.is_the_player(k) {
                        if k == a {
                            assert(w.entities[b].player.is_none());
                        } else {
                            assert(w.entities[a].player.is_none());
                        }
                    }
                }
            }
            None
        } else {
            match found {
                Some(k) => {
                    assert(w.is_the_player(k as int));
                    proof {
                        lemma_one_player(w, k as int, choose|i: int| w.is_the_player(i));
                    }
                    Some(k)
                },
                None => {
                    assert forall|k: int| !w.is_the_player(k) by {
                        if w.is_the_player(k) {
                            assert(w.entities[k].player.is_none());
                        }
                    }
                    None
                },
            }
        }
    }
}

} // verus!
