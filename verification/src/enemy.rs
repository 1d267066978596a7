//! Enemies: how they come in, move and fire.

use vstd::prelude::*;
use crate::components::{
    Damage, Enemy, EnemyState, FromEnemy, Health, Laser, Movable, ParentEntity, SpriteSize,
    Transform, Velocity,
};
use crate::enemy::formation::{Formation, FormationDraw};
use crate::fixed::{
    abs_int, is_sqrt_floor, isqrt, lemma_quot_bounds, lemma_sqrt_floor_at_least,
    lemma_sqrt_floor_exists, lemma_sqrt_floor_spans, lemma_sqrt_floor_unique, max_int, min_int,
    norm_squared, quot, quotient, sat32, sat64, saturate, saturate64, sqrt_floor, times, wide,
};
use crate::resources::{
    EnemyCount, WinSize, ENEMY_FIRE_PERIOD, ENEMY_HP, ENEMY_LASER_SIZE, ENEMY_SIZE, ENEMY_WARMUP,
    SPRITE_SCALE,
};
use crate::timer::CooldownTimer;
use crate::world::{Entity, Resources, World, WorldView};

pub mod formation;

verus! {

// --- Spawning

/// The entity a new enemy starts as, on formation `f`.
pub open spec fn enemy_template(f: Formation) -> Entity {
    Entity {
        transform: Some(Transform { translation: f.start, facing: (0, 1000), scale: SPRITE_SCALE }),
        enemy: Some(Enemy),
        enemy_state: Some(
            EnemyState {
                fire_cooldown: CooldownTimer {
                    remaining: ENEMY_FIRE_PERIOD,
                    period: ENEMY_FIRE_PERIOD,
                },
            },
        ),
        formation: Some(f),
        sprite_size: Some(SpriteSize(ENEMY_SIZE)),
        health: Some(Health { hp: ENEMY_HP, multiplier: 0 }),
        velocity: Some(Velocity { x: 0, y: 0 }),
        ..Entity::bare()
    }
}

impl WorldView {
    /// The world after one attempt to bring in an enemy, `draw` being the
    /// choices to use if a new squad begins. While fewer enemies are counted
    /// than the configuration allows, one comes in at the start of the next
    /// formation and is counted; otherwise nothing changes.
    pub open spec fn after_enemy_spawn(self, draw: FormationDraw) -> WorldView {
        if self.res.enemy_count.0 < self.res.config.enemy_max {
            WorldView {
                res: Resources {
                    formation_maker: self.res.formation_maker.step(self.res.win_size, draw),
                    enemy_count: EnemyCount((self.res.enemy_count.0 + 1) as u32),
                    ..self.res
                },
                ..self
            }.spawned(enemy_template(self.res.formation_maker.handed(self.res.win_size, draw)))
        } else {
            self
        }
    }

    /// The world with the timer for new enemies `dt` microseconds on.
    pub open spec fn spawn_timer_cycled(self, dt: u32) -> WorldView {
        WorldView {
            res: Resources {
                enemy_spawn_timer: self.res.enemy_spawn_timer.cycled(dt),
                ..self.res
            },
            ..self
        }
    }

    /// Number of attempts to bring in an enemy that are due within `dt`
    /// microseconds: one for each time the spawn timer fires.
    pub open spec fn spawn_attempts(self, dt: u32) -> int {
        self.res.enemy_spawn_timer.fires(dt)
    }

    /// The world after the first `n` of a run of such attempts.
    pub open spec fn after_enemy_spawns(self, draws: Seq<FormationDraw>, n: int) -> WorldView
        decreases n,
    {
        if n <= 0 {
            self
        } else {
            self.after_enemy_spawns(draws, n - 1).after_enemy_spawn(draws[n - 1])
        }
    }
}

/// Each of the choices fits the viewport.
pub open spec fn all_fit(draws: Seq<FormationDraw>, win_size: WinSize) -> bool {
    forall|i: int| 0 <= i < draws.len() ==> (#[trigger] draws[i]).fits(win_size)
}

/// A run of attempts depends on the choices it uses alone.
proof fn lemma_spawns_use_prefix(w: WorldView, a: Seq<FormationDraw>, b: Seq<FormationDraw>, n: int)
    requires
        0 <= n <= a.len(),
        n <= b.len(),
        forall|i: int| 0 <= i < n ==> a[i] == b[i],
    ensures
        w.after_enemy_spawns(a, n) == w.after_enemy_spawns(b, n),
    decreases n,
{
    if n > 0 {
        lemma_spawns_use_prefix(w, a, b, n - 1);
    }
}

/// Builds the entity a new enemy starts as.
fn new_enemy(f: Formation) -> (e: Entity)
    ensures
        e == enemy_template(f),
{
    Entity {
        transform: Some(Transform { translation: f.start, facing: (0, 1000), scale: SPRITE_SCALE }),
        enemy: Some(Enemy),
        enemy_state: Some(EnemyState { fire_cooldown: CooldownTimer::new(ENEMY_FIRE_PERIOD) }),
        formation: Some(f),
        sprite_size: Some(SpriteSize::from(ENEMY_SIZE)),
        health: Some(Health { hp: ENEMY_HP, multiplier: 0 }),
        velocity: Some(Velocity { x: 0, y: 0 }),
        ..Entity::new()
    }
}

/// One attempt to bring in an enemy, with `draw` as the choices to use if a
/// new squad begins.
pub fn enemy_spawn_with(world: &mut World, draw: FormationDraw)
    requires
        old(world).res.win_size.is_valid(),
    ensures
        final(world)@ == old(world)@.after_enemy_spawn(draw),
{
    if world.res.enemy_count.0 < world.res.config.enemy_max {
        let win_size = world.res.win_size;
        let formation = world.res.formation_maker.make_from(&win_size, draw);
        world.res.enemy_count = EnemyCount(world.res.enemy_count.0 + 1);
        world.spawn(new_enemy(formation));
    }
}

/// One attempt to bring in an enemy. Where a new squad begins, its formation
/// is drawn at random: the world is then as some choices that fit the
/// viewport leave it.
pub fn enemy_spawn_system(world: &mut World)
    requires
        old(world).res.win_size.is_valid(),
    ensures
        exists|draw: FormationDraw|
            draw.fits(old(world).res.win_size)
                && final(world)@ == #[trigger] old(world)@.after_enemy_spawn(draw),
        old(world).res.enemy_count.0 >= old(world).res.config.enemy_max
            ==> final(world)@ == old(world)@,
{
    if world.res.enemy_count.0 < world.res.config.enemy_max {
        let win_size = world.res.win_size;
        let ghost maker = world.res.formation_maker;
        let formation = world.res.formation_maker.make(&win_size);
        let ghost draw = choose|draw: FormationDraw|
            draw.fits(win_size) && world.res.formation_maker == #[trigger] maker.step(win_size, draw)
                && formation == maker.handed(win_size, draw);
        world.res.enemy_count = EnemyCount(world.res.enemy_count.0 + 1);
        world.spawn(new_enemy(formation));
        assert(world@ == old(world)@.after_enemy_spawn(draw));
    } else {
        let ghost draw = FormationDraw {
            right: false,
            y: 0,
            pivot: (0, 0),
            radius_x: formation::RADIUS_X_MIN,
        };
        assert(draw.fits(world.res.win_size));
        assert(world@ == old(world)@.after_enemy_spawn(draw));
    }
}

/// Why the enemies that are due cannot come in.
#[derive(Clone, Copy, Debug, PartialEq, Eq)]
pub enum SpawnError {
    /// There is not one set of choices for each attempt that is due.
    DrawCount,
}

impl World {
    /// Number of attempts to bring in an enemy that are due within `dt`
    /// microseconds.
    pub fn spawn_attempts(&self, dt: u32) -> (attempts: u64)
        ensures
            attempts == self@.spawn_attempts(dt),
    {
        let mut timer: CooldownTimer = self.res.enemy_spawn_timer;
        timer.tick_repeating(dt)
    }
}

/// Brings in the enemies that are due after `dt` more microseconds, with
/// `draws` as the choices for the formations of new squads, one set for
/// each attempt. Where the sets are not as many as the attempts that are
/// due, nothing changes.
pub fn enemy_spawn_scheduler_with(world: &mut World, dt: u32, draws: &Vec<FormationDraw>) -> (done:
    Result<(), SpawnError>)
    requires
        old(world).res.win_size.is_valid(),
    ensures
        match done {
            Ok(_) => draws@.len() == old(world)@.spawn_attempts(dt)
                && final(world)@ == old(world)@.spawn_timer_cycled(dt).after_enemy_spawns(
                draws@,
                draws@.len() as int,
            ),
            Err(e) => e == SpawnError::DrawCount && draws@.len() != old(world)@.spawn_attempts(dt)
                && final(world)@ == old(world)@,
        },
{
    let mut timer: CooldownTimer = world.res.enemy_spawn_timer;
    let attempts: u64 = timer.tick_repeating(dt);
    if draws.len() as u64 != attempts {
        return Err(SpawnError::DrawCount);
    }
    world.res.enemy_spawn_timer = timer;
    let ghost start: WorldView = world@;
    let mut k: usize = 0;
    while k < draws.len()
        invariant
            k <= draws.len(),
            world@ == start.after_enemy_spawns(draws@, k as int),
            world.res.win_size.is_valid(),
        decreases draws.len() - k,
    {
        enemy_spawn_with(world, draws[k]);
        k = k + 1;
    }
    Ok(())
}

/// Brings in the enemies that are due after `dt` more microseconds: one
/// attempt for each time the spawn timer fires.
pub fn enemy_spawn_scheduler(world: &mut World, dt: u32) -> (attempts: u64)
    requires
        old(world).res.win_size.is_valid(),
    ensures
        attempts == old(world).res.enemy_spawn_timer.fires(dt),
        exists|draws: Seq<FormationDraw>|
            draws.len() == attempts && all_fit(draws, old(world).res.win_size) && final(world)@
                == #[trigger] old(world)@.spawn_timer_cycled(dt).after_enemy_spawns(
                draws,
                attempts as int,
            ),
{
    let attempts: u64 = world.res.enemy_spawn_timer.tick_repeating(dt);
    let ghost start: WorldView = world@;
    let ghost draws: Seq<FormationDraw> = Seq::empty();
    let mut k: u64 = 0;
    while k < attempts
        invariant
            k <= attempts,
            draws.len() == k,
            all_fit(draws, start.res.win_size),
            start == old(world)@.spawn_timer_cycled(dt),
            attempts == old(world).res.enemy_spawn_timer.fires(dt),
            world@ == start.after_enemy_spawns(draws, k as int),
            world.res.win_size == start.res.win_size,
            start.res.win_size.is_valid(),
        decreases attempts - k,
    {
        let ghost before: WorldView = world@;
        enemy_spawn_system(world);
        proof {
            let draw = choose|draw: FormationDraw|
                draw.fits(before.res.win_size) && world@ == #[trigger] before.after_enemy_spawn(draw);
            let longer = draws.push(draw);
            lemma_spawns_use_prefix(start, draws, longer, k as int);
            draws = longer;
        }
        k = k + 1;
    }
    attempts
}

// --- Firing

/// An enemy that can fire.
pub open spec fn is_gunner(e: Entity) -> bool {
    e.enemy.is_some() && e.transform.is_some() && e.velocity.is_some() && e.enemy_state.is_some()
}

/// The enemy fires within the next `dt` microseconds: its cooldown runs
/// down.
pub open spec fn shoots(e: Entity, dt: u32) -> bool {
    is_gunner(e) && e.enemy_state.unwrap().fire_cooldown.ticked(dt).is_finished()
}

/// The entity after `dt` microseconds of cooling down; a gun that fires is
/// wound up again.
pub open spec fn cooled(e: Entity, dt: u32) -> Entity {
    if is_gunner(e) {
        let timer = e.enemy_state.unwrap().fire_cooldown.ticked(dt);
        Entity {
            enemy_state: Some(
                EnemyState {
                    fire_cooldown: if timer.is_finished() {
                        timer.rewound()
                    } else {
                        timer
                    },
                },
            ),
            ..e
        }
    } else {
        e
    }
}

/// `cooled`, as a function of the entity alone.
pub open spec fn cooled_by(dt: u32) -> spec_fn(Entity) -> Entity {
    |e: Entity| cooled(e, dt)
}

/// The damage a shot of an enemy carries at time `clock`: weak at first.
pub open spec fn enemy_damage(clock: u64) -> Damage {
    Damage {
        dmg: if clock < ENEMY_WARMUP {
            1_000
        } else {
            10_000
        },
        multiplier: 1_000,
        limit: 2_000,
    }
}

/// The length of the way `(dx, dy)` in thousandths of its unit, rounded
/// down.
pub open spec fn aim_length(dx: int, dy: int) -> int {
    sqrt_floor((dx * dx + dy * dy) * 1_000_000)
}

/// The velocity of a shot fired at `from`: the direction toward the player,
/// normalized. Each component is the way to the player along its axis over
/// the length of the whole way, in thousandths and rounded toward zero; the
/// length is taken a thousand times finer than the way, so that the rounding
/// tells by no more than a thousandth or two at any range. Without a player,
/// or with the player at `from`, the shot flies straight down.
pub open spec fn aimed(from: (i32, i32), player: Option<(i32, i32)>) -> Velocity {
    match player {
        Some(to) => {
            let dx = to.0 - from.0;
            let dy = to.1 - from.1;
            let length = aim_length(dx, dy);
            if length == 0 {
                Velocity { x: 0, y: -1000i32 }
            } else {
                Velocity {
                    x: quot(dx * 1_000_000, length) as i32,
                    y: quot(dy * 1_000_000, length) as i32,
                }
            }
        },
        None => Velocity { x: 0, y: -1000i32 },
    }
}

/// The shot that the gunner `e` fires at time `clock`.
pub open spec fn enemy_laser(e: Entity, player: Option<(i32, i32)>, clock: u64) -> Entity {
    Entity {
        transform: Some(
            Transform {
                translation: e.transform.unwrap().translation,
                facing: e.transform.unwrap().facing,
                scale: SPRITE_SCALE,
            },
        ),
        laser: Some(Laser),
        damage: Some(enemy_damage(clock)),
        movable: Some(Movable { auto_despawn: true }),
        from_enemy: Some(FromEnemy),
        parent: Some(ParentEntity { entity: e.id }),
        sprite_size: Some(SpriteSize(ENEMY_LASER_SIZE)),
        velocity: Some(aimed(e.transform.unwrap().translation, player)),
        ..Entity::bare()
    }
}

impl WorldView {
    /// The world after those of the first `n` of `gunners` that fire within
    /// `dt` microseconds have fired at `player`.
    pub open spec fn salvo(
        self,
        gunners: Seq<Entity>,
        player: Option<(i32, i32)>,
        dt: u32,
        n: int,
    ) -> WorldView
        decreases n,
    {
        if n <= 0 {
            self
        } else if shoots(gunners[n - 1], dt) {
            self.salvo(gunners, player, dt, n - 1).spawned(
                enemy_laser(gunners[n - 1], player, self.res.clock),
            )
        } else {
            self.salvo(gunners, player, dt, n - 1)
        }
    }

    /// The world with every enemy's gun `dt` microseconds on.
    pub open spec fn guns_cooled(self, dt: u32) -> WorldView {
        WorldView { entities: self.entities.map_values(cooled_by(dt)), ..self }
    }

    /// The world after the enemies' guns went on by `dt` microseconds: every
    /// cooldown has run on, and each gun that has cooled down has fired at
    /// the player and is wound up again.
    pub open spec fn after_enemy_fire(self, dt: u32) -> WorldView {
        self.guns_cooled(dt).salvo(
            self.entities,
            self.player_position(),
            dt,
            self.entities.len() as int,
        )
    }
}

/// Number of entities among the first `n` of `s` that are enemies whose
/// guns fire within `dt` microseconds.
pub open spec fn shooters_among(s: Seq<Entity>, dt: u32, n: int) -> int
    decreases n,
{
    if n <= 0 {
        0
    } else {
        shooters_among(s, dt, n - 1) + if shoots(s[n - 1], dt) {
            1int
        } else {
            0int
        }
    }
}

/// A salvo leaves the entities that are there as and where they are, and
/// adds one for each gun that fires.
proof fn lemma_salvo_adds(
    w: WorldView,
    gunners: Seq<Entity>,
    player: Option<(i32, i32)>,
    dt: u32,
    n: int,
)
    requires
        0 <= n,
    ensures
        w.salvo(gunners, player, dt, n).entities.len() == w.entities.len() + shooters_among(
            gunners,
            dt,
            n,
        ),
        shooters_among(gunners, dt, n) >= 0,
        forall|j: int|
            0 <= j < w.entities.len() ==> (#[trigger] w.salvo(gunners, player, dt, n).entities[j])
                == w.entities[j],
    decreases n,
{
    if n > 0 {
        lemma_salvo_adds(w, gunners, player, dt, n - 1);
        let prev = w.salvo(gunners, player, dt, n - 1);
        let now = w.salvo(gunners, player, dt, n);
        assert forall|j: int| 0 <= j < w.entities.len() implies (#[trigger] now.entities[j])
            == w.entities[j] by {
            assert(prev.entities[j] == w.entities[j]);
        }
    }
}

/// The shot of each gun that fires is among the entities after the salvo,
/// behind those that were there.
proof fn lemma_salvo_holds_shot(
    w: WorldView,
    gunners: Seq<Entity>,
    player: Option<(i32, i32)>,
    dt: u32,
    n: int,
    i: int,
)
    requires
        0 <= i < n,
        shoots(gunners[i], dt),
    ensures
        exists|k: int|
            w.entities.len() <= k < w.salvo(gunners, player, dt, n).entities.len() && #[trigger] w.salvo(
                gunners,
                player,
                dt,
                n,
            ).entities[k] == (Entity {
                id: w.salvo(gunners, player, dt, n).entities[k].id,
                ..enemy_laser(gunners[i], player, w.res.clock)
            }),
    decreases n,
{
    let prev = w.salvo(gunners, player, dt, n - 1);
    let now = w.salvo(gunners, player, dt, n);
    lemma_salvo_adds(w, gunners, player, dt, n - 1);
    if i == n - 1 {
        let k = prev.entities.len() as int;
        assert(now.entities[k] == (Entity {
            id: now.entities[k].id,
            ..enemy_laser(gunners[i], player, w.res.clock)
        }));
    } else {
        lemma_salvo_holds_shot(w, gunners, player, dt, n - 1, i);
        let k = choose|k: int|
            w.entities.len() <= k < prev.entities.len() && #[trigger] prev.entities[k] == (Entity {
                id: prev.entities[k].id,
                ..enemy_laser(gunners[i], player, w.res.clock)
            });
        assert(now.entities[k] == prev.entities[k]);
    }
}

/// After the enemies' fire every entity that was there is in its place,
/// with its gun cooled: the cooldown of a gun that has fired is wound up to
/// its full period, that of any other gun is shorter by the time gone by,
/// and what is no gun is as it was.
pub proof fn lemma_guns_cool(w: WorldView, dt: u32, i: int)
    requires
        0 <= i < w.entities.len(),
    ensures
        i < w.after_enemy_fire(dt).entities.len(),
        w.after_enemy_fire(dt).entities[i] == cooled(w.entities[i], dt),
        shoots(w.entities[i], dt) ==> cooled(w.entities[i], dt).enemy_state.unwrap().fire_cooldown
            == w.entities[i].enemy_state.unwrap().fire_cooldown.rewound(),
        is_gunner(w.entities[i]) && !shoots(w.entities[i], dt) ==> cooled(
            w.entities[i],
            dt,
        ).enemy_state.unwrap().fire_cooldown == w.entities[i].enemy_state.unwrap().fire_cooldown.ticked(
            dt,
        ),
        !is_gunner(w.entities[i]) ==> cooled(w.entities[i], dt) == w.entities[i],
{
    let cooled_world = w.guns_cooled(dt);
    lemma_salvo_adds(cooled_world, w.entities, w.player_position(), dt, w.entities.len() as int);
    assert(cooled_world.entities[i] == cooled(w.entities[i], dt));
}

/// Every enemy whose gun has cooled down fires one shot: after the
/// enemies' fire there is, behind the entities that were there, a
/// projectile of the enemies at the place of the gunner, looking the way the
/// gunner looks, aimed at the player, with the damage of the time and the
/// gunner as its parent.
pub proof fn lemma_gunner_fires(w: WorldView, dt: u32, i: int)
    requires
        0 <= i < w.entities.len(),
        shoots(w.entities[i], dt),
    ensures
        exists|k: int|
            w.entities.len() <= k < w.after_enemy_fire(dt).entities.len()
                && #[trigger] w.after_enemy_fire(dt).entities[k] == (Entity {
                id: w.after_enemy_fire(dt).entities[k].id,
                ..enemy_laser(w.entities[i], w.player_position(), w.res.clock)
            }),
{
    lemma_salvo_holds_shot(
        w.guns_cooled(dt),
        w.entities,
        w.player_position(),
        dt,
        w.entities.len() as int,
        i,
    );
}

/// The enemies' fire adds one entity for each gun that fires, and no
/// other.
pub proof fn lemma_one_shot_each(w: WorldView, dt: u32)
    ensures
        w.after_enemy_fire(dt).entities.len() == w.entities.len() + shooters_among(
            w.entities,
            dt,
            w.entities.len() as int,
        ),
{
    lemma_salvo_adds(w.guns_cooled(dt), w.entities, w.player_position(), dt, w.entities.len() as int);
}

/// One component of a normalized direction: the millionfold of a way `d`
/// over a length of at least a thousand times its size lies within a
/// thousand either way, has the sense of the way, and is off by less than
/// one from what the division gives before rounding.
proof fn lemma_share(d: int, length: int)
    requires
        length > 0,
        1000 * abs_int(d) <= length,
    ensures
        -1000 <= quot(d * 1_000_000, length) <= 1000,
        d >= 0 ==> quot(d * 1_000_000, length) >= 0,
        d <= 0 ==> quot(d * 1_000_000, length) <= 0,
        abs_int(quot(d * 1_000_000, length)) * length <= abs_int(d) * 1_000_000,
        abs_int(d) * 1_000_000 < (abs_int(quot(d * 1_000_000, length)) + 1) * length,
{
    let a: int = abs_int(d) * 1_000_000;
    let q: int = a / length;
    vstd::arithmetic::div_mod::lemma_fundamental_div_mod(a, length);
    assert(0 <= q <= 1000) by (nonlinear_arith)
        requires
            a == length * q + a % length,
            0 <= a % length < length,
            0 <= a <= 1000 * length,
            length > 0,
    ;
    assert(q * length == length * q) by (nonlinear_arith);
    assert((q + 1) * length == length * q + length) by (nonlinear_arith);
    if d >= 0 {
        assert(quot(d * 1_000_000, length) == q);
    } else {
        assert(-(d * 1_000_000) == a);
        assert(quot(d * 1_000_000, length) == -q);
    }
}

/// The squares of two numbers that are not negative are in the order of the
/// numbers.
proof fn lemma_square_order(a: int, b: int)
    requires
        0 <= a <= b,
    ensures
        a * a <= b * b,
{
    assert(a * a <= b * b) by (nonlinear_arith)
        requires
            0 <= a <= b,
    ;
}

/// A shot aimed at a player flies toward the player at unit length, as far
/// as thousandths can tell. Along each axis its velocity has the sense of
/// the way to the player and is the way over the length of the whole way,
/// rounded toward zero, so at most a thousand either way. The length of the
/// velocity is that of the unit but for the rounding: the sum of the squares
/// of its components is at most 1 002 000, and with each component taken
/// one larger in size it is above 1 000 000. Without a player, or with the
/// player at the very place, the shot flies straight down.
pub proof fn lemma_aim(from: (i32, i32), to: (i32, i32))
    ensures
        aimed(from, None) == (Velocity { x: 0, y: -1000i32 }),
        to == from ==> aimed(from, Some(to)) == (Velocity { x: 0, y: -1000i32 }),
        to != from ==> {
            &&& aim_length(to.0 - from.0, to.1 - from.1) >= 1000
            &&& aimed(from, Some(to)).x == quot(
                (to.0 - from.0) * 1_000_000,
                aim_length(to.0 - from.0, to.1 - from.1),
            )
            &&& aimed(from, Some(to)).y == quot(
                (to.1 - from.1) * 1_000_000,
                aim_length(to.0 - from.0, to.1 - from.1),
            )
            &&& aimed(from, Some(to)).x * aimed(from, Some(to)).x + aimed(from, Some(to)).y * aimed(
                from,
                Some(to),
            ).y <= 1_002_000
            &&& (abs_int(aimed(from, Some(to)).x as int) + 1) * (abs_int(
                aimed(from, Some(to)).x as int,
            ) + 1) + (abs_int(aimed(from, Some(to)).y as int) + 1) * (abs_int(
                aimed(from, Some(to)).y as int,
            ) + 1) > 1_000_000
        },
        -1000 <= aimed(from, Some(to)).x <= 1000,
        -1000 <= aimed(from, Some(to)).y <= 1000,
        to.0 >= from.0 ==> aimed(from, Some(to)).x >= 0,
        to.0 <= from.0 ==> aimed(from, Some(to)).x <= 0,
        to.1 > from.1 ==> aimed(from, Some(to)).y >= 0,
        to.1 < from.1 ==> aimed(from, Some(to)).y <= 0,
{
    let dx: int = to.0 - from.0;
    let dy: int = to.1 - from.1;
    let n: int = dx * dx + dy * dy;
    let m: int = n * 1_000_000;
    assert(dx * dx >= 0 && dy * dy >= 0) by (nonlinear_arith);
    lemma_sqrt_floor_exists(m);
    let length = aim_length(dx, dy);
    if dx == 0 && dy == 0 {
        assert(is_sqrt_floor(0, 0));
        lemma_sqrt_floor_unique(m, length, 0);
    } else {
        let sx: int = abs_int(dx);
        let sy: int = abs_int(dy);
        assert(dx * dx == sx * sx && dy * dy == sy * sy) by (nonlinear_arith)
            requires
                sx == abs_int(dx),
                sy == abs_int(dy),
        ;
        assert(sx * sx >= sx && sy * sy >= sy) by (nonlinear_arith)
            requires
                sx >= 0,
                sy >= 0,
        ;
        // the length is at least a thousand, and a thousand times either way
        lemma_sqrt_floor_at_least(m, 1000);
        assert((1000 * sx) * (1000 * sx) == sx * sx * 1_000_000) by (nonlinear_arith);
        assert((1000 * sy) * (1000 * sy) == sy * sy * 1_000_000) by (nonlinear_arith);
        lemma_sqrt_floor_at_least(m, 1000 * sx);
        lemma_sqrt_floor_at_least(m, 1000 * sy);
        lemma_share(dx, length);
        lemma_share(dy, length);
        let x: int = quot(dx * 1_000_000, length);
        let y: int = quot(dy * 1_000_000, length);
        let ax: int = abs_int(x);
        let ay: int = abs_int(y);
        let a: int = sx * 1_000_000;
        let b: int = sy * 1_000_000;
        assert(x * x == ax * ax && y * y == ay * ay) by (nonlinear_arith)
            requires
                ax == abs_int(x),
                ay == abs_int(y),
        ;
        assert(a * a + b * b == 1_000_000 * m) by (nonlinear_arith)
            requires
                a == sx * 1_000_000,
                b == sy * 1_000_000,
                m == (sx * sx + sy * sy) * 1_000_000,
        ;
        let ll: int = length * length;
        let aa: int = a * a;
        let bb: int = b * b;
        assert(ll > 0) by (nonlinear_arith)
            requires
                ll == length * length,
                length > 0,
        ;
        // from above
        let sq: int = ax * ax + ay * ay;
        assert(ax * length >= 0 && ay * length >= 0) by (nonlinear_arith)
            requires
                ax >= 0,
                ay >= 0,
                length > 0,
        ;
        lemma_square_order(ax * length, a);
        lemma_square_order(ay * length, b);
        assert((ax * length) * (ax * length) == (ax * ax) * ll) by (nonlinear_arith)
            requires
                ll == length * length,
        ;
        assert((ay * length) * (ay * length) == (ay * ay) * ll) by (nonlinear_arith)
            requires
                ll == length * length,
        ;
        assert(sq * ll == (ax * ax) * ll + (ay * ay) * ll) by (nonlinear_arith)
            requires
                sq == ax * ax + ay * ay,
        ;
        assert(1_000_000 * ((length + 1) * (length + 1)) <= 1_002_001 * ll) by (nonlinear_arith)
            requires
                length >= 1000,
                ll == length * length,
        ;
        assert(sq * ll < 1_002_001 * ll);
        assert(sq < 1_002_001) by (nonlinear_arith)
            requires
                sq * ll < 1_002_001 * ll,
                ll > 0,
        ;
        // from below
        let cx: int = (ax + 1) * length;
        let cy: int = (ay + 1) * length;
        let ux: int = (ax + 1) * (ax + 1);
        let uy: int = (ay + 1) * (ay + 1);
        lemma_square_below(a, cx);
        lemma_square_below(b, cy);
        assert(cx * cx == ux * ll) by (nonlinear_arith)
            requires
                cx == (ax + 1) * length,
                ux == (ax + 1) * (ax + 1),
                ll == length * length,
        ;
        assert(cy * cy == uy * ll) by (nonlinear_arith)
            requires
                cy == (ay + 1) * length,
                uy == (ay + 1) * (ay + 1),
                ll == length * length,
        ;
        assert((ux + uy) * ll == ux * ll + uy * ll) by (nonlinear_arith);
        assert((ux + uy) * ll > 1_000_000 * ll);
        assert(ux + uy > 1_000_000) by (nonlinear_arith)
            requires
                (ux + uy) * ll > 1_000_000 * ll,
                ll > 0,
        ;
    }
}

/// Of two numbers that are not negative the smaller has the smaller square.
proof fn lemma_square_below(a: int, b: int)
    requires
        0 <= a < b,
    ensures
        a * a < b * b,
{
    assert(a * a < b * b) by (nonlinear_arith)
        requires
            0 <= a < b,
    ;
}

/// The velocity of a shot fired at `from`.
fn aim(from: (i32, i32), player: Option<(i32, i32)>) -> (v: Velocity)
    ensures
        v == aimed(from, player),
{
    match player {
        Some(to) => {
            let dx: i64 = to.0 as i64 - from.0 as i64;
            let dy: i64 = to.1 as i64 - from.1 as i64;
            assert(dx * dx + dy * dy <= 0x2_0000_0000_0000_0000) by (nonlinear_arith)
                requires
                    -0x1_0000_0000 <= dx <= 0x1_0000_0000,
                    -0x1_0000_0000 <= dy <= 0x1_0000_0000,
            ;
            let length: u64 = isqrt(norm_squared(dx, dy) * 1_000_000);
            if length == 0 {
                Velocity { x: 0, y: -1000 }
            } else {
                proof {
                    lemma_aim(from, to);
                }
                let x: i128 = (dx as i128 * 1_000_000) / (length as i128);
                let y: i128 = (dy as i128 * 1_000_000) / (length as i128);
                Velocity { x: x as i32, y: y as i32 }
            }
        },
        None => Velocity { x: 0, y: -1000 },
    }
}

impl World {
    /// Where the player is, if there is one and it has a place.
    pub fn player_position(&self) -> (at: Option<(i32, i32)>)
        ensures
            at == self@.player_position(),
    {
        match self.find_player() {
            Some(i) => match self.entities[i].transform {
                Some(t) => Some(t.translation),
                None => None,
            },
            None => None,
        }
    }
}

/// Whether an entity is an enemy that can fire.
fn check_gunner(e: &Entity) -> (r: bool)
    ensures
        r == is_gunner(*e),
{
    e.enemy.is_some() && e.transform.is_some() && e.velocity.is_some() && e.enemy_state.is_some()
}

/// Lets every enemy whose gun has cooled down fire at the player.
pub fn enemy_fire_system(world: &mut World, dt: u32)
    ensures
        final(world)@ == old(world)@.after_enemy_fire(dt),
{
    let player: Option<(i32, i32)> = world.player_position();
    let now: u64 = world.res.clock;
    let ghost before: Seq<Entity> = world.entities@;
    let ghost f = cooled_by(dt);
    let mut next: Vec<Entity> = Vec::new();
    let mut i: usize = 0;
    while i < world.entities.len()
        invariant
            i <= before.len(),
            world@ == old(world)@,
            before == old(world)@.entities,
            f == cooled_by(dt),
            next@ == before.take(i as int).map_values(f),
        decreases before.len() - i,
    {
        let mut e: Entity = world.entities[i];
        if check_gunner(&e) {
            let mut state: EnemyState = e.enemy_state.unwrap();
            if state.fire_cooldown.tick(dt) {
                state.fire_cooldown.reset();
            }
            e.enemy_state = Some(state);
        }
        next.push(e);
        assert(next@ =~= before.take(i + 1).map_values(f));
        i = i + 1;
    }
    assert(before.take(before.len() as int) =~= before);
    std::mem::swap(&mut world.entities, &mut next);
    let gunners: Vec<Entity> = next;
    let ghost cooled_world: WorldView = world@;
    let mut k: usize = 0;
    while k < gunners.len()
        invariant
            k <= gunners.len(),
            gunners@ == before,
            now == cooled_world.res.clock,
            cooled_world == old(world)@.guns_cooled(dt),
            world@ == cooled_world.salvo(before, player, dt, k as int),
        decreases gunners.len() - k,
    {
        let e: Entity = gunners[k];
        if check_gunner(&e) {
            let mut timer: CooldownTimer = e.enemy_state.unwrap().fire_cooldown;
            if timer.tick(dt) {
                let from: Transform = e.transform.unwrap();
                let laser = Entity {
                    transform: Some(
                        Transform {
                            translation: from.translation,
                            facing: from.facing,
                            scale: SPRITE_SCALE,
                        },
                    ),
                    laser: Some(Laser),
                    damage: Some(
                        Damage {
                            dmg: if now < ENEMY_WARMUP {
                                1_000
                            } else {
                                10_000
                            },
                            multiplier: 1_000,
                            limit: 2_000,
                        },
                    ),
                    movable: Some(Movable { auto_despawn: true }),
                    from_enemy: Some(FromEnemy),
                    parent: Some(ParentEntity { entity: e.id }),
                    sprite_size: Some(SpriteSize::from(ENEMY_LASER_SIZE)),
                    velocity: Some(aim(from.translation, player)),
                    ..Entity::new()
                };
                world.spawn(laser);
            }
        }
        k = k + 1;
    }
}

// --- Movement

/// Pi, in millionths.
pub const PI_MICRO: i64 = 3_141_593;

/// Cosine and sine of the angle at which an enemy is to be on its
/// formation, in millionths.
#[derive(Clone, Copy, Debug, PartialEq, Eq)]
pub struct Heading {
    pub cos: i32,
    pub sin: i32,
}

/// What fixes the place on a formation that an enemy makes for next: the
/// place is at `angle`, in millionths of a radian, past the direction in
/// which `start` lies as seen from `pivot`.
#[derive(Clone, Copy, Debug, PartialEq, Eq)]
pub struct Bearing {
    pub start: (i32, i32),
    pub pivot: (i32, i32),
    pub angle: i64,
}

/// Why the enemies cannot move.
#[derive(Clone, Copy, Debug, PartialEq, Eq)]
pub enum MovementError {
    /// An enemy is on a formation with a radius that is zero or negative,
    /// or with a negative speed.
    DegenerateFormation,
    /// There is not one heading for each enemy on a formation.
    HeadingCount,
}

impl Formation {
    /// The farthest an enemy gets in `dt` microseconds.
    pub open spec fn max_step(self, dt: u32) -> int {
        quot(self.speed * dt, 1_000_000)
    }

    /// The speed with the sense of rotation: squads from the left turn one
    /// way, squads from the right the other.
    pub open spec fn signed_speed(self) -> int {
        if self.start.0 < 0 {
            -self.speed
        } else {
            self.speed as int
        }
    }

    /// The smaller radius.
    pub open spec fn min_radius(self) -> int {
        min_int(self.radius.0 as int, self.radius.1 as int)
    }

    /// The angle travelled after `dt` more microseconds: the way made at
    /// the formation's speed, over a quarter of the circle of the smaller
    /// radius. A formation that is not valid stays at its angle.
    pub open spec fn next_angle(self, dt: u32) -> int {
        if self.is_valid() {
            sat64(
                self.angle + quot(
                    self.signed_speed() * dt * 2_000_000,
                    self.min_radius() * PI_MICRO,
                ),
            )
        } else {
            self.angle as int
        }
    }

    /// The place on the ellipse at `heading`.
    pub open spec fn target(self, heading: Heading) -> (i32, i32) {
        (
            sat32(self.pivot.0 + quot(self.radius.0 * heading.cos, 1_000_000)) as i32,
            sat32(self.pivot.1 + quot(self.radius.1 * heading.sin, 1_000_000)) as i32,
        )
    }

    /// What a caller needs to work out the heading for the next step.
    pub open spec fn bearing(self, dt: u32) -> Bearing {
        Bearing { start: self.start, pivot: self.pivot, angle: self.next_angle(dt) as i64 }
    }
}

/// A coordinate after one step from `p` toward `dst`: `max_step` times the
/// share that this axis has in `distance`, and never past `dst`.
pub open spec fn approach(p: i32, dst: i32, max_step: int, distance: int) -> int {
    let stepped = if distance == 0 {
        p as int
    } else {
        p - quot((p - dst) * max_step, distance)
    };
    sat32(
        if p - dst > 0 {
            max_int(stepped, dst as int)
        } else {
            min_int(stepped, dst as int)
        },
    )
}

/// The direction in which an enemy at `from` looks: toward the player, or
/// straight down if there is none.
pub open spec fn facing_toward(from: (i32, i32), player: Option<(i32, i32)>) -> (i32, i32) {
    match player {
        Some(to) => (sat32(to.0 - from.0) as i32, sat32(to.1 - from.1) as i32),
        None => (0i32, -1000i32),
    }
}

/// An enemy that is on a formation.
pub open spec fn is_rider(e: Entity) -> bool {
    e.enemy.is_some() && e.transform.is_some() && e.formation.is_some() && e.velocity.is_some()
}

/// How far an enemy at `at` is from the place on its formation at
/// `heading`.
pub open spec fn distance_to_target(at: (i32, i32), f: Formation, heading: Heading) -> int {
    let dx = at.0 - f.target(heading).0;
    let dy = at.1 - f.target(heading).1;
    sqrt_floor(dx * dx + dy * dy)
}

/// The enemy keeps up with its formation: it is so close to its target
/// that the formation may turn on.
pub open spec fn keeps_up(at: (i32, i32), f: Formation, heading: Heading, dt: u32) -> bool {
    distance_to_target(at, f, heading) * 20_000 < f.max_step(dt) * f.speed
}

/// An enemy on a formation after `dt` microseconds, `heading` being that of
/// the formation's next angle. The enemy makes a step toward its place on
/// the ellipse; the formation turns on only if the enemy keeps up; the
/// velocity records the way that was still to go; and the enemy looks at the
/// player.
pub open spec fn marched(
    e: Entity,
    heading: Heading,
    player: Option<(i32, i32)>,
    dt: u32,
) -> Entity {
    let f = e.formation.unwrap();
    let t = e.transform.unwrap();
    let at = t.translation;
    let dst = f.target(heading);
    let distance = distance_to_target(at, f, heading);
    let to = (
        approach(at.0, dst.0, f.max_step(dt), distance) as i32,
        approach(at.1, dst.1, f.max_step(dt), distance) as i32,
    );
    Entity {
        transform: Some(Transform { translation: to, facing: facing_toward(to, player), ..t }),
        formation: Some(
            Formation {
                angle: if keeps_up(at, f, heading, dt) {
                    f.next_angle(dt) as i64
                } else {
                    f.angle
                },
                ..f
            },
        ),
        velocity: Some(
            Velocity {
                x: sat32(quot((dst.0 - at.0) * dt, 1_000_000)) as i32,
                y: sat32(quot((at.1 - dst.1) * dt, 1_000_000)) as i32,
            },
        ),
        ..e
    }
}

/// The bearing of an entity, if it is an enemy on a formation.
pub open spec fn bearing_of(dt: u32) -> spec_fn(Entity) -> Option<Bearing> {
    |e: Entity|
        if is_rider(e) {
            Some(e.formation.unwrap().bearing(dt))
        } else {
            None
        }
}

impl WorldView {
    /// Number of enemies on a formation among the first `n` entities.
    pub open spec fn riders_among(self, n: int) -> int
        decreases n,
    {
        if n <= 0 {
            0
        } else {
            self.riders_among(n - 1) + if is_rider(self.entities[n - 1]) {
                1int
            } else {
                0int
            }
        }
    }

    /// The bearings of the enemies on a formation, in the order of the
    /// entities.
    pub open spec fn bearings(self, dt: u32) -> Seq<Bearing> {
        self.entities.filter_map(bearing_of(dt))
    }

    /// The first `n` entities after a movement phase of the enemies, each
    /// enemy on a formation with the heading at its rank among them.
    pub open spec fn marched_among(self, headings: Seq<Heading>, dt: u32, n: int) -> Seq<Entity>
        decreases n,
    {
        if n <= 0 {
            Seq::empty()
        } else if is_rider(self.entities[n - 1]) {
            self.marched_among(headings, dt, n - 1).push(
                marched(
                    self.entities[n - 1],
                    headings[self.riders_among(n - 1)],
                    self.player_position(),
                    dt,
                ),
            )
        } else {
            self.marched_among(headings, dt, n - 1).push(self.entities[n - 1])
        }
    }

    /// The reason, if any, for which the enemies cannot move with these
    /// headings.
    pub open spec fn movement_error(self, headings: Seq<Heading>) -> Option<MovementError> {
        if exists|i: int|
            0 <= i < self.entities.len() && is_rider(#[trigger] self.entities[i])
                && !self.entities[i].formation.unwrap().is_valid() {
            Some(MovementError::DegenerateFormation)
        } else if headings.len() != self.riders_among(self.entities.len() as int) {
            Some(MovementError::HeadingCount)
        } else {
            None
        }
    }

    /// The world after a movement phase of the enemies. Where the phase
    /// cannot be carried out, nothing changes.
    pub open spec fn after_enemy_movement(self, headings: Seq<Heading>, dt: u32) -> WorldView {
        if self.movement_error(headings).is_none() {
            WorldView {
                entities: self.marched_among(headings, dt, self.entities.len() as int),
                ..self
            }
        } else {
            self
        }
    }
}

/// Whether an entity is an enemy on a formation.
fn check_rider(e: &Entity) -> (r: bool)
    ensures
        r == is_rider(*e),
{
    e.enemy.is_some() && e.transform.is_some() && e.formation.is_some() && e.velocity.is_some()
}

impl Formation {
    /// Whether both radii are positive and the speed is not negative.
    pub fn check_valid(&self) -> (valid: bool)
        ensures
            valid == self.is_valid(),
    {
        self.radius.0 > 0 && self.radius.1 > 0 && self.speed >= 0
    }

    /// The farthest an enemy gets in `dt` microseconds.
    fn step_length(&self, dt: u32) -> (r: i64)
        ensures
            r == self.max_step(dt),
    {
        times(self.speed, dt) / 1_000_000
    }

    /// The angle travelled after `dt` more microseconds.
    pub fn advanced_angle(&self, dt: u32) -> (angle: i64)
        ensures
            angle == self.next_angle(dt),
    {
        if self.check_valid() {
            let signed: i64 = if self.start.0 < 0 {
                -(self.speed as i64)
            } else {
                self.speed as i64
            };
            let min_radius: i64 = if self.radius.0 <= self.radius.1 {
                self.radius.0 as i64
            } else {
                self.radius.1 as i64
            };
            assert(-0x8000_0000_0000_0000 <= signed * (dt as i64) <= 0x8000_0000_0000_0000)
                by (nonlinear_arith)
                requires
                    -0x8000_0000 <= signed <= 0x8000_0000,
                    0 <= dt <= 0xffff_ffff,
            ;
            let way: i128 = wide(signed, dt as i64) * 2_000_000;
            let quarter: i128 = (min_radius * PI_MICRO) as i128;
            saturate64(self.angle as i128 + quotient(way, quarter))
        } else {
            self.angle
        }
    }

    /// The place on the ellipse at `heading`.
    pub fn target_at(&self, heading: &Heading) -> (at: (i32, i32))
        ensures
            at == self.target(*heading),
    {
        let x: i128 = wide(self.radius.0 as i64, heading.cos as i64) / 1_000_000;
        let y: i128 = wide(self.radius.1 as i64, heading.sin as i64) / 1_000_000;
        (saturate(self.pivot.0 as i128 + x), saturate(self.pivot.1 as i128 + y))
    }
}

/// A coordinate after one step from `p` toward `dst`.
fn step_toward(p: i32, dst: i32, max_step: i64, distance: u64) -> (r: i32)
    ensures
        r == approach(p, dst, max_step as int, distance as int),
{
    let d: i64 = p as i64 - dst as i64;
    let stepped: i128 = if distance == 0 {
        p as i128
    } else {
        assert(-0x1_0000_0000_0000_0000_0000_0000 <= d * max_step
            <= 0x1_0000_0000_0000_0000_0000_0000) by (nonlinear_arith)
            requires
                -0x1_0000_0000 <= d <= 0x1_0000_0000,
                -0x8000_0000_0000_0000 <= max_step <= 0x8000_0000_0000_0000,
        ;
        p as i128 - quotient(wide(d, max_step), distance as i128)
    };
    if d > 0 {
        if stepped > dst as i128 {
            saturate(stepped)
        } else {
            dst
        }
    } else {
        if stepped < dst as i128 {
            saturate(stepped)
        } else {
            dst
        }
    }
}

/// One enemy on a formation after `dt` microseconds.
pub fn march(e: Entity, heading: &Heading, player: Option<(i32, i32)>, dt: u32) -> (r: Entity)
    requires
        is_rider(e),
        e.formation.unwrap().is_valid(),
    ensures
        r == marched(e, *heading, player, dt),
{
    let f: Formation = e.formation.unwrap();
    let t: Transform = e.transform.unwrap();
    let at: (i32, i32) = t.translation;
    let max_step: i64 = f.step_length(dt);
    // compute next angle
    let angle: i64 = f.advanced_angle(dt);
    // compute target xy
    let dst: (i32, i32) = f.target_at(heading);
    let dx: i64 = at.0 as i64 - dst.0 as i64;
    let dy: i64 = at.1 as i64 - dst.1 as i64;
    let distance: u64 = isqrt(norm_squared(dx, dy));
    let mut formation: Formation = f;
    if (distance as i128) * 20_000 < wide(max_step, f.speed as i64) {
        formation.angle = angle;
    }
    // compute final xy
    let x: i32 = step_toward(at.0, dst.0, max_step, distance);
    let y: i32 = step_toward(at.1, dst.1, max_step, distance);
    let facing: (i32, i32) = match player {
        Some(to) => (saturate(to.0 as i128 - x as i128), saturate(to.1 as i128 - y as i128)),
        None => (0, -1000),
    };
    let mut next: Entity = e;
    next.transform = Some(Transform { translation: (x, y), facing, scale: t.scale });
    next.formation = Some(formation);
    next.velocity = Some(
        Velocity {
            x: saturate(wide(-dx, dt as i64) / 1_000_000),
            y: saturate(wide(dy, dt as i64) / 1_000_000),
        },
    );
    next
}

/// The bearings of the enemies on a formation, in the order of the
/// entities: what the headings for the next movement phase are worked out
/// from.
pub fn enemy_bearings(world: &World, dt: u32) -> (bearings: Vec<Bearing>)
    ensures
        bearings@ == world@.bearings(dt),
        bearings@.len() == world@.riders_among(world@.entities.len() as int),
{
    let ghost all: Seq<Entity> = world.entities@;
    let ghost f = bearing_of(dt);
    let mut bearings: Vec<Bearing> = Vec::new();
    let mut i: usize = 0;
    assert(all.take(0).filter_map(f) =~= Seq::<Bearing>::empty());
    while i < world.entities.len()
        invariant
            i <= all.len(),
            all == world.entities@,
            f == bearing_of(dt),
            bearings@ == all.take(i as int).filter_map(f),
            bearings@.len() == world@.riders_among(i as int),
        decreases all.len() - i,
    {
        proof {
            all.lemma_filter_map_take_succ(f, i as int);
        }
        let e: Entity = world.entities[i];
        if check_rider(&e) {
            let formation: Formation = e.formation.unwrap();
            bearings.push(
                Bearing {
                    start: formation.start,
                    pivot: formation.pivot,
                    angle: formation.advanced_angle(dt),
                },
            );
        }
        i = i + 1;
    }
    assert(all.take(all.len() as int) =~= all);
    bearings
}

/// Moves every enemy on a formation one step toward its place on the
/// ellipse and turns it to the player. `headings` holds, for each such
/// enemy in the order of the entities, cosine and sine of the angle of its
/// bearing. Where an enemy is on a formation that is not valid, or the
/// headings are not one for each, the phase fails and nothing changes.
pub fn enemy_movement_system(world: &mut World, dt: u32, headings: &Vec<Heading>) -> (done: Result<
    (),
    MovementError,
>)
    ensures
        final(world)@ == old(world)@.after_enemy_movement(headings@, dt),
        match done {
            Ok(_) => old(world)@.movement_error(headings@).is_none(),
            Err(e) => old(world)@.movement_error(headings@) == Some(e),
        },
{
    let ghost w: WorldView = world@;
    let mut riders: usize = 0;
    let mut i: usize = 0;
    while i < world.entities.len()
        invariant
            i <= world.entities.len(),
            world@ == w,
            riders == w.riders_among(i as int),
            riders <= i,
            forall|j: int|
                0 <= j < i && is_rider(#[trigger] w.entities[j])
                    ==> w.entities[j].formation.unwrap().is_valid(),
        decreases world.entities.len() - i,
    {
        let e: Entity = world.entities[i];
        if check_rider(&e) {
            if !e.formation.unwrap().check_valid() {
                assert(is_rider(w.entities[i as int]));
                return Err(MovementError::DegenerateFormation);
            }
            riders = riders + 1;
        }
        i = i + 1;
    }
    if headings.len() != riders {
        return Err(MovementError::HeadingCount);
    }
    let player: Option<(i32, i32)> = world.player_position();
    let mut next: Vec<Entity> = Vec::new();
    let mut rank: usize = 0;
    let mut i: usize = 0;
    while i < world.entities.len()
        invariant
            i <= world.entities.len(),
            world@ == w,
            player == w.player_position(),
            rank == w.riders_among(i as int),
            headings.len() == w.riders_among(w.entities.len() as int),
            forall|j: int|
                0 <= j < w.entities.len() && is_rider(#[trigger] w.entities[j])
                    ==> w.entities[j].formation.unwrap().is_valid(),
            next@ == w.marched_among(headings@, dt, i as int),
        decreases world.entities.len() - i,
    {
        let e: Entity = world.entities[i];
        if check_rider(&e) {
            proof {
                lemma_riders_grow(w, i as int + 1, w.entities.len() as int);
            }
            next.push(march(e, &headings[rank], player, dt));
            rank = rank + 1;
        } else {
            next.push(e);
        }
        i = i + 1;
    }
    world.entities = next;
    Ok(())
}

/// The count of enemies on a formation grows with the number of entities
/// looked at.
proof fn lemma_riders_grow(w: WorldView, a: int, b: int)
    requires
        a <= b,
    ensures
        w.riders_among(a) <= w.riders_among(b),
    decreases b - a,
{
    if a < b {
        lemma_riders_grow(w, a, b - 1);
    }
}

/// On a formation that can be followed the step length is not negative.
pub proof fn lemma_valid_step(f: Formation, dt: u32)
    requires
        f.is_valid(),
    ensures
        f.max_step(dt) >= 0,
{
    assert(f.speed * dt >= 0) by (nonlinear_arith)
        requires
            f.speed >= 0,
            dt >= 0,
    ;
    lemma_quot_bounds(f.speed * dt, 1_000_000);
}

/// An enemy on a formation that can be followed never steps past its
/// target: after a movement phase it is between where it was and the place
/// on the ellipse it makes for, on each axis.
pub proof fn lemma_march_no_overshoot(
    e: Entity,
    heading: Heading,
    player: Option<(i32, i32)>,
    dt: u32,
)
    requires
        is_rider(e),
        e.formation.unwrap().is_valid(),
    ensures
        min_int(
            e.transform.unwrap().translation.0 as int,
            e.formation.unwrap().target(heading).0 as int,
        ) <= marched(e, heading, player, dt).transform.unwrap().translation.0 <= max_int(
            e.transform.unwrap().translation.0 as int,
            e.formation.unwrap().target(heading).0 as int,
        ),
        min_int(
            e.transform.unwrap().translation.1 as int,
            e.formation.unwrap().target(heading).1 as int,
        ) <= marched(e, heading, player, dt).transform.unwrap().translation.1 <= max_int(
            e.transform.unwrap().translation.1 as int,
            e.formation.unwrap().target(heading).1 as int,
        ),
{
    let f = e.formation.unwrap();
    let at = e.transform.unwrap().translation;
    let dst = f.target(heading);
    lemma_valid_step(f, dt);
    lemma_sqrt_floor_spans(at.0 - dst.0, at.1 - dst.1);
    let distance = distance_to_target(at, f, heading);
    lemma_no_overshoot(at.0, dst.0, f.max_step(dt), distance);
    lemma_no_overshoot(at.1, dst.1, f.max_step(dt), distance);
}

/// A step with a step length that is not negative ends between where it
/// began and the target, on each axis.
pub proof fn lemma_no_overshoot(p: i32, dst: i32, max_step: int, distance: int)
    requires
        max_step >= 0,
        distance >= 0,
    ensures
        min_int(p as int, dst as int) <= approach(p, dst, max_step, distance) <= max_int(
            p as int,
            dst as int,
        ),
{
    if distance > 0 {
        let d: int = p - dst;
        if d > 0 {
            assert(d * max_step >= 0) by (nonlinear_arith)
                requires
                    d > 0,
                    max_step >= 0,
            ;
            assert((d * max_step) / distance >= 0) by (nonlinear_arith)
                requires
                    d * max_step >= 0,
                    distance > 0,
            ;
        } else {
            assert((-d) * max_step >= 0) by (nonlinear_arith)
                requires
                    d <= 0,
                    max_step >= 0,
            ;
            assert(-(d * max_step) == (-d) * max_step) by (nonlinear_arith);
            assert(((-d) * max_step) / distance >= 0) by (nonlinear_arith)
                requires
                    (-d) * max_step >= 0,
                    distance > 0,
            ;
        }
    }
}

} // verus!
