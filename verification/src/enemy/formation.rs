//! Flight paths for enemy squads.
//!
//! A formation is an ellipse round a pivot. The members of one squad share
//! the shape of their path; each of them then moves along it on its own.

use vstd::prelude::*;
use rand::Rng;
use crate::fixed::{div_up, quot};
use crate::resources::{WinSize, BASE_SPEED, FORMATION_MEMBERS_MAX};

verus! {

/// How far outside the viewport a squad enters.
pub const SPAWN_MARGIN: i32 = 100_000;

/// How far above the upper third of the viewport a pivot may lie.
pub const PIVOT_MARGIN: i32 = 50_000;

/// Smallest horizontal radius of a formation.
pub const RADIUS_X_MIN: i32 = 150_000;

/// Bound above the horizontal radius of a formation.
pub const RADIUS_X_MAX: i32 = 200_000;

/// Vertical radius of every formation.
pub const RADIUS_Y: i32 = 100_000;

#[derive(Clone, Copy, Debug, PartialEq, Eq)]
pub struct Formation {
    pub start: (i32, i32),
    pub radius: (i32, i32),
    pub pivot: (i32, i32),
    pub speed: i32,
    /// The angle travelled round the pivot since the start, in millionths of
    /// a radian. The place on the ellipse is at this angle past the
    /// direction in which `start` lies as seen from `pivot`.
    pub angle: i64,
}

impl Formation {
    /// Both radii are positive and the speed is not negative, so the path
    /// can be followed, and a step along it leads toward its target.
    pub open spec fn is_valid(self) -> bool {
        self.radius.0 > 0 && self.radius.1 > 0 && self.speed >= 0
    }

    /// The formation has the shape and the speed that the maker gives: a
    /// horizontal radius from its range, the one vertical radius, and half
    /// the base speed. Such a formation can be followed.
    pub open spec fn is_made(self) -> bool {
        &&& RADIUS_X_MIN <= self.radius.0 < RADIUS_X_MAX
        &&& self.radius.1 == RADIUS_Y
        &&& self.speed == BASE_SPEED / 2
    }
}

/// The random choices that make up one formation.
#[derive(Clone, Copy, Debug, PartialEq, Eq)]
pub struct FormationDraw {
    /// Enter from the right edge of the viewport rather than the left.
    pub right: bool,
    /// Height at which the squad enters.
    pub y: i32,
    pub pivot: (i32, i32),
    pub radius_x: i32,
}

impl FormationDraw {
    /// Each choice lies in the range that the viewport gives it. The squad
    /// enters at a height within half the viewport's height and the margin
    /// of the middle; the pivot lies within a quarter of the viewport's
    /// width of the middle, and above it by less than a third of the
    /// viewport's height and the margin. Each range holds its lower end and
    /// not its upper end.
    pub open spec fn fits(self, win: WinSize) -> bool {
        &&& -(win.h + 2 * SPAWN_MARGIN) <= 2 * self.y < win.h + 2 * SPAWN_MARGIN
        &&& -win.w <= 4 * self.pivot.0 < win.w
        &&& 0 <= 3 * self.pivot.1 < win.h + 3 * PIVOT_MARGIN
        &&& RADIUS_X_MIN <= self.radius_x < RADIUS_X_MAX
    }

    /// The formation that the choices describe: it starts beside the
    /// viewport, at half the base speed, with no angle travelled yet.
    pub open spec fn formation(self, win: WinSize) -> Formation {
        let w_span = quot(win.w as int, 2) + SPAWN_MARGIN;
        Formation {
            start: (
                if self.right {
                    w_span as i32
                } else {
                    (-w_span) as i32
                },
                self.y,
            ),
            radius: (self.radius_x, RADIUS_Y),
            pivot: self.pivot,
            speed: (BASE_SPEED / 2) as i32,
            angle: 0,
        }
    }
}

/// Hands out formations, one squad after the other.
#[derive(Clone, Copy, Debug, PartialEq, Eq)]
pub struct FormationMaker {
    /// The formation that the current squad shares.
    pub current_template: Option<Formation>,
    /// How many members the current squad has been given.
    pub current_members: u32,
    /// How many members a squad may have.
    pub squad_cap: u32,
}

impl FormationMaker {

    /// The template, if there is one, can be followed.
    pub open spec fn holds_valid(self) -> bool {
        self.current_template.is_some() ==> self.current_template.unwrap().is_valid()
    }

    /// The template, if there is one, has the shape and the speed that the
    /// maker gives.
    pub open spec fn holds_made(self) -> bool {
        self.current_template.is_some() ==> self.current_template.unwrap().is_made()
    }

    /// The next member still joins the current squad.
    pub open spec fn reuses(self) -> bool {
        self.current_template.is_some() && self.current_members < self.squad_cap
    }

    /// The state after one more formation was handed out, `draw` being the
    /// choices to use if a new squad begins.
    pub open spec fn step(self, win: WinSize, draw: FormationDraw) -> FormationMaker {
        if self.reuses() {
            FormationMaker { current_members: (self.current_members + 1) as u32, ..self }
        } else {
            FormationMaker {
                current_template: Some(draw.formation(win)),
                current_members: 1,
                ..self
            }
        }
    }

    /// The formation handed out by that step.
    pub open spec fn handed(self, win: WinSize, draw: FormationDraw) -> Formation {
        if self.reuses() {
            self.current_template.unwrap()
        } else {
            draw.formation(win)
        }
    }

    /// The state after the first `n` of a run of steps.
    pub open spec fn run(self, win: WinSize, draws: Seq<FormationDraw>, n: nat) -> FormationMaker
        decreases n,
    {
        if n == 0 {
            self
        } else {
            self.run(win, draws, (n - 1) as nat).step(win, draws[n - 1])
        }
    }
}

/// Calls `rand::Rng::gen_range` on the thread's generator with the range
/// `lo..hi`. The call panics on an empty range, which the precondition rules
/// out; every value it returns lies in the range. The generator itself
/// stops the thread if the operating system gives it no seed.
#[verifier::external_body]
fn rand_in_range(lo: i32, hi: i32) -> (v: i32)
    requires
        lo < hi,
    ensures
        lo <= v < hi,
{
    rand::thread_rng().gen_range(lo..hi)
}

/// Calls `rand::Rng::gen_ratio` on the thread's generator, which answers
/// `true` with a chance of `numerator` in `denominator`. The call panics
/// on a denominator of zero and on a numerator above the denominator, which
/// the precondition rules out. With the two equal the answer is always
/// `true`, with a numerator of zero always `false`; of any other answer
/// nothing is known. The generator itself stops the thread if the
/// operating system gives it no seed.
#[verifier::external_body]
fn rand_ratio(numerator: u32, denominator: u32) -> (heads: bool)
    requires
        denominator > 0,
        numerator <= denominator,
    ensures
        numerator == denominator ==> heads,
        numerator == 0 ==> !heads,
{
    rand::thread_rng().gen_ratio(numerator, denominator)
}

impl FormationMaker {
    /// A maker that has handed out nothing yet.
    pub fn new(squad_cap: u32) -> (maker: Self)
        ensures
            maker == (FormationMaker { current_template: None, current_members: 0, squad_cap }),
    {
        FormationMaker { current_template: None, current_members: 0, squad_cap }
    }

    /// Draws the choices for a new formation at random: the side with an
    /// even chance, each of the others from its range.
    pub fn draw(win_size: &WinSize) -> (draw: FormationDraw)
        requires
            win_size.is_valid(),
        ensures
            draw.fits(*win_size),
    {
        let right: bool = rand_ratio(1, 2);
        let y: i32 = rand_in_range(
            -(win_size.h / 2) - SPAWN_MARGIN,
            div_up(win_size.h, 2) + SPAWN_MARGIN,
        );
        let pivot_x: i32 = rand_in_range(-(win_size.w / 4), div_up(win_size.w, 4));
        let pivot_y: i32 = rand_in_range(0, div_up(win_size.h, 3) + PIVOT_MARGIN);
        let radius_x: i32 = rand_in_range(RADIUS_X_MIN, RADIUS_X_MAX);
        FormationDraw { right, y, pivot: (pivot_x, pivot_y), radius_x }
    }

    /// Hands out the formation for the next enemy, with `draw` as the choices
    /// to use if a new squad begins: a copy of the current template while
    /// the squad is not full, and a new template otherwise.
    pub fn make_from(&mut self, win_size: &WinSize, draw: FormationDraw) -> (formation: Formation)
        requires
            win_size.is_valid(),
        ensures
            *final(self) == old(self).step(*win_size, draw),
            formation == old(self).handed(*win_size, draw),
            final(self).current_template == Some(formation),
            old(self).squad_cap >= 1 && old(self).current_members <= old(self).squad_cap
                ==> 1 <= final(self).current_members <= final(self).squad_cap,
            old(self).holds_valid() && draw.fits(*win_size)
                ==> formation.is_valid() && final(self).holds_valid(),
            old(self).holds_made() && draw.fits(*win_size)
                ==> formation.is_made() && final(self).holds_made(),
    {
        let reuse: Option<Formation> = if self.current_members < self.squad_cap {
            self.current_template
        } else {
            None
        };
        match reuse {
            Some(tmpl) => {
                self.current_members = self.current_members + 1;
                tmpl
            },
            None => {
                let w_span: i32 = win_size.w / 2 + SPAWN_MARGIN;
                let x: i32 = if draw.right {
                    w_span
                } else {
                    -w_span
                };
                let formation = Formation {
                    start: (x, draw.y),
                    pivot: draw.pivot,
                    radius: (draw.radius_x, RADIUS_Y),
                    angle: 0,
                    speed: BASE_SPEED / 2,
                };
                self.current_template = Some(formation);
                self.current_members = 1;
                formation
            },
        }
    }

    /// Hands out the formation for the next enemy. While the squad is not
    /// full that is its template, and nothing is drawn. Otherwise a new
    /// template is drawn at random: what comes back then is the formation of
    /// some choices that fit the viewport, and so one that can be followed.
    pub fn make(&mut self, win_size: &WinSize) -> (formation: Formation)
        requires
            win_size.is_valid(),
        ensures
            old(self).holds_valid() ==> formation.is_valid() && final(self).holds_valid(),
            old(self).holds_made() ==> formation.is_made() && final(self).holds_made(),
            old(self).reuses() ==> Some(formation) == old(self).current_template && *final(self) == (
            FormationMaker {
                current_members: (old(self).current_members + 1) as u32,
                ..*old(self)
            }),
            !old(self).reuses() ==> formation.is_valid() && *final(self) == (FormationMaker {
                current_template: Some(formation),
                current_members: 1,
                ..*old(self)
            }),
            exists|draw: FormationDraw|
                draw.fits(*win_size) && *final(self) == #[trigger] old(self).step(*win_size, draw)
                    && formation == old(self).handed(*win_size, draw),
    {
        if self.current_template.is_some() && self.current_members < self.squad_cap {
            let unused = FormationDraw { right: false, y: 0, pivot: (0, 0), radius_x: RADIUS_X_MIN };
            let formation = self.make_from(win_size, unused);
            assert(unused.fits(*win_size));
            assert(*self == old(self).step(*win_size, unused));
            formation
        } else {
            let draw = FormationMaker::draw(win_size);
            let formation = self.make_from(win_size, draw);
            assert(*self == old(self).step(*win_size, draw));
            formation
        }
    }
}

impl Default for FormationMaker {
    fn default() -> (maker: Self)
        ensures
            maker == (FormationMaker {
                current_template: None,
                current_members: 0,
                squad_cap: FORMATION_MEMBERS_MAX,
            }),
    {
        FormationMaker::new(FORMATION_MEMBERS_MAX)
    }
}

/// Within a squad the template is shared: from a maker about to begin a
/// squad, each of the first `squad_cap` formations handed out is the one
/// that the first choices describe, and the count of members goes up by one
/// each time.
pub proof fn lemma_squad_shares_template(
    m: FormationMaker,
    win: WinSize,
    draws: Seq<FormationDraw>,
    k: nat,
)
    requires
        !m.reuses(),
        k < m.squad_cap,
        k < draws.len(),
    ensures
        m.run(win, draws, k).handed(win, draws[k as int]) == draws[0].formation(win),
        m.run(win, draws, k + 1).current_template == Some(draws[0].formation(win)),
        m.run(win, draws, k + 1).current_members == k + 1,
        m.run(win, draws, k + 1).squad_cap == m.squad_cap,
    decreases k,
{
    if k > 0 {
        lemma_squad_shares_template(m, win, draws, (k - 1) as nat);
    }
    assert(m.run(win, draws, 0) == m);
    assert(m.run(win, draws, k + 1) == m.run(win, draws, k).step(win, draws[k as int]));
}

/// A full squad is followed by a new one: once `squad_cap` formations were
/// handed out, the next one is that of the choices made for it, and the
/// count of members is back at one.
pub proof fn lemma_full_squad_starts_anew(
    m: FormationMaker,
    win: WinSize,
    draws: Seq<FormationDraw>,
)
    requires
        !m.reuses(),
        m.squad_cap >= 1,
        m.squad_cap < draws.len(),
    ensures
        m.run(win, draws, m.squad_cap as nat).handed(win, draws[m.squad_cap as int])
            == draws[m.squad_cap as int].formation(win),
        m.run(win, draws, (m.squad_cap + 1) as nat).current_template == Some(
            draws[m.squad_cap as int].formation(win),
        ),
        m.run(win, draws, (m.squad_cap + 1) as nat).current_members == 1,
{
    let cap: nat = m.squad_cap as nat;
    lemma_squad_shares_template(m, win, draws, (cap - 1) as nat);
    assert(m.run(win, draws, cap + 1) == m.run(win, draws, cap).step(win, draws[cap as int]));
}

} // verus!
