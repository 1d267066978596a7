//! Counting the entities of one kind, and how the counts go along when a
//! sequence of entities is changed.

use vstd::prelude::*;
use crate::world::Entity;

verus! {

/// Number of entities among the first `n` of `s` of which `p` holds.
pub open spec fn count_where(s: Seq<Entity>, p: spec_fn(Entity) -> bool, n: int) -> int
    decreases n,
{
    if n <= 0 {
        0
    } else {
        count_where(s, p, n - 1) + if p(s[n - 1]) {
            1int
        } else {
            0int
        }
    }
}

/// Number of entities of `s` of which `p` holds.
pub open spec fn count_all(s: Seq<Entity>, p: spec_fn(Entity) -> bool) -> int {
    count_where(s, p, s.len() as int)
}

/// The entity is marked as the player.
pub open spec fn marked_player() -> spec_fn(Entity) -> bool {
    |e: Entity| e.player.is_some()
}

/// The entity is marked as an enemy.
pub open spec fn marked_enemy() -> spec_fn(Entity) -> bool {
    |e: Entity| e.enemy.is_some()
}

/// A count lies between zero and the number of entities counted over.
pub proof fn lemma_count_bounds(s: Seq<Entity>, p: spec_fn(Entity) -> bool, n: int)
    requires
        0 <= n,
    ensures
        0 <= count_where(s, p, n) <= n,
    decreases n,
{
    if n > 0 {
        lemma_count_bounds(s, p, n - 1);
    }
}

/// A count over the first `n` entities depends on those entities alone.
pub proof fn lemma_count_same_prefix(
    s: Seq<Entity>,
    t: Seq<Entity>,
    p: spec_fn(Entity) -> bool,
    n: int,
)
    requires
        0 <= n <= s.len(),
        n <= t.len(),
        forall|i: int| 0 <= i < n ==> p(s[i]) == p(t[i]),
    ensures
        count_where(s, p, n) == count_where(t, p, n),
    decreases n,
{
    if n > 0 {
        lemma_count_same_prefix(s, t, p, n - 1);
    }
}

/// Two counts agree where the two kinds agree on the entities counted
/// over, place by place.
pub proof fn lemma_count_agree(
    s: Seq<Entity>,
    p: spec_fn(Entity) -> bool,
    t: Seq<Entity>,
    q: spec_fn(Entity) -> bool,
    n: int,
)
    requires
        0 <= n <= s.len(),
        n <= t.len(),
        forall|i: int| 0 <= i < n ==> p(s[i]) == q(t[i]),
    ensures
        count_where(s, p, n) == count_where(t, q, n),
    decreases n,
{
    if n > 0 {
        lemma_count_agree(s, p, t, q, n - 1);
    }
}

/// One more entity adds one to the count if it is of the kind counted.
pub proof fn lemma_count_push(s: Seq<Entity>, p: spec_fn(Entity) -> bool, e: Entity)
    ensures
        count_all(s.push(e), p) == count_all(s, p) + if p(e) {
            1int
        } else {
            0int
        },
{
    lemma_count_same_prefix(s, s.push(e), p, s.len() as int);
}

/// Where nothing is of the kind counted, the count is zero, and the other
/// way round.
pub proof fn lemma_count_none(s: Seq<Entity>, p: spec_fn(Entity) -> bool, n: int)
    requires
        0 <= n <= s.len(),
    ensures
        count_where(s, p, n) == 0 <==> forall|i: int| 0 <= i < n ==> !p(#[trigger] s[i]),
    decreases n,
{
    if n > 0 {
        lemma_count_none(s, p, n - 1);
        lemma_count_bounds(s, p, n - 1);
        if count_where(s, p, n) == 0 {
            assert forall|i: int| 0 <= i < n implies !p(#[trigger] s[i]) by {
                if i < n - 1 {
                }
            }
        } else {
            if p(s[n - 1]) {
            } else {
                let i = choose|i: int| 0 <= i < n - 1 && p(#[trigger] s[i]);
                assert(p(s[i]));
            }
        }
    }
}

/// The count is one exactly if one entity is of the kind counted and no
/// other is.
pub proof fn lemma_count_one(s: Seq<Entity>, p: spec_fn(Entity) -> bool, n: int, k: int)
    requires
        0 <= k < n <= s.len(),
        p(s[k]),
    ensures
        count_where(s, p, n) == 1 <==> forall|i: int| 0 <= i < n && i != k ==> !p(#[trigger] s[i]),
        count_where(s, p, n) >= 1,
    decreases n,
{
    lemma_count_bounds(s, p, n - 1);
    if k == n - 1 {
        lemma_count_none(s, p, n - 1);
        if count_where(s, p, n) == 1 {
            assert forall|i: int| 0 <= i < n && i != k implies !p(#[trigger] s[i]) by {}
        }
    } else {
        lemma_count_one(s, p, n - 1, k);
        if count_where(s, p, n) == 1 {
            assert forall|i: int| 0 <= i < n && i != k implies !p(#[trigger] s[i]) by {
                if i < n - 1 {
                }
            }
        } else {
            if p(s[n - 1]) {
                assert(n - 1 != k);
            } else {
                let i = choose|i: int| 0 <= i < n - 1 && i != k && p(#[trigger] s[i]);
                assert(p(s[i]));
            }
        }
    }
}

/// A change of the entities that leaves each as it is for the count leaves
/// the count as it is.
pub proof fn lemma_count_map(
    s: Seq<Entity>,
    f: spec_fn(Entity) -> Entity,
    p: spec_fn(Entity) -> bool,
)
    requires
        forall|i: int| 0 <= i < s.len() ==> p(f(#[trigger] s[i])) == p(s[i]),
    ensures
        count_all(s.map_values(f), p) == count_all(s, p),
{
    lemma_count_same_prefix(s.map_values(f), s, p, s.len() as int);
}

/// After entities were removed and changed, the count is that of the
/// entities before which have stayed and are of the kind counted after.
pub proof fn lemma_count_kept(
    s: Seq<Entity>,
    f: spec_fn(Entity) -> Option<Entity>,
    p: spec_fn(Entity) -> bool,
    q: spec_fn(Entity) -> bool,
)
    requires
        forall|i: int|
            0 <= i < s.len() ==> q(#[trigger] s[i]) == (f(s[i]).is_some() && p(f(s[i]).unwrap())),
    ensures
        count_all(s.filter_map(f), p) == count_all(s, q),
    decreases s.len(),
{
    if s.len() > 0 {
        let rest = s.drop_last();
        assert forall|i: int| 0 <= i < rest.len() implies q(#[trigger] rest[i]) == (f(
            rest[i],
        ).is_some() && p(f(rest[i]).unwrap())) by {
            assert(rest[i] == s[i]);
        }
        lemma_count_kept(rest, f, p, q);
        lemma_count_same_prefix(rest, s, q, rest.len() as int);
        let last = s[s.len() - 1];
        assert(s.last() == last);
        match f(last) {
            Some(kept) => {
                assert(s.filter_map(f) == rest.filter_map(f) + seq![kept]);
                assert(rest.filter_map(f) + seq![kept] =~= rest.filter_map(f).push(kept));
                lemma_count_push(rest.filter_map(f), p, kept);
            },
            None => {},
        }
    }
}

/// Removing and changing entities leaves the count as it is where every
/// entity that is counted stays and is counted after, and no other is
/// counted after.
pub proof fn lemma_count_filter_map(
    s: Seq<Entity>,
    f: spec_fn(Entity) -> Option<Entity>,
    p: spec_fn(Entity) -> bool,
)
    requires
        forall|i: int|
            0 <= i < s.len() && p(#[trigger] s[i]) ==> f(s[i]).is_some() && p(f(s[i]).unwrap()),
        forall|i: int|
            0 <= i < s.len() && !p(#[trigger] s[i]) && f(s[i]).is_some() ==> !p(f(s[i]).unwrap()),
    ensures
        count_all(s.filter_map(f), p) == count_all(s, p),
    decreases s.len(),
{
    if s.len() > 0 {
        let rest = s.drop_last();
        assert forall|i: int| 0 <= i < rest.len() && p(#[trigger] rest[i]) implies f(
            rest[i],
        ).is_some() && p(f(rest[i]).unwrap()) by {
            assert(rest[i] == s[i]);
        }
        assert forall|i: int|
            0 <= i < rest.len() && !p(#[trigger] rest[i]) && f(rest[i]).is_some() implies !p(
            f(rest[i]).unwrap(),
        ) by {
            assert(rest[i] == s[i]);
        }
        lemma_count_filter_map(rest, f, p);
        lemma_count_same_prefix(rest, s, p, rest.len() as int);
        let last = s[s.len() - 1];
        assert(s.last() == last);
        match f(last) {
            Some(kept) => {
                assert(s.filter_map(f) == rest.filter_map(f) + seq![kept]);
                assert(rest.filter_map(f) + seq![kept] =~= rest.filter_map(f).push(kept));
                lemma_count_push(rest.filter_map(f), p, kept);
            },
            None => {},
        }
    }
}

} // verus!
