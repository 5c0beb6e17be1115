//! The parity of a permutation, by counting its cycles.
use vstd::prelude::*;
use super::arrangements::{identity_seq, is_permutation};
use super::permutation_sign::{lemma_even_iff_even_inversions, lemma_relative_parity};
use super::shuffle::{inversions, swapped};

verus! {

// ---------------------------------------------------------------------------
// Parity of a permutation, by counting cycles
// ---------------------------------------------------------------------------

/// f applied t times to x, where f maps i to f[i].
pub open spec fn iterate(f: Seq<usize>, x: nat, t: nat) -> nat
    decreases t,
{
    if t == 0 {
        x
    } else {
        f[iterate(f, x, (t - 1) as nat) as int] as nat
    }
}

/// x lies on the forward orbit of some j < i.
#[verifier::opaque]
pub open spec fn reached_below(f: Seq<usize>, i: nat, x: nat) -> bool {
    exists|j: nat, t: nat| j < i && #[trigger] iterate(f, j, t) == x
}

/// The number of i < m that lie on no forward orbit of a smaller index. For a
/// permutation of {0, ..., m - 1} these are the least elements of its cycles,
/// so this counts the cycles.
pub open spec fn cycle_count(f: Seq<usize>, m: nat) -> nat
    decreases m,
{
    if m == 0 {
        0
    } else {
        cycle_count(f, (m - 1) as nat) + if reached_below(f, (m - 1) as nat, (m - 1) as nat) {
            0nat
        } else {
            1nat
        }
    }
}

/// A permutation is even when n minus its number of cycles is even.
pub open spec fn permutation_is_even(f: Seq<usize>) -> bool {
    (f.len() - cycle_count(f, f.len())) % 2 == 0
}

/// Every entry indexes into the sequence itself.
pub open spec fn maps_into_itself(f: Seq<usize>) -> bool {
    forall|i: int| 0 <= i < f.len() ==> #[trigger] f[i] < f.len()
}

pub open spec fn count_unvisited(v: Seq<bool>) -> nat
    decreases v.len(),
{
    if v.len() == 0 {
        0
    } else {
        count_unvisited(v.drop_last()) + if v.last() {
            0nat
        } else {
            1nat
        }
    }
}

pub proof fn lemma_count_unvisited_mark(v: Seq<bool>, k: int)
    requires
        0 <= k < v.len(),
        !v[k],
    ensures
        count_unvisited(v.update(k, true)) + 1 == count_unvisited(v),
    decreases v.len(),
{
    let w = v.update(k, true);
    if k == v.len() - 1 {
        assert(w.drop_last() =~= v.drop_last());
    } else {
        assert(w.drop_last() =~= v.drop_last().update(k, true));
        lemma_count_unvisited_mark(v.drop_last(), k);
    }
}

proof fn lemma_iterate_add(f: Seq<usize>, x: nat, t: nat, u: nat)
    ensures
        iterate(f, iterate(f, x, t), u) == iterate(f, x, t + u),
    decreases u,
{
    if u > 0 {
        lemma_iterate_add(f, x, t, (u - 1) as nat);
    }
}

pub(crate) proof fn lemma_cycle_count_bound(f: Seq<usize>, m: nat)
    ensures
        cycle_count(f, m) <= m,
    decreases m,
{
    if m > 0 {
        lemma_cycle_count_bound(f, (m - 1) as nat);
    }
}

/// The part of the orbit of i marked so far: f^s(i) for s < t.
#[verifier::opaque]
pub open spec fn orbit_prefix(f: Seq<usize>, i: nat, t: nat, x: nat) -> bool {
    exists|s: nat| s < t && #[trigger] iterate(f, i, s) == x
}

pub(crate) proof fn lemma_reached_intro(f: Seq<usize>, i: nat, j: nat, t: nat)
    requires
        j < i,
    ensures
        reached_below(f, i, iterate(f, j, t)),
{
    reveal(reached_below);
}

pub(crate) proof fn lemma_reached_elim(f: Seq<usize>, i: nat, x: nat) -> (w: (nat, nat))
    requires
        reached_below(f, i, x),
    ensures
        w.0 < i,
        iterate(f, w.0, w.1) == x,
{
    reveal(reached_below);
    choose|j: nat, t: nat| j < i && #[trigger] iterate(f, j, t) == x
}

proof fn lemma_prefix_intro(f: Seq<usize>, i: nat, t: nat, s: nat)
    requires
        s < t,
    ensures
        orbit_prefix(f, i, t, iterate(f, i, s)),
{
    reveal(orbit_prefix);
}

proof fn lemma_prefix_elim(f: Seq<usize>, i: nat, t: nat, x: nat) -> (s: nat)
    requires
        orbit_prefix(f, i, t, x),
    ensures
        s < t,
        iterate(f, i, s) == x,
{
    reveal(orbit_prefix);
    choose|s: nat| s < t && #[trigger] iterate(f, i, s) == x
}

/// When i is itself reached from below, allowing i as a starting point reaches nothing new.
proof fn lemma_reached_skip(f: Seq<usize>, i: nat, x: nat)
    requires
        reached_below(f, i, i),
    ensures
        reached_below(f, i + 1, x) == reached_below(f, i, x),
{
    let (j0, t0) = lemma_reached_elim(f, i, i);
    if reached_below(f, i + 1, x) {
        let (j1, t1) = lemma_reached_elim(f, i + 1, x);
        if j1 == i {
            lemma_iterate_add(f, j0, t0, t1);
            lemma_reached_intro(f, i, j0, t0 + t1);
        } else {
            lemma_reached_intro(f, i, j1, t1);
        }
    }
    if reached_below(f, i, x) {
        let (j1, t1) = lemma_reached_elim(f, i, x);
        lemma_reached_intro(f, i + 1, j1, t1);
    }
}

/// Marking f^t(i) extends the marked prefix of the orbit of i by one step.
proof fn lemma_mark_step(f: Seq<usize>, before: Seq<bool>, after: Seq<bool>, i: nat, t: nat, j: nat)
    requires
        before.len() == f.len(),
        j < f.len(),
        j == iterate(f, i, t),
        after == before.update(j as int, true),
        forall|x: nat|
            x < f.len() ==> (before[x as int] <==> (reached_below(f, i, x) || orbit_prefix(f, i, t, x))),
    ensures
        forall|x: nat|
            x < f.len() ==> (after[x as int] <==> (reached_below(f, i, x) || orbit_prefix(f, i, t + 1, x))),
{
    assert forall|x: nat| x < f.len() implies (after[x as int] <==> (reached_below(f, i, x)
        || orbit_prefix(f, i, t + 1, x))) by {
        if x == j {
            lemma_prefix_intro(f, i, t + 1, t);
        }
        if orbit_prefix(f, i, t, x) {
            let s = lemma_prefix_elim(f, i, t, x);
            lemma_prefix_intro(f, i, t + 1, s);
        }
        if orbit_prefix(f, i, t + 1, x) {
            let s = lemma_prefix_elim(f, i, t + 1, x);
            if s < t {
                lemma_prefix_intro(f, i, t, s);
            }
        }
    }
}

/// The marked set is closed under f once the walk from i has returned to a marked index.
proof fn lemma_walk_closed_under_f(f: Seq<usize>, v: Seq<bool>, i: nat, t: nat, j: nat, y: nat)
    requires
        maps_into_itself(f),
        v.len() == f.len(),
        j < f.len(),
        j == iterate(f, i, t),
        v[j as int],
        forall|x: nat| x < f.len() ==> (v[x as int] <==> (reached_below(f, i, x) || orbit_prefix(f, i, t, x))),
        y < f.len(),
        v[y as int],
    ensures
        v[f[y as int] as int],
{
    let z = f[y as int] as nat;
    assert(z < f.len());
    if reached_below(f, i, y) {
        let (j0, t0) = lemma_reached_elim(f, i, y);
        assert(iterate(f, j0, t0 + 1) == z);
        lemma_reached_intro(f, i, j0, t0 + 1);
    } else {
        assert(orbit_prefix(f, i, t, y));
        let s = lemma_prefix_elim(f, i, t, y);
        assert(iterate(f, i, s + 1) == z);
        if s + 1 < t {
            lemma_prefix_intro(f, i, t, s + 1);
        }
    }
}

/// Once the walk from i returns to a marked index, the marked set is
/// everything reached from some index <= i.
proof fn lemma_walk_closed(f: Seq<usize>, v: Seq<bool>, i: nat, t: nat, j: nat, x: nat)
    requires
        maps_into_itself(f),
        v.len() == f.len(),
        i < f.len(),
        t >= 1,
        j < f.len(),
        j == iterate(f, i, t),
        v[j as int],
        forall|x: nat| x < f.len() ==> (v[x as int] <==> (reached_below(f, i, x) || orbit_prefix(f, i, t, x))),
        x < f.len(),
    ensures
        v[x as int] <==> reached_below(f, i + 1, x),
{
    let n = f.len();
    if v[x as int] {
        if reached_below(f, i, x) {
            let (j0, t0) = lemma_reached_elim(f, i, x);
            lemma_reached_intro(f, i + 1, j0, t0);
        } else {
            let s = lemma_prefix_elim(f, i, t, x);
            lemma_reached_intro(f, i + 1, i, s);
        }
    }
    if reached_below(f, i + 1, x) {
        let (j0, t0) = lemma_reached_elim(f, i + 1, x);
        if j0 < i {
            lemma_reached_intro(f, i, j0, t0);
        } else {
            lemma_prefix_intro(f, i, t, 0);
            assert(v[i as int]);
            assert forall|y: nat| y < n && #[trigger] v[y as int] implies v[f[y as int] as int] by {
                lemma_walk_closed_under_f(f, v, i, t, j, y);
            }
            lemma_orbit_visited(f, v, i, t0);
        }
    }
}

/// Whether the permutation `perm` of {0, ..., n - 1} is even.
pub fn is_even_permutation(perm: &[usize]) -> (even: bool)
    requires
        maps_into_itself(perm@),
    ensures
        even == permutation_is_even(perm@),
        is_permutation(perm@, perm.len() as nat) ==> (even <==> inversions(perm@) % 2 == 0),
{
    proof {
        if is_permutation(perm@, perm.len() as nat) {
            lemma_even_iff_even_inversions(perm@);
        }
    }
    let n = perm.len();
    let ghost f = perm@;
    let mut visited: Vec<bool> = Vec::new();
    let mut k: usize = 0;
    while k < n
        invariant
            k <= n,
            visited@ == Seq::new(k as nat, |x: int| false),
        decreases n - k,
    {
        visited.push(false);
        k = k + 1;
        assert(visited@ =~= Seq::new(k as nat, |x: int| false));
    }
    let mut num_cycles: usize = 0;
    let mut i: usize = 0;
    proof {
        reveal(reached_below);
    }
    while i < n
        invariant
            n == perm.len(),
            f == perm@,
            maps_into_itself(f),
            i <= n,
            visited@.len() == n,
            forall|x: nat| x < n ==> (visited@[x as int] <==> reached_below(f, i as nat, x)),
            num_cycles == cycle_count(f, i as nat),
        decreases n - i,
    {
        proof {
            lemma_cycle_count_bound(f, i as nat);
        }
        if !visited[i] {
            num_cycles = num_cycles + 1;
            let mut j: usize = i;
            let ghost mut t: nat = 0;
            proof {
                reveal(orbit_prefix);
            }
            while !visited[j]
                invariant
                    n == perm.len(),
                    f == perm@,
                    maps_into_itself(f),
                    i < n,
                    j < n,
                    visited@.len() == n,
                    j == iterate(f, i as nat, t),
                    forall|x: nat|
                        x < n ==> (visited@[x as int] <==> (reached_below(f, i as nat, x)
                            || orbit_prefix(f, i as nat, t, x))),
                    t == 0 ==> !visited@[i as int],
                decreases count_unvisited(visited@),
            {
                let ghost before = visited@;
                proof {
                    lemma_count_unvisited_mark(visited@, j as int);
                }
                visited.set(j, true);
                proof {
                    lemma_mark_step(f, before, visited@, i as nat, t, j as nat);
                }
                j = perm[j];
                proof {
                    t = t + 1;
                }
            }
            proof {
                assert forall|x: nat| x < n implies (visited@[x as int] <==> reached_below(
                    f,
                    (i + 1) as nat,
                    x,
                )) by {
                    lemma_walk_closed(f, visited@, i as nat, t, j as nat, x);
                }
            }
        } else {
            proof {
                assert forall|x: nat| x < n implies (visited@[x as int] <==> reached_below(
                    f,
                    (i + 1) as nat,
                    x,
                )) by {
                    lemma_reached_skip(f, i as nat, x);
                }
            }
        }
        i = i + 1;
    }
    proof {
        lemma_cycle_count_bound(f, n as nat);
    }
    (n - num_cycles) % 2 == 0
}

/// A set of indices that contains x and is closed under f contains every f^u(x).
proof fn lemma_orbit_visited(f: Seq<usize>, v: Seq<bool>, x: nat, u: nat)
    requires
        maps_into_itself(f),
        v.len() == f.len(),
        x < f.len(),
        v[x as int],
        forall|y: nat| y < f.len() && #[trigger] v[y as int] ==> v[f[y as int] as int],
    ensures
        iterate(f, x, u) < f.len(),
        v[iterate(f, x, u) as int],
    decreases u,
{
    if u > 0 {
        lemma_orbit_visited(f, v, x, (u - 1) as nat);
    }
}

/// The last position at which x occurs in s, or 0 when it does not occur.
pub open spec fn last_position(s: Seq<usize>, x: usize) -> nat
    decreases s.len(),
{
    if s.len() == 0 {
        0
    } else if s.last() == x {
        (s.len() - 1) as nat
    } else {
        last_position(s.drop_last(), x)
    }
}

/// The permutation taking the arrangement `from` to the arrangement `to`: its
/// i-th entry is the position in `from` of `to[i]`.
pub open spec fn relative_permutation(from: Seq<usize>, to: Seq<usize>) -> Seq<usize> {
    Seq::new(from.len(), |i: int| last_position(from, to[i]) as usize)
}

pub(crate) proof fn lemma_last_position_bound(s: Seq<usize>, x: usize)
    ensures
        s.len() > 0 ==> last_position(s, x) < s.len(),
        s.len() == 0 ==> last_position(s, x) == 0,
    decreases s.len(),
{
    if s.len() > 0 {
        lemma_last_position_bound(s.drop_last(), x);
    }
}

/// Whether the permutation carrying `from` to `to` is even.
pub fn is_even_permutation_from(from: &[usize], to: &[usize]) -> (even: bool)
    requires
        forall|i: int| 0 <= i < from.len() ==> #[trigger] from[i] < from.len(),
        to.len() >= from.len(),
        forall|i: int| 0 <= i < from.len() ==> #[trigger] to[i] < from.len(),
    ensures
        even == permutation_is_even(relative_permutation(from@, to@)),
        is_permutation(from@, from.len() as nat) && is_permutation(to@, from.len() as nat) ==> (even
            <==> (permutation_is_even(from@) <==> permutation_is_even(to@))),
{
    proof {
        if is_permutation(from@, from.len() as nat) && is_permutation(to@, from.len() as nat) {
            lemma_relative_parity(from@, to@);
        }
    }
    let n = from.len();
    let mut pos: Vec<usize> = Vec::new();
    let mut k: usize = 0;
    while k < n
        invariant
            k <= n,
            pos@ == Seq::new(k as nat, |x: int| 0usize),
        decreases n - k,
    {
        pos.push(0);
        k = k + 1;
        assert(pos@ =~= Seq::new(k as nat, |x: int| 0usize));
    }
    let mut i: usize = 0;
    while i < n
        invariant
            n == from.len(),
            forall|i: int| 0 <= i < from.len() ==> #[trigger] from[i] < from.len(),
            i <= n,
            pos@.len() == n,
            forall|x: int| 0 <= x < n ==> #[trigger] pos@[x] == last_position(from@.take(i as int), x as usize),
        decreases n - i,
    {
        let ghost before = pos@;
        pos.set(from[i], i);
        proof {
            assert forall|x: int| 0 <= x < n implies #[trigger] pos@[x] == last_position(
                from@.take(i + 1),
                x as usize,
            ) by {
                assert(from@.take(i + 1).drop_last() =~= from@.take(i as int));
                assert(from@.take(i + 1).last() == from[i as int]);
            }
        }
        i = i + 1;
    }
    assert(from@.take(n as int) =~= from@);
    let mut perm: Vec<usize> = Vec::with_capacity(n);
    let mut i: usize = 0;
    while i < n
        invariant
            n == from.len(),
            to.len() >= n,
            forall|i: int| 0 <= i < from.len() ==> #[trigger] to[i] < from.len(),
            i <= n,
            pos@.len() == n,
            forall|x: int| 0 <= x < n ==> #[trigger] pos@[x] == last_position(from@, x as usize),
            perm@ == relative_permutation(from@, to@).take(i as int),
        decreases n - i,
    {
        perm.push(pos[to[i]]);
        i = i + 1;
        assert(perm@ =~= relative_permutation(from@, to@).take(i as int));
    }
    assert(perm@ =~= relative_permutation(from@, to@));
    proof {
        assert forall|i: int| 0 <= i < perm@.len() implies #[trigger] perm@[i] < perm@.len() by {
            lemma_last_position_bound(from@, to@[i]);
        }
    }
    is_even_permutation(&perm)
}

/// The identity permutation is even.
pub proof fn lemma_identity_is_even(n: nat)
    requires
        n <= usize::MAX + 1,
    ensures
        permutation_is_even(identity_seq(n)),
{
    let f = identity_seq(n);
    assert forall|j: nat, t: nat| j < n implies #[trigger] iterate(f, j, t) == j by {
        lemma_identity_orbit(n, j, t);
    }
    lemma_identity_cycle_count(n, n);
}

proof fn lemma_identity_orbit(n: nat, j: nat, t: nat)
    requires
        j < n,
        n <= usize::MAX + 1,
    ensures
        iterate(identity_seq(n), j, t) == j,
    decreases t,
{
    if t > 0 {
        lemma_identity_orbit(n, j, (t - 1) as nat);
    }
}

proof fn lemma_identity_cycle_count(n: nat, m: nat)
    requires
        m <= n,
        n <= usize::MAX + 1,
    ensures
        cycle_count(identity_seq(n), m) == m,
    decreases m,
{
    if m > 0 {
        lemma_identity_cycle_count(n, (m - 1) as nat);
        let f = identity_seq(n);
        let i = (m - 1) as nat;
        assert(!reached_below(f, i, i)) by {
            reveal(reached_below);
            if reached_below(f, i, i) {
                let (j, t) = choose|j: nat, t: nat| j < i && #[trigger] iterate(f, j, t) == i;
                lemma_identity_orbit(n, j, t);
            }
        }
    }
}

proof fn lemma_transposition_orbit(n: nat, a: nat, b: nat, j: nat, t: nat)
    requires
        a < b < n,
        n <= usize::MAX + 1,
        j < n,
    ensures
        j != a && j != b ==> iterate(swapped(identity_seq(n), a as int, b as int), j, t) == j,
        j == a || j == b ==> (iterate(swapped(identity_seq(n), a as int, b as int), j, t) == a
            || iterate(swapped(identity_seq(n), a as int, b as int), j, t) == b),
    decreases t,
{
    if t > 0 {
        lemma_transposition_orbit(n, a, b, j, (t - 1) as nat);
    }
}

proof fn lemma_transposition_cycle_count(n: nat, a: nat, b: nat, m: nat)
    requires
        a < b < n,
        n <= usize::MAX + 1,
        m <= n,
    ensures
        cycle_count(swapped(identity_seq(n), a as int, b as int), m) == if m > b {
            (m - 1) as nat
        } else {
            m
        },
    decreases m,
{
    if m > 0 {
        let f = swapped(identity_seq(n), a as int, b as int);
        let i = (m - 1) as nat;
        lemma_transposition_cycle_count(n, a, b, i);
        if i == b {
            assert(iterate(f, a, 0) == a);
            assert(f[a as int] == b);
            assert(iterate(f, a, 1) == b);
            lemma_reached_intro(f, i, a, 1);
        } else {
            assert(!reached_below(f, i, i)) by {
                if reached_below(f, i, i) {
                    let (j, t) = lemma_reached_elim(f, i, i);
                    lemma_transposition_orbit(n, a, b, j, t);
                }
            }
        }
    }
}

/// A single transposition of two indices is an odd permutation.
pub proof fn lemma_transposition_is_odd(n: nat, a: nat, b: nat)
    requires
        a < b < n,
        n <= usize::MAX + 1,
    ensures
        !permutation_is_even(swapped(identity_seq(n), a as int, b as int)),
{
    lemma_transposition_cycle_count(n, a, b, n);
}

} // verus!
