//! The sign of a permutation: its parity by cycles agrees with the parity of
//! its number of inversions, and it is multiplicative under composition.
use vstd::prelude::*;
use super::arrangements::{identity_seq, is_arrangement_of, is_permutation, strictly_increasing};
use super::parity::{
    cycle_count, iterate, last_position, lemma_cycle_count_bound, lemma_last_position_bound,
    lemma_reached_elim, lemma_reached_intro, permutation_is_even, reached_below,
    relative_permutation,
};
use super::shuffle::{
    inversions, lemma_arrangement_covers, lemma_count_greater_below, lemma_sorted_no_inversions,
    lemma_swap_parity, swapped,
};

verus! {

// ---------------------------------------------------------------------------
// Cycle parity and inversion parity
// ---------------------------------------------------------------------------

/// p with its largest value n - 1 spliced out of its cycle: the entry at
/// position a, which points to n - 1, now points where n - 1 points, and the
/// last entry is dropped.
pub open spec fn splice_out_top(p: Seq<usize>, a: int) -> Seq<usize> {
    p.update(a, p.last()).drop_last()
}

proof fn lemma_iterate_bound(f: Seq<usize>, n: nat, x: nat, t: nat)
    requires
        f.len() == n,
        forall|j: int| 0 <= j < n ==> #[trigger] f[j] < n,
        x < n,
    ensures
        iterate(f, x, t) < n,
    decreases t,
{
    if t > 0 {
        lemma_iterate_bound(f, n, x, (t - 1) as nat);
    }
}

/// Every value below n occurs in a permutation of {0, ..., n - 1}.
pub(crate) proof fn lemma_permutation_onto(p: Seq<usize>, n: nat, x: nat) -> (a: int)
    requires
        is_permutation(p, n),
        n <= usize::MAX + 1,
        x < n,
    ensures
        0 <= a < n,
        p[a] == x,
{
    let id = identity_seq(n);
    assert forall|j: int| 0 <= j < p.len() implies id.contains(#[trigger] p[j]) by {
        assert(id[p[j] as int] == p[j]);
    }
    assert(is_arrangement_of(p, id));
    assert(strictly_increasing(id));
    lemma_arrangement_covers(p, id, x as int);
    assert(id[x as int] == x);
    choose|a: int| 0 <= a < p.len() && p[a] == id[x as int]
}

proof fn lemma_splice_is_permutation(p: Seq<usize>, a: int)
    requires
        is_permutation(p, p.len()),
        p.len() > 0,
        0 <= a < p.len(),
        p[a] == p.len() - 1,
    ensures
        is_permutation(splice_out_top(p, a), (p.len() - 1) as nat),
{
    let m = p.len() - 1;
    let q = splice_out_top(p, a);
    assert forall|j: int| 0 <= j < q.len() implies #[trigger] q[j] < m by {
        if j == a {
            assert(p[m] != p[a]);
        } else {
            assert(p[j] != p[a]);
        }
    }
    assert forall|i: int, k: int| 0 <= i < q.len() && 0 <= k < q.len() && i != k implies q[i] != q[k] by {
        if i == a {
            assert(p[m] != p[k]);
        } else if k == a {
            assert(p[m] != p[i]);
        } else {
            assert(p[i] != p[k]);
        }
    }
}

/// Each step of the spliced permutation is one or two steps of p.
proof fn lemma_splice_orbit_back(p: Seq<usize>, a: int, j: nat, t: nat) -> (u: nat)
    requires
        is_permutation(p, p.len()),
        p.len() > 0,
        0 <= a < p.len(),
        p[a] == p.len() - 1,
        j < p.len() - 1,
    ensures
        iterate(p, j, u) == iterate(splice_out_top(p, a), j, t),
    decreases t,
{
    let m = (p.len() - 1) as nat;
    let q = splice_out_top(p, a);
    if t == 0 {
        0
    } else {
        let u0 = lemma_splice_orbit_back(p, a, j, (t - 1) as nat);
        lemma_splice_is_permutation(p, a);
        lemma_iterate_bound(q, m, j, (t - 1) as nat);
        let y = iterate(q, j, (t - 1) as nat);
        assert(iterate(q, j, t) == q[y as int]);
        assert(iterate(p, j, u0 + 1) == p[y as int]);
        if y != a {
            u0 + 1
        } else {
            assert(iterate(p, j, u0 + 2) == p[iterate(p, j, u0 + 1) as int]);
            u0 + 2
        }
    }
}

/// Each step of p away from n - 1 is a step of the spliced permutation; a
/// visit to n - 1 is seen there at the entry that points to it.
proof fn lemma_splice_orbit_forth(p: Seq<usize>, a: int, j: nat, t: nat) -> (u: nat)
    requires
        is_permutation(p, p.len()),
        p.len() > 0,
        0 <= a < p.len(),
        p[a] == p.len() - 1,
        j < p.len() - 1,
    ensures
        iterate(splice_out_top(p, a), j, u) == if iterate(p, j, t) == p.len() - 1 {
            a as nat
        } else {
            iterate(p, j, t)
        },
    decreases t,
{
    let m = (p.len() - 1) as nat;
    let q = splice_out_top(p, a);
    if t == 0 {
        0
    } else {
        let u0 = lemma_splice_orbit_forth(p, a, j, (t - 1) as nat);
        lemma_splice_is_permutation(p, a);
        lemma_iterate_bound(q, m, j, u0);
        lemma_iterate_bound(p, p.len(), j, (t - 1) as nat);
        let y = iterate(p, j, (t - 1) as nat);
        let z = p[y as int];
        assert(iterate(p, j, t) == z);
        assert(iterate(q, j, u0 + 1) == q[iterate(q, j, u0) as int]);
        if y == m {
            assert(a != m);
            assert(p[m as int] != p[a]);
            u0 + 1
        } else if z == m {
            assert(p[y as int] == p[a]);
            u0
        } else {
            assert(y != a);
            u0 + 1
        }
    }
}

proof fn lemma_splice_reached(p: Seq<usize>, a: int, i: nat)
    requires
        is_permutation(p, p.len()),
        p.len() > 0,
        0 <= a < p.len(),
        p[a] == p.len() - 1,
        i < p.len() - 1,
    ensures
        reached_below(p, i, i) <==> reached_below(splice_out_top(p, a), i, i),
{
    let q = splice_out_top(p, a);
    if reached_below(p, i, i) {
        let (j, t) = lemma_reached_elim(p, i, i);
        let u = lemma_splice_orbit_forth(p, a, j, t);
        lemma_reached_intro(q, i, j, u);
    }
    if reached_below(q, i, i) {
        let (j, t) = lemma_reached_elim(q, i, i);
        let u = lemma_splice_orbit_back(p, a, j, t);
        lemma_reached_intro(p, i, j, u);
    }
}

proof fn lemma_splice_cycle_count(p: Seq<usize>, a: int, k: nat)
    requires
        is_permutation(p, p.len()),
        p.len() > 0,
        0 <= a < p.len(),
        p[a] == p.len() - 1,
        k <= p.len() - 1,
    ensures
        cycle_count(p, k) == cycle_count(splice_out_top(p, a), k),
    decreases k,
{
    if k > 0 {
        lemma_splice_cycle_count(p, a, (k - 1) as nat);
        lemma_splice_reached(p, a, (k - 1) as nat);
    }
}

/// When n - 1 is a fixed point, no other orbit reaches it.
proof fn lemma_fixed_top_unreached(p: Seq<usize>, j: nat, t: nat)
    requires
        is_permutation(p, p.len()),
        p.len() > 0,
        p[p.len() - 1] == p.len() - 1,
        j < p.len() - 1,
    ensures
        iterate(p, j, t) != p.len() - 1,
    decreases t,
{
    if t > 0 {
        lemma_fixed_top_unreached(p, j, (t - 1) as nat);
        lemma_iterate_bound(p, p.len(), j, (t - 1) as nat);
        let y = iterate(p, j, (t - 1) as nat);
        assert(iterate(p, j, t) == p[y as int]);
        assert(p[y as int] != p[p.len() - 1]);
    }
}

proof fn lemma_top_reached(p: Seq<usize>, a: int)
    requires
        is_permutation(p, p.len()),
        p.len() > 0,
        0 <= a < p.len(),
        p[a] == p.len() - 1,
    ensures
        reached_below(p, (p.len() - 1) as nat, (p.len() - 1) as nat) <==> a != p.len() - 1,
{
    let m = (p.len() - 1) as nat;
    if a != m {
        assert(iterate(p, a as nat, 0) == a);
        assert(iterate(p, a as nat, 1) == p[a]);
        lemma_reached_intro(p, m, a as nat, 1);
    } else if reached_below(p, m, m) {
        let (j, t) = lemma_reached_elim(p, m, m);
        lemma_fixed_top_unreached(p, j, t);
    }
}

proof fn lemma_cycle_inversion_parity(p: Seq<usize>)
    requires
        is_permutation(p, p.len()),
        p.len() <= usize::MAX + 1,
    ensures
        cycle_count(p, p.len()) <= p.len(),
        (p.len() - cycle_count(p, p.len())) % 2 == inversions(p) % 2,
    decreases p.len(),
{
    lemma_cycle_count_bound(p, p.len());
    if p.len() > 0 {
        let n = p.len();
        let m = (n - 1) as nat;
        let a = lemma_permutation_onto(p, n, m);
        let q = splice_out_top(p, a);
        lemma_splice_is_permutation(p, a);
        lemma_cycle_inversion_parity(q);
        lemma_splice_cycle_count(p, a, m);
        lemma_top_reached(p, a);
        assert(cycle_count(p, n) == cycle_count(p, m) + if reached_below(p, m, m) {
            0nat
        } else {
            1nat
        });
        lemma_count_greater_below(q, m as usize);
        if a == m {
            assert(p.drop_last() =~= q);
            assert(p.last() == m);
            assert(inversions(p) == inversions(q));
        } else {
            let t = swapped(p, a, m as int);
            assert(t.drop_last() =~= q);
            assert(t.last() == m);
            assert(inversions(t) == inversions(q));
            lemma_swap_parity(p, a, m as int);
        }
    }
}

/// For a permutation of {0, ..., n - 1}, the parity by cycles (n minus the
/// number of cycles) is the parity of the number of inversions.
pub proof fn lemma_even_iff_even_inversions(p: Seq<usize>)
    requires
        is_permutation(p, p.len()),
        p.len() <= usize::MAX + 1,
    ensures
        permutation_is_even(p) <==> inversions(p) % 2 == 0,
{
    lemma_cycle_inversion_parity(p);
}

// ---------------------------------------------------------------------------
// Composition and inverses
// ---------------------------------------------------------------------------

/// The permutation i ↦ q[r[i]]: first r, then q.
pub open spec fn compose(q: Seq<usize>, r: Seq<usize>) -> Seq<usize> {
    Seq::new(r.len(), |i: int| q[r[i] as int])
}

/// The inverse of a permutation p: x ↦ the position of x in p.
pub open spec fn inverse(p: Seq<usize>) -> Seq<usize> {
    Seq::new(p.len(), |x: int| last_position(p, x as usize) as usize)
}

proof fn lemma_swapped_permutation(r: Seq<usize>, n: nat, i: int, j: int)
    requires
        is_permutation(r, n),
        0 <= i < j < n,
    ensures
        is_permutation(swapped(r, i, j), n),
{
    let s = swapped(r, i, j);
    assert forall|a: int, b: int| 0 <= a < s.len() && 0 <= b < s.len() && a != b implies s[a] != s[b] by {
        let pa = if a == i { j } else if a == j { i } else { a };
        let pb = if b == i { j } else if b == j { i } else { b };
        assert(s[a] == r[pa]);
        assert(s[b] == r[pb]);
    }
}

proof fn lemma_compose_permutation(q: Seq<usize>, r: Seq<usize>, n: nat)
    requires
        is_permutation(q, n),
        is_permutation(r, n),
    ensures
        is_permutation(compose(q, r), n),
{
    let c = compose(q, r);
    assert forall|a: int, b: int| 0 <= a < c.len() && 0 <= b < c.len() && a != b implies c[a] != c[b] by {
        assert(r[a] != r[b]);
    }
}

proof fn lemma_compose_parity_from(q: Seq<usize>, r: Seq<usize>, k: nat)
    requires
        is_permutation(q, q.len()),
        is_permutation(r, q.len()),
        q.len() <= usize::MAX + 1,
        k <= r.len(),
        forall|i: int| 0 <= i < k ==> #[trigger] r[i] == i,
    ensures
        (inversions(compose(q, r)) + inversions(q) + inversions(r)) % 2 == 0,
    decreases r.len() - k,
{
    let n = q.len();
    if k == n {
        assert(compose(q, r) =~= q);
        assert(strictly_increasing(r));
        lemma_sorted_no_inversions(r);
    } else if r[k as int] == k {
        lemma_compose_parity_from(q, r, k + 1);
    } else {
        let j = lemma_permutation_onto(r, n, k);
        assert(j > k) by {
            if j < k {
                assert(r[j] == j);
            }
        }
        let r2 = swapped(r, k as int, j);
        lemma_swapped_permutation(r, n, k as int, j);
        assert forall|i: int| 0 <= i < k + 1 implies #[trigger] r2[i] == i by {
            if i < k {
                assert(r[i] == i);
            }
        }
        lemma_compose_parity_from(q, r2, k + 1);
        let c = compose(q, r);
        assert(compose(q, r2) =~= swapped(c, k as int, j));
        lemma_compose_permutation(q, r, n);
        lemma_swap_parity(r, k as int, j);
        lemma_swap_parity(c, k as int, j);
    }
}

/// The parity of a composition is the sum of the parities: q ∘ r is even
/// exactly when q and r are both even or both odd.
pub proof fn lemma_composition_parity(q: Seq<usize>, r: Seq<usize>)
    requires
        is_permutation(q, q.len()),
        is_permutation(r, q.len()),
        q.len() <= usize::MAX + 1,
    ensures
        permutation_is_even(compose(q, r)) <==> (permutation_is_even(q) <==> permutation_is_even(r)),
{
    lemma_compose_parity_from(q, r, 0);
    lemma_compose_permutation(q, r, q.len());
    lemma_even_iff_even_inversions(q);
    lemma_even_iff_even_inversions(r);
    lemma_even_iff_even_inversions(compose(q, r));
}

proof fn lemma_last_position_of(s: Seq<usize>, i: int)
    requires
        s.no_duplicates(),
        0 <= i < s.len(),
    ensures
        last_position(s, s[i]) == i,
    decreases s.len(),
{
    if s.last() != s[i] {
        let s0 = s.drop_last();
        assert(s0[i] == s[i]);
        lemma_last_position_of(s0, i);
    }
}

proof fn lemma_inverse_facts(p: Seq<usize>)
    requires
        is_permutation(p, p.len()),
        p.len() <= usize::MAX + 1,
    ensures
        is_permutation(inverse(p), p.len()),
        compose(inverse(p), p) =~= identity_seq(p.len()),
{
    let n = p.len();
    let v = inverse(p);
    assert forall|x: int| 0 <= x < n implies #[trigger] v[x] < n && p[v[x] as int] == x by {
        let a = lemma_permutation_onto(p, n, x as nat);
        lemma_last_position_of(p, a);
    }
    assert forall|a: int, b: int| 0 <= a < n && 0 <= b < n && a != b implies v[a] != v[b] by {
        assert(p[v[a] as int] == a);
        assert(p[v[b] as int] == b);
    }
    assert forall|i: int| 0 <= i < n implies #[trigger] compose(v, p)[i] == i by {
        lemma_last_position_of(p, i);
    }
}

/// A permutation and its inverse have the same parity.
pub proof fn lemma_inverse_parity(p: Seq<usize>)
    requires
        is_permutation(p, p.len()),
        p.len() <= usize::MAX + 1,
    ensures
        permutation_is_even(inverse(p)) <==> permutation_is_even(p),
{
    let n = p.len();
    lemma_inverse_facts(p);
    assert(strictly_increasing(identity_seq(n)));
    lemma_sorted_no_inversions(identity_seq(n));
    lemma_compose_parity_from(inverse(p), p, 0);
    lemma_even_iff_even_inversions(p);
    lemma_even_iff_even_inversions(inverse(p));
}

/// The permutation carrying one arrangement of {0, ..., n - 1} to another is
/// even exactly when the two arrangements have the same parity.
pub proof fn lemma_relative_parity(from: Seq<usize>, to: Seq<usize>)
    requires
        is_permutation(from, from.len()),
        is_permutation(to, from.len()),
        from.len() <= usize::MAX + 1,
    ensures
        permutation_is_even(relative_permutation(from, to)) <==> (permutation_is_even(from)
            <==> permutation_is_even(to)),
{
    lemma_inverse_facts(from);
    assert(relative_permutation(from, to) =~= compose(inverse(from), to));
    lemma_composition_parity(inverse(from), to);
    lemma_inverse_parity(from);
}

} // verus!
