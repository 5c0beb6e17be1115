//! Inversion counts, the parity of a swap, and the shuffle sign of the wedge
//! product.
use vstd::prelude::*;
use super::arrangements::{is_arrangement_of, strictly_increasing};

verus! {

// ---------------------------------------------------------------------------
// Inversions and the shuffle sign of the wedge product
// ---------------------------------------------------------------------------

/// The number of entries of s greater than x.
pub open spec fn count_greater(s: Seq<usize>, x: usize) -> nat
    decreases s.len(),
{
    if s.len() == 0 {
        0
    } else {
        count_greater(s.drop_last(), x) + if s.last() > x {
            1nat
        } else {
            0nat
        }
    }
}

/// The number of entries of s less than x.
pub open spec fn count_less(s: Seq<usize>, x: usize) -> nat
    decreases s.len(),
{
    if s.len() == 0 {
        0
    } else {
        count_less(s.drop_last(), x) + if s.last() < x {
            1nat
        } else {
            0nat
        }
    }
}

/// The number of pairs (u, v), u an entry of a and v an entry of b, with u > v.
pub open spec fn cross_inversions(a: Seq<usize>, b: Seq<usize>) -> nat
    decreases b.len(),
{
    if b.len() == 0 {
        0
    } else {
        cross_inversions(a, b.drop_last()) + count_greater(a, b.last())
    }
}

/// The number of inversions of s: pairs of positions p < q with s[p] > s[q].
pub open spec fn inversions(s: Seq<usize>) -> nat
    decreases s.len(),
{
    if s.len() == 0 {
        0
    } else {
        inversions(s.drop_last()) + count_greater(s.drop_last(), s.last())
    }
}

/// (-1)^m as an `i32`.
pub open spec fn sign_of_parity(m: nat) -> i32 {
    if m % 2 == 0 {
        1i32
    } else {
        -1i32
    }
}

proof fn lemma_count_greater_append(a: Seq<usize>, b: Seq<usize>, x: usize)
    ensures
        count_greater(a + b, x) == count_greater(a, x) + count_greater(b, x),
    decreases b.len(),
{
    if b.len() == 0 {
        assert(a + b =~= a);
    } else {
        assert((a + b).drop_last() =~= a + b.drop_last());
        lemma_count_greater_append(a, b.drop_last(), x);
    }
}

proof fn lemma_cross_append_left(a1: Seq<usize>, a2: Seq<usize>, b: Seq<usize>)
    ensures
        cross_inversions(a1 + a2, b) == cross_inversions(a1, b) + cross_inversions(a2, b),
    decreases b.len(),
{
    if b.len() > 0 {
        lemma_cross_append_left(a1, a2, b.drop_last());
        lemma_count_greater_append(a1, a2, b.last());
    }
}

proof fn lemma_cross_append_right(a: Seq<usize>, b1: Seq<usize>, b2: Seq<usize>)
    ensures
        cross_inversions(a, b1 + b2) == cross_inversions(a, b1) + cross_inversions(a, b2),
    decreases b2.len(),
{
    if b2.len() == 0 {
        assert(b1 + b2 =~= b1);
    } else {
        assert((b1 + b2).drop_last() =~= b1 + b2.drop_last());
        lemma_cross_append_right(a, b1, b2.drop_last());
    }
}

/// inv(a + b) = inv(a) + inv(b) + cross(a, b).
proof fn lemma_inversions_append(a: Seq<usize>, b: Seq<usize>)
    ensures
        inversions(a + b) == inversions(a) + inversions(b) + cross_inversions(a, b),
    decreases b.len(),
{
    if b.len() == 0 {
        assert(a + b =~= a);
    } else {
        let b0 = b.drop_last();
        assert((a + b).drop_last() =~= a + b0);
        lemma_inversions_append(a, b0);
        lemma_count_greater_append(a, b0, b.last());
    }
}

proof fn lemma_singleton(x: usize, v: usize)
    ensures
        count_greater(seq![x], v) == if x > v { 1nat } else { 0nat },
        inversions(seq![x]) == 0,
{
    let single = seq![x];
    assert(single.drop_last() =~= Seq::<usize>::empty());
    assert(count_greater(single.drop_last(), v) == 0);
    assert(count_greater(single.drop_last(), x) == 0);
    assert(inversions(single.drop_last()) == 0);
    assert(single.last() == x);
}

/// Against a single entry x, the pairs of a sequence without x split into
/// smaller and greater ones.
proof fn lemma_split_around(m: Seq<usize>, x: usize)
    requires
        !m.contains(x),
    ensures
        cross_inversions(seq![x], m) == count_less(m, x),
        count_less(m, x) + count_greater(m, x) == m.len(),
    decreases m.len(),
{
    if m.len() > 0 {
        let m0 = m.drop_last();
        assert(!m0.contains(x)) by {
            if m0.contains(x) {
                let k = choose|k: int| 0 <= k < m0.len() && m0[k] == x;
                assert(m[k] == x);
            }
        }
        assert(m.last() != x) by {
            assert(m[m.len() - 1] == m.last());
        }
        lemma_split_around(m0, x);
        lemma_singleton(x, m.last());
    }
}

/// Exchanging two distinct entries x and y that frame a middle part m not
/// containing them changes the parity of the number of inversions.
proof fn lemma_swap_block(x: usize, m: Seq<usize>, y: usize)
    requires
        x != y,
        !m.contains(x),
        !m.contains(y),
    ensures
        (inversions(seq![x] + m + seq![y]) + inversions(seq![y] + m + seq![x])) % 2 == 1,
{
    lemma_split_around(m, x);
    lemma_split_around(m, y);
    let sx = seq![x];
    let sy = seq![y];
    lemma_inversions_append(sx, m);
    lemma_inversions_append(sy, m);
    lemma_inversions_append(sx + m, sy);
    lemma_inversions_append(sy + m, sx);
    lemma_singleton(x, y);
    lemma_singleton(y, x);
    lemma_cross_append_left(sx, m, sy);
    lemma_cross_append_left(sy, m, sx);
    assert(cross_inversions(sx, sy) == count_greater(sx, y)) by {
        assert(sy.drop_last() =~= Seq::<usize>::empty());
        assert(cross_inversions(sx, sy.drop_last()) == 0);
    }
    assert(cross_inversions(sy, sx) == count_greater(sy, x)) by {
        assert(sx.drop_last() =~= Seq::<usize>::empty());
        assert(cross_inversions(sy, sx.drop_last()) == 0);
    }
    assert(cross_inversions(m, sy) == count_greater(m, y)) by {
        assert(sy.drop_last() =~= Seq::<usize>::empty());
        assert(cross_inversions(m, sy.drop_last()) == 0);
    }
    assert(cross_inversions(m, sx) == count_greater(m, x)) by {
        assert(sx.drop_last() =~= Seq::<usize>::empty());
        assert(cross_inversions(m, sx.drop_last()) == 0);
    }
}

/// The sequence s with the entries at positions i and j exchanged.
pub open spec fn swapped(s: Seq<usize>, i: int, j: int) -> Seq<usize> {
    s.update(i, s[j]).update(j, s[i])
}

/// Exchanging two entries of a sequence without repeated entries changes the
/// parity of its number of inversions.
pub proof fn lemma_swap_parity(s: Seq<usize>, i: int, j: int)
    requires
        s.no_duplicates(),
        0 <= i < j < s.len(),
    ensures
        (inversions(s) + inversions(swapped(s, i, j))) % 2 == 1,
{
    let a = s.take(i);
    let x = s[i];
    let m = s.subrange(i + 1, j);
    let y = s[j];
    let b = s.skip(j + 1);
    let t = swapped(s, i, j);
    let mid = seq![x] + m + seq![y];
    let mid2 = seq![y] + m + seq![x];
    assert(s =~= a + (mid + b));
    assert(t =~= a + (mid2 + b));
    assert(!m.contains(x)) by {
        if m.contains(x) {
            let k = choose|k: int| 0 <= k < m.len() && m[k] == x;
            assert(s[i + 1 + k] == x);
        }
    }
    assert(!m.contains(y)) by {
        if m.contains(y) {
            let k = choose|k: int| 0 <= k < m.len() && m[k] == y;
            assert(s[i + 1 + k] == y);
        }
    }
    lemma_swap_block(x, m, y);
    lemma_inversions_append(a, mid + b);
    lemma_inversions_append(a, mid2 + b);
    lemma_inversions_append(mid, b);
    lemma_inversions_append(mid2, b);
    let sx = seq![x];
    let sy = seq![y];
    // the cross terms only see which entries are present, not their order
    lemma_cross_append_right(a, mid, b);
    lemma_cross_append_right(a, mid2, b);
    lemma_cross_append_right(a, sx + m, sy);
    lemma_cross_append_right(a, sx, m);
    lemma_cross_append_right(a, sy + m, sx);
    lemma_cross_append_right(a, sy, m);
    lemma_cross_append_left(sx + m, sy, b);
    lemma_cross_append_left(sx, m, b);
    lemma_cross_append_left(sy + m, sx, b);
    lemma_cross_append_left(sy, m, b);
}

/// The sign of the shuffle that sorts `k_combo ++ l_combo` into `merged`:
/// (-1) to the number of swaps that bring the entries into place one by one.
pub fn shuffle_sign(k_combo: &[usize], l_combo: &[usize], merged: &[usize]) -> (sign: i32)
    requires
        strictly_increasing(merged@),
        is_arrangement_of(k_combo@ + l_combo@, merged@),
    ensures
        sign == sign_of_parity(inversions(k_combo@ + l_combo@)),
{
    let mut copy: Vec<usize> = Vec::new();
    let mut t: usize = 0;
    while t < k_combo.len()
        invariant
            t <= k_combo.len(),
            copy@ == k_combo@.take(t as int),
        decreases k_combo.len() - t,
    {
        copy.push(k_combo[t]);
        t = t + 1;
        assert(copy@ =~= k_combo@.take(t as int));
    }
    let mut t: usize = 0;
    while t < l_combo.len()
        invariant
            t <= l_combo.len(),
            copy@ == k_combo@ + l_combo@.take(t as int),
        decreases l_combo.len() - t,
    {
        copy.push(l_combo[t]);
        t = t + 1;
        assert(copy@ =~= k_combo@ + l_combo@.take(t as int));
    }
    assert(k_combo@.take(k_combo.len() as int) =~= k_combo@);
    assert(l_combo@.take(l_combo.len() as int) =~= l_combo@);
    let ghost start = copy@;
    let len = copy.len();
    let mut sign: i32 = 1;
    let ghost mut swaps: nat = 0;
    let mut i: usize = 0;
    while i < len
        invariant
            len == copy@.len(),
            merged@.len() == len,
            strictly_increasing(merged@),
            is_arrangement_of(copy@, merged@),
            i <= len,
            forall|p: int| 0 <= p < i ==> copy@[p] == merged@[p],
            sign == sign_of_parity(swaps),
            (inversions(copy@) + swaps) % 2 == inversions(start) % 2,
        decreases len - i,
    {
        if copy[i] != merged[i] {
            let mut j: usize = i + 1;
            let mut found = false;
            while j < len && !found
                invariant
                    len == copy@.len(),
                    merged@.len() == len,
                    strictly_increasing(merged@),
                    is_arrangement_of(copy@, merged@),
                    i < j <= len,
                    i < len,
                    forall|p: int| 0 <= p < i ==> copy@[p] == merged@[p],
                    found ==> copy@[i as int] == merged@[i as int],
                    !found ==> forall|q: int| i < q < j ==> copy@[q] != merged@[i as int],
                    !found ==> copy@[i as int] != merged@[i as int],
                    sign == sign_of_parity(swaps),
                    (inversions(copy@) + swaps) % 2 == inversions(start) % 2,
                decreases len - j,
            {
                if copy[j] == merged[i] {
                    let ghost before = copy@;
                    let a = copy[i];
                    let b = copy[j];
                    copy.set(i, b);
                    copy.set(j, a);
                    proof {
                        assert(copy@ =~= swapped(before, i as int, j as int));
                        lemma_swap_parity(before, i as int, j as int);
                        swaps = swaps + 1;
                        assert forall|k: int| 0 <= k < copy@.len() implies merged@.contains(
                            #[trigger] copy@[k],
                        ) by {
                            if k == i {
                                assert(merged@.contains(before[j as int]));
                            } else if k == j {
                                assert(merged@.contains(before[i as int]));
                            } else {
                                assert(merged@.contains(before[k]));
                            }
                        }
                        assert forall|p: int, q: int| 0 <= p < copy@.len() && 0 <= q < copy@.len()
                            && p != q implies copy@[p] != copy@[q] by {
                            let p2 = if p == i { j as int } else if p == j { i as int } else { p };
                            let q2 = if q == i { j as int } else if q == j { i as int } else { q };
                            assert(copy@[p] == before[p2]);
                            assert(copy@[q] == before[q2]);
                        }
                    }
                    sign = -sign;
                    found = true;
                }
                j = j + 1;
            }
            proof {
                if !found {
                    // merged[i] occurs in copy, but neither before i nor at or after i
                    lemma_arrangement_covers(copy@, merged@, i as int);
                    let q = choose|q: int| 0 <= q < copy@.len() && copy@[q] == merged@[i as int];
                    if q < i {
                        assert(copy@[q] == merged@[q]);
                        assert(merged@[q] < merged@[i as int]);
                    }
                }
            }
        }
        i = i + 1;
    }
    proof {
        assert(copy@ =~= merged@);
        lemma_sorted_no_inversions(merged@);
    }
    sign
}

/// When p uses every entry of s once, and s has no repeated entries, every
/// entry of s occurs in p.
pub(crate) proof fn lemma_arrangement_covers(p: Seq<usize>, s: Seq<usize>, i: int)
    requires
        is_arrangement_of(p, s),
        strictly_increasing(s),
        0 <= i < s.len(),
    ensures
        p.contains(s[i]),
{
    let ps = p.to_set();
    let ss = s.to_set();
    assert(ps.subset_of(ss)) by {
        assert forall|x: usize| ps.contains(x) implies ss.contains(x) by {
            let k = choose|k: int| 0 <= k < p.len() && p[k] == x;
            assert(s.contains(p[k]));
        }
    }
    assert(s.no_duplicates()) by {
        assert forall|a: int, b: int| 0 <= a < s.len() && 0 <= b < s.len() && a != b implies s[a]
            != s[b] by {
            if a < b {
                assert(s[a] < s[b]);
            } else {
                assert(s[b] < s[a]);
            }
        }
    }
    p.unique_seq_to_set();
    s.unique_seq_to_set();
    if !ps.contains(s[i]) {
        assert(ss.contains(s[i]));
        vstd::set_lib::lemma_len_subset(ps, ss.remove(s[i]));
        assert(ps.subset_of(ss.remove(s[i])));
    }
}

/// A strictly increasing sequence has no inversions.
pub(crate) proof fn lemma_sorted_no_inversions(s: Seq<usize>)
    requires
        strictly_increasing(s),
    ensures
        inversions(s) == 0,
    decreases s.len(),
{
    if s.len() > 0 {
        let s0 = s.drop_last();
        assert(strictly_increasing(s0));
        lemma_sorted_no_inversions(s0);
        lemma_count_greater_below(s0, s.last());
    }
}

pub(crate) proof fn lemma_count_greater_below(s: Seq<usize>, x: usize)
    requires
        forall|k: int| 0 <= k < s.len() ==> s[k] < x,
    ensures
        count_greater(s, x) == 0,
    decreases s.len(),
{
    if s.len() > 0 {
        lemma_count_greater_below(s.drop_last(), x);
    }
}

/// For strictly increasing index lists a and b, the inversions of a ++ b are
/// the pairs (u in a, v in b) with u > v.
pub proof fn lemma_shuffle_inversions(a: Seq<usize>, b: Seq<usize>)
    requires
        strictly_increasing(a),
        strictly_increasing(b),
    ensures
        inversions(a + b) == cross_inversions(a, b),
{
    lemma_inversions_append(a, b);
    lemma_sorted_no_inversions(a);
    lemma_sorted_no_inversions(b);
}

proof fn lemma_cross_empty_left(a: Seq<usize>)
    ensures
        cross_inversions(Seq::<usize>::empty(), a) == 0,
    decreases a.len(),
{
    if a.len() > 0 {
        lemma_cross_empty_left(a.drop_last());
        assert(count_greater(Seq::<usize>::empty(), a.last()) == 0);
    }
}

proof fn lemma_sign_of_sum(p: nat, q: nat)
    ensures
        sign_of_parity(p) * sign_of_parity(q) == sign_of_parity(p + q),
{
    assert((p + q) % 2 == (p % 2 + q % 2) % 2) by (nonlinear_arith);
    if p % 2 == 0 {
        if q % 2 == 0 {
            assert(sign_of_parity(p + q) == 1);
        } else {
            assert(sign_of_parity(p + q) == -1);
        }
    } else {
        if q % 2 == 0 {
            assert(sign_of_parity(p + q) == -1);
        } else {
            assert(sign_of_parity(p + q) == 1);
        }
    }
}

proof fn lemma_cross_complementary(a: Seq<usize>, b: Seq<usize>)
    requires
        forall|k: int| 0 <= k < b.len() ==> !a.contains(#[trigger] b[k]),
    ensures
        cross_inversions(a, b) + cross_inversions(b, a) == a.len() * b.len(),
    decreases b.len(),
{
    if b.len() > 0 {
        let b0 = b.drop_last();
        let v = b.last();
        assert(!a.contains(v)) by {
            assert(b[b.len() - 1] == v);
        }
        assert forall|k: int| 0 <= k < b0.len() implies !a.contains(#[trigger] b0[k]) by {
            assert(b0[k] == b[k]);
        }
        lemma_cross_complementary(a, b0);
        assert(b =~= b0 + seq![v]);
        lemma_cross_append_left(b0, seq![v], a);
        lemma_split_around(a, v);
        assert(a.len() * b.len() == a.len() * b0.len() + a.len()) by (nonlinear_arith)
            requires
                b.len() == b0.len() + 1,
        ;
    } else {
        assert(b =~= Seq::<usize>::empty());
        lemma_cross_empty_left(a);
        assert(a.len() * b.len() == 0);
    }
}

/// Anticommutativity of the wedge product: for disjoint strictly increasing
/// index lists of lengths k and l, the shuffle signs of a ++ b and of b ++ a
/// differ by the factor (-1)^(k·l); for two 1-forms, dxᵢ ∧ dxⱼ = -dxⱼ ∧ dxᵢ.
pub proof fn lemma_shuffle_sign_anticommutes(a: Seq<usize>, b: Seq<usize>)
    requires
        strictly_increasing(a),
        strictly_increasing(b),
        forall|k: int| 0 <= k < b.len() ==> !a.contains(#[trigger] b[k]),
    ensures
        sign_of_parity(inversions(a + b)) * sign_of_parity(inversions(b + a)) == sign_of_parity(
            a.len() * b.len(),
        ),
{
    lemma_shuffle_inversions(a, b);
    lemma_shuffle_inversions(b, a);
    lemma_cross_complementary(a, b);
    lemma_sign_of_sum(cross_inversions(a, b), cross_inversions(b, a));
}

} // verus!
