//! The strictly increasing k-tuples of {0, ..., n - 1} in lexicographic order:
//! the index set of the components of a k-form.
use vstd::prelude::*;
use super::coefficients::{binom, lemma_binom_above};

verus! {

// ---------------------------------------------------------------------------
// k-combinations in lexicographic order
// ---------------------------------------------------------------------------

/// Puts `x` in front of every row.
pub open spec fn prepend_all(x: usize, rows: Seq<Seq<usize>>) -> Seq<Seq<usize>> {
    rows.map_values(|c: Seq<usize>| seq![x] + c)
}

/// The strictly increasing k-tuples drawn from {lo, ..., n - 1}, in
/// lexicographic order: first those that start with `lo`, then the rest.
pub open spec fn combinations_from(lo: nat, n: nat, k: nat) -> Seq<Seq<usize>>
    decreases n - lo,
{
    if k == 0 {
        seq![Seq::<usize>::empty()]
    } else if lo + k > n {
        Seq::<Seq<usize>>::empty()
    } else {
        prepend_all(lo as usize, combinations_from(lo + 1, n, (k - 1) as nat)) + combinations_from(
            lo + 1,
            n,
            k,
        )
    }
}

/// The strictly increasing k-tuples of {0, ..., n - 1} in lexicographic order:
/// the index set of the components of a k-form on Rⁿ.
pub open spec fn combinations(n: nat, k: nat) -> Seq<Seq<usize>> {
    combinations_from(0, n, k)
}

/// A copy of `rows` with `x` put in front of every row.
pub(crate) fn prepend_to_each(x: usize, rows: &Vec<Vec<usize>>) -> (r: Vec<Vec<usize>>)
    ensures
        r.deep_view() == prepend_all(x, rows.deep_view()),
{
    let mut r: Vec<Vec<usize>> = Vec::new();
    let mut i: usize = 0;
    while i < rows.len()
        invariant
            i <= rows.len(),
            r@.len() == i,
            r.deep_view() == prepend_all(x, rows.deep_view().take(i as int)),
        decreases rows.len() - i,
    {
        let row = &rows[i];
        let mut c: Vec<usize> = Vec::new();
        c.push(x);
        let mut t: usize = 0;
        while t < row.len()
            invariant
                t <= row.len(),
                c@ == seq![x] + row@.take(t as int),
            decreases row.len() - t,
        {
            c.push(row[t]);
            t = t + 1;
            assert(c@ =~= seq![x] + row@.take(t as int));
        }
        assert(row@.take(row.len() as int) =~= row@);
        let ghost before = r.deep_view();
        let ghost r0 = r@;
        r.push(c);
        proof {
            let target = prepend_all(x, rows.deep_view().take(i + 1));
            assert(rows.deep_view()[i as int] =~= row@);
            assert(c.deep_view() =~= c@);
            assert forall|j: int| 0 <= j < r.deep_view().len() implies r.deep_view()[j]
                == target[j] by {
                if j < i {
                    assert(r@[j] == r0[j]);
                    assert(before[j] == r0[j].deep_view());
                } else {
                    assert(r@[j] == c);
                }
            }
            assert(r.deep_view() =~= target);
        }
        i = i + 1;
    }
    assert(rows.deep_view().take(rows.len() as int) =~= rows.deep_view());
    r
}

/// The deep view of a concatenation is the concatenation of the deep views.
proof fn lemma_deep_view_append(a: Seq<Vec<usize>>, b: Seq<Vec<usize>>)
    ensures
        Seq::new((a + b).len(), |i: int| (a + b)[i]@) =~= Seq::new(a.len(), |i: int| a[i]@) + Seq::new(
            b.len(),
            |i: int| b[i]@,
        ),
{
}

fn combinations_from_exec(lo: usize, n: usize, k: usize) -> (r: Vec<Vec<usize>>)
    requires
        lo <= n,
    ensures
        r.deep_view() == combinations_from(lo as nat, n as nat, k as nat),
    decreases n - lo,
{
    if k == 0 {
        let mut r: Vec<Vec<usize>> = Vec::new();
        r.push(Vec::new());
        assert(r.deep_view() =~~= seq![Seq::<usize>::empty()]);
        return r;
    }
    if k > n - lo {
        let r: Vec<Vec<usize>> = Vec::new();
        assert(r.deep_view() =~= Seq::<Seq<usize>>::empty());
        return r;
    }
    let heads = combinations_from_exec(lo + 1, n, k - 1);
    let mut r = prepend_to_each(lo, &heads);
    let mut rest = combinations_from_exec(lo + 1, n, k);
    let ghost r0 = r@;
    let ghost rest0 = rest@;
    r.append(&mut rest);
    proof {
        lemma_deep_view_append(r0, rest0);
        assert(r.deep_view() =~= prepend_all(lo as usize, combinations_from((lo + 1) as nat, n as nat, (k - 1) as nat))
            + combinations_from((lo + 1) as nat, n as nat, k as nat));
    }
    r
}

/// The strictly increasing k-tuples of {0, ..., n - 1} in lexicographic order.
pub fn k_combinations(n: usize, k: usize) -> (r: Vec<Vec<usize>>)
    ensures
        r.deep_view() == combinations(n as nat, k as nat),
{
    combinations_from_exec(0, n, k)
}

/// `c` is strictly increasing with every entry in {lo, ..., n - 1}.
pub open spec fn increasing_within(c: Seq<usize>, lo: nat, n: nat) -> bool {
    &&& forall|a: int, b: int| 0 <= a < b < c.len() ==> c[a] < c[b]
    &&& forall|a: int| 0 <= a < c.len() ==> lo <= #[trigger] c[a] < n
}

/// Strict lexicographic order on sequences.
pub open spec fn lex_less(a: Seq<usize>, b: Seq<usize>) -> bool
    decreases a.len(),
{
    a.len() > 0 && b.len() > 0 && (a[0] < b[0] || (a[0] == b[0] && lex_less(
        a.drop_first(),
        b.drop_first(),
    )))
}

/// There are C(n - lo, k) increasing k-tuples in {lo, ..., n - 1}.
pub proof fn lemma_combinations_len(lo: nat, n: nat, k: nat)
    requires
        lo <= n,
    ensures
        combinations_from(lo, n, k).len() == binom((n - lo) as nat, k),
    decreases n - lo,
{
    if k == 0 {
    } else if lo + k > n {
        lemma_binom_above((n - lo) as nat, k);
    } else {
        lemma_combinations_len(lo + 1, n, (k - 1) as nat);
        lemma_combinations_len(lo + 1, n, k);
        assert((n - (lo + 1)) as nat == ((n - lo) as nat - 1) as nat);
    }
}

/// Every listed tuple has length k and is strictly increasing within {lo, ..., n - 1}.
pub proof fn lemma_combinations_well_formed(lo: nat, n: nat, k: nat)
    requires
        lo <= n,
        n <= usize::MAX,
    ensures
        forall|i: int|
            0 <= i < combinations_from(lo, n, k).len() ==> {
                &&& (#[trigger] combinations_from(lo, n, k)[i]).len() == k
                &&& increasing_within(combinations_from(lo, n, k)[i], lo, n)
            },
    decreases n - lo,
{
    if k == 0 {
    } else if lo + k > n {
    } else {
        lemma_combinations_well_formed(lo + 1, n, (k - 1) as nat);
        lemma_combinations_well_formed(lo + 1, n, k);
        let heads = combinations_from(lo + 1, n, (k - 1) as nat);
        let firsts = prepend_all(lo as usize, heads);
        let rest = combinations_from(lo + 1, n, k);
        assert forall|i: int| 0 <= i < combinations_from(lo, n, k).len() implies {
            &&& (#[trigger] combinations_from(lo, n, k)[i]).len() == k
            &&& increasing_within(combinations_from(lo, n, k)[i], lo, n)
        } by {
            let c = combinations_from(lo, n, k)[i];
            if i < firsts.len() {
                let h = heads[i];
                assert(c == seq![lo as usize] + h);
                assert(h.len() == k - 1);
                assert(increasing_within(h, lo + 1, n));
                assert forall|a: int, b: int| 0 <= a < b < c.len() implies c[a] < c[b] by {
                    if a == 0 {
                        assert(c[b] == h[b - 1]);
                    } else {
                        assert(c[a] == h[a - 1]);
                        assert(c[b] == h[b - 1]);
                    }
                }
                assert forall|a: int| 0 <= a < c.len() implies lo <= #[trigger] c[a] < n by {
                    if a > 0 {
                        assert(c[a] == h[a - 1]);
                    }
                }
            } else {
                assert(c == rest[i - firsts.len()]);
            }
        }
    }
}

/// An increasing sequence whose entries are at least lo has c[j] >= lo + j.
proof fn lemma_increasing_lower_bound(c: Seq<usize>, lo: nat, n: nat, j: int)
    requires
        increasing_within(c, lo, n),
        0 <= j < c.len(),
    ensures
        c[j] >= lo + j,
    decreases j,
{
    if j > 0 {
        lemma_increasing_lower_bound(c, lo, n, j - 1);
    }
}

/// Every strictly increasing k-tuple within {lo, ..., n - 1} is listed.
pub proof fn lemma_combinations_complete(lo: nat, n: nat, k: nat, c: Seq<usize>)
    requires
        lo <= n,
        n <= usize::MAX,
        c.len() == k,
        increasing_within(c, lo, n),
    ensures
        combinations_from(lo, n, k).contains(c),
    decreases n - lo,
{
    if k == 0 {
        assert(c =~= Seq::<usize>::empty());
        assert(combinations_from(lo, n, k)[0] == c);
    } else {
        lemma_increasing_lower_bound(c, lo, n, k - 1);
        assert(lo + k <= n);
        let heads = combinations_from(lo + 1, n, (k - 1) as nat);
        let firsts = prepend_all(lo as usize, heads);
        let all = combinations_from(lo, n, k);
        assert(all == firsts + combinations_from(lo + 1, n, k));
        if c[0] == lo {
            let t = c.drop_first();
            assert forall|a: int| 0 <= a < t.len() implies lo + 1 <= #[trigger] t[a] < n by {
                assert(t[a] == c[a + 1]);
                assert(c[0] < c[a + 1]);
            }
            assert(increasing_within(t, lo + 1, n));
            lemma_combinations_complete(lo + 1, n, (k - 1) as nat, t);
            let idx = choose|idx: int| 0 <= idx < heads.len() && heads[idx] == t;
            assert(firsts[idx] =~= c);
            assert(all[idx] == c);
        } else {
            assert forall|a: int| 0 <= a < c.len() implies lo + 1 <= #[trigger] c[a] < n by {
                if a > 0 {
                    assert(c[0] < c[a]);
                }
            }
            lemma_combinations_complete(lo + 1, n, k, c);
            let rest = combinations_from(lo + 1, n, k);
            let idx = choose|idx: int| 0 <= idx < rest.len() && rest[idx] == c;
            assert(all[firsts.len() + idx] == c);
        }
    }
}

/// The list is strictly increasing in lexicographic order.
pub proof fn lemma_combinations_sorted(lo: nat, n: nat, k: nat)
    requires
        lo <= n,
        n <= usize::MAX,
    ensures
        forall|i: int, j: int|
            0 <= i < j < combinations_from(lo, n, k).len() ==> lex_less(
                #[trigger] combinations_from(lo, n, k)[i],
                #[trigger] combinations_from(lo, n, k)[j],
            ),
    decreases n - lo,
{
    if k == 0 {
    } else if lo + k > n {
    } else {
        lemma_combinations_sorted(lo + 1, n, (k - 1) as nat);
        lemma_combinations_sorted(lo + 1, n, k);
        lemma_combinations_well_formed(lo + 1, n, k);
        let heads = combinations_from(lo + 1, n, (k - 1) as nat);
        let firsts = prepend_all(lo as usize, heads);
        let rest = combinations_from(lo + 1, n, k);
        let all = combinations_from(lo, n, k);
        assert forall|i: int, j: int| 0 <= i < j < all.len() implies lex_less(
            #[trigger] all[i],
            #[trigger] all[j],
        ) by {
            if j < firsts.len() {
                assert(all[i] == seq![lo as usize] + heads[i]);
                assert(all[j] == seq![lo as usize] + heads[j]);
                assert(all[i].drop_first() =~= heads[i]);
                assert(all[j].drop_first() =~= heads[j]);
                assert(lex_less(heads[i], heads[j]));
            } else if i < firsts.len() {
                let r = rest[j - firsts.len()];
                assert(all[j] == r);
                assert(all[i] == seq![lo as usize] + heads[i]);
                assert(r.len() == k);
                assert(lo + 1 <= r[0]);
            } else {
                assert(all[i] == rest[i - firsts.len()]);
                assert(all[j] == rest[j - firsts.len()]);
            }
        }
    }
}

/// The k-combinations of {0, ..., n - 1} are exactly the strictly increasing
/// k-tuples below n, each once, in lexicographic order, and there are C(n, k)
/// of them: one per component of a k-form on Rⁿ.
pub proof fn lemma_k_combinations_characterized(n: nat, k: nat)
    requires
        n <= usize::MAX,
    ensures
        combinations(n, k).len() == binom(n, k),
        forall|i: int|
            0 <= i < combinations(n, k).len() ==> (#[trigger] combinations(n, k)[i]).len() == k
                && increasing_within(combinations(n, k)[i], 0, n),
        forall|c: Seq<usize>|
            c.len() == k && increasing_within(c, 0, n) ==> #[trigger] combinations(n, k).contains(c),
        forall|i: int, j: int|
            0 <= i < j < combinations(n, k).len() ==> lex_less(
                #[trigger] combinations(n, k)[i],
                #[trigger] combinations(n, k)[j],
            ),
{
    lemma_combinations_len(0, n, k);
    lemma_combinations_well_formed(0, n, k);
    lemma_combinations_sorted(0, n, k);
    assert forall|c: Seq<usize>| c.len() == k && increasing_within(c, 0, n) implies #[trigger] combinations(
        n,
        k,
    ).contains(c) by {
        lemma_combinations_complete(0, n, k, c);
    }
}

} // verus!
