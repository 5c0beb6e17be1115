//! The permutations of {0, ..., n - 1} in lexicographic order.
use vstd::prelude::*;
use super::coefficients::{factorial};
use super::combinations::{lex_less, prepend_all, prepend_to_each};

verus! {

// ---------------------------------------------------------------------------
// Permutations in lexicographic order
// ---------------------------------------------------------------------------

/// All arrangements of the entries of `s`: for each position i in turn, `s[i]`
/// followed by every arrangement of the remaining entries. For increasing `s`
/// this is lexicographic order.
pub open spec fn arrangements(s: Seq<usize>) -> Seq<Seq<usize>>
    decreases s.len(), 1nat, 0nat,
{
    if s.len() == 0 {
        seq![Seq::<usize>::empty()]
    } else {
        arrangements_from(s, 0)
    }
}

/// The arrangements of `s` whose first entry is `s[j]` for some j >= i.
pub open spec fn arrangements_from(s: Seq<usize>, i: nat) -> Seq<Seq<usize>>
    decreases s.len(), 0nat, s.len() - i,
{
    if i >= s.len() {
        Seq::<Seq<usize>>::empty()
    } else {
        prepend_all(s[i as int], arrangements(s.remove(i as int))) + arrangements_from(s, i + 1)
    }
}

/// 0, 1, ..., n - 1.
pub open spec fn identity_seq(n: nat) -> Seq<usize> {
    Seq::new(n, |i: int| i as usize)
}

/// The permutations of {0, ..., n - 1} in lexicographic order.
pub open spec fn permutations_spec(n: nat) -> Seq<Seq<usize>> {
    arrangements(identity_seq(n))
}

/// `s` with its i-th entry removed.
fn vec_without(s: &Vec<usize>, i: usize) -> (r: Vec<usize>)
    requires
        i < s.len(),
    ensures
        r@ == s@.remove(i as int),
{
    let mut r: Vec<usize> = Vec::new();
    let mut j: usize = 0;
    while j < s.len()
        invariant
            i < s.len(),
            j <= s.len(),
            r@ == (if j <= i { s@.take(j as int) } else { s@.remove(i as int).take(j - 1) }),
        decreases s.len() - j,
    {
        if j != i {
            r.push(s[j]);
        }
        j = j + 1;
        assert(r@ =~= (if j <= i { s@.take(j as int) } else { s@.remove(i as int).take(j - 1) }));
    }
    assert(s@.remove(i as int).take(s.len() - 1) =~= s@.remove(i as int));
    r
}

fn arrangements_exec(s: &Vec<usize>) -> (r: Vec<Vec<usize>>)
    ensures
        r.deep_view() == arrangements(s@),
    decreases s@.len(),
{
    if s.len() == 0 {
        let mut r: Vec<Vec<usize>> = Vec::new();
        r.push(Vec::new());
        assert(r.deep_view() =~~= seq![Seq::<usize>::empty()]);
        return r;
    }
    let mut r: Vec<Vec<usize>> = Vec::new();
    let mut i: usize = 0;
    while i < s.len()
        invariant
            0 < s.len(),
            i <= s.len(),
            r.deep_view() + arrangements_from(s@, i as nat) == arrangements_from(s@, 0),
        decreases s.len() - i,
    {
        let rest = vec_without(s, i);
        let sub = arrangements_exec(&rest);
        let mut part = prepend_to_each(s[i], &sub);
        let ghost a = r.deep_view();
        let ghost b = part.deep_view();
        r.append(&mut part);
        proof {
            assert(r.deep_view() =~= a + b);
            assert(s@[i as int] == s[i as int]);
            assert(arrangements_from(s@, i as nat) == b + arrangements_from(s@, (i + 1) as nat));
            assert((a + b) + arrangements_from(s@, (i + 1) as nat) =~= a + (b + arrangements_from(
                s@,
                (i + 1) as nat,
            )));
        }
        i = i + 1;
    }
    assert(r.deep_view() + arrangements_from(s@, s.len() as nat) =~= r.deep_view());
    r
}

/// The permutations of {0, ..., n - 1} in lexicographic order.
pub fn permutations(n: usize) -> (r: Vec<Vec<usize>>)
    ensures
        r.deep_view() == permutations_spec(n as nat),
{
    let mut s: Vec<usize> = Vec::new();
    let mut i: usize = 0;
    while i < n
        invariant
            i <= n,
            s@ == identity_seq(i as nat),
        decreases n - i,
    {
        s.push(i);
        i = i + 1;
        assert(s@ =~= identity_seq(i as nat));
    }
    arrangements_exec(&s)
}

/// `p` lists the entries of `s` once each, in some order.
pub open spec fn is_arrangement_of(p: Seq<usize>, s: Seq<usize>) -> bool {
    &&& p.len() == s.len()
    &&& p.no_duplicates()
    &&& forall|j: int| 0 <= j < p.len() ==> s.contains(#[trigger] p[j])
}

/// `p` is a permutation of {0, ..., n - 1}.
pub open spec fn is_permutation(p: Seq<usize>, n: nat) -> bool {
    &&& p.len() == n
    &&& p.no_duplicates()
    &&& forall|j: int| 0 <= j < p.len() ==> #[trigger] p[j] < n
}

pub open spec fn strictly_increasing(s: Seq<usize>) -> bool {
    forall|a: int, b: int| 0 <= a < b < s.len() ==> s[a] < s[b]
}

proof fn lemma_remove_facts(s: Seq<usize>, i: int)
    requires
        0 <= i < s.len(),
    ensures
        s.remove(i).len() == s.len() - 1,
        forall|a: int| 0 <= a < i ==> #[trigger] s.remove(i)[a] == s[a],
        forall|a: int| i <= a < s.len() - 1 ==> #[trigger] s.remove(i)[a] == s[a + 1],
        s.no_duplicates() ==> s.remove(i).no_duplicates(),
        s.no_duplicates() ==> forall|x: usize| #[trigger] s.remove(i).contains(x) <==> (s.contains(x) && x != s[i]),
        strictly_increasing(s) ==> strictly_increasing(s.remove(i)),
{
    let r = s.remove(i);
    if s.no_duplicates() {
        assert forall|a: int, b: int| 0 <= a < r.len() && 0 <= b < r.len() && a != b implies r[a]
            != r[b] by {
            let a2 = if a < i { a } else { a + 1 };
            let b2 = if b < i { b } else { b + 1 };
            assert(r[a] == s[a2]);
            assert(r[b] == s[b2]);
        }
        assert forall|x: usize| #[trigger] r.contains(x) <==> (s.contains(x) && x != s[i]) by {
            if r.contains(x) {
                let a = choose|a: int| 0 <= a < r.len() && r[a] == x;
                let a2 = if a < i { a } else { a + 1 };
                assert(s[a2] == x);
            }
            if s.contains(x) && x != s[i] {
                let a = choose|a: int| 0 <= a < s.len() && s[a] == x;
                if a < i {
                    assert(r[a] == x);
                } else {
                    assert(a != i);
                    assert(r[a - 1] == x);
                }
            }
        }
    }
    if strictly_increasing(s) {
        assert forall|a: int, b: int| 0 <= a < b < r.len() implies r[a] < r[b] by {
            let a2 = if a < i { a } else { a + 1 };
            let b2 = if b < i { b } else { b + 1 };
            assert(r[a] == s[a2]);
            assert(r[b] == s[b2]);
        }
    }
}

/// There are |s|! arrangements of s.
pub proof fn lemma_arrangements_len(s: Seq<usize>)
    ensures
        arrangements(s).len() == factorial(s.len()),
    decreases s.len(), 1nat, 0nat,
{
    if s.len() > 0 {
        lemma_arrangements_from_len(s, 0);
        assert(factorial(s.len()) == s.len() * factorial((s.len() - 1) as nat));
    }
}

proof fn lemma_arrangements_from_len(s: Seq<usize>, i: nat)
    requires
        s.len() > 0,
        i <= s.len(),
    ensures
        arrangements_from(s, i).len() == (s.len() - i) * factorial((s.len() - 1) as nat),
    decreases s.len(), 0nat, s.len() - i,
{
    let f = factorial((s.len() - 1) as nat);
    if i < s.len() {
        lemma_arrangements_len(s.remove(i as int));
        lemma_arrangements_from_len(s, i + 1);
        assert(s.remove(i as int).len() == s.len() - 1);
        let block = prepend_all(s[i as int], arrangements(s.remove(i as int)));
        assert(block.len() == f);
        assert(arrangements_from(s, i) == block + arrangements_from(s, i + 1));
        assert((s.len() - i) * f == f + (s.len() - (i + 1)) * f) by (nonlinear_arith);
    } else {
        assert((s.len() - i) * f == 0 * f);
    }
}

/// For s without repeated entries, every listed arrangement uses each entry of s once.
pub proof fn lemma_arrangements_well_formed(s: Seq<usize>)
    requires
        s.no_duplicates(),
    ensures
        forall|k: int|
            0 <= k < arrangements(s).len() ==> is_arrangement_of(#[trigger] arrangements(s)[k], s),
    decreases s.len(), 1nat, 0nat,
{
    if s.len() == 0 {
        assert(arrangements(s).len() == 1);
        assert(arrangements(s)[0] =~= Seq::<usize>::empty());
        assert(is_arrangement_of(arrangements(s)[0], s));
    } else {
        lemma_arrangements_from_well_formed(s, 0);
        assert(arrangements(s) == arrangements_from(s, 0));
    }
}

proof fn lemma_arrangements_from_well_formed(s: Seq<usize>, i: nat)
    requires
        s.no_duplicates(),
        i <= s.len(),
    ensures
        forall|k: int|
            0 <= k < arrangements_from(s, i).len() ==> is_arrangement_of(
                #[trigger] arrangements_from(s, i)[k],
                s,
            ),
    decreases s.len(), 0nat, s.len() - i,
{
    if i < s.len() {
        let r = s.remove(i as int);
        lemma_remove_facts(s, i as int);
        lemma_arrangements_well_formed(r);
        lemma_arrangements_from_well_formed(s, i + 1);
        let block = prepend_all(s[i as int], arrangements(r));
        let all = arrangements_from(s, i);
        assert(all == block + arrangements_from(s, i + 1));
        assert forall|k: int| 0 <= k < all.len() implies is_arrangement_of(#[trigger] all[k], s) by {
            if k < block.len() {
                let q = arrangements(r)[k];
                let p = all[k];
                assert(p == seq![s[i as int]] + q);
                assert(is_arrangement_of(q, r));
                assert forall|a: int, b: int| 0 <= a < p.len() && 0 <= b < p.len() && a != b implies p[a]
                    != p[b] by {
                    if a == 0 {
                        assert(p[b] == q[b - 1]);
                        assert(r.contains(q[b - 1]));
                    } else if b == 0 {
                        assert(p[a] == q[a - 1]);
                        assert(r.contains(q[a - 1]));
                    } else {
                        assert(p[a] == q[a - 1]);
                        assert(p[b] == q[b - 1]);
                    }
                }
                assert forall|j: int| 0 <= j < p.len() implies s.contains(#[trigger] p[j]) by {
                    if j == 0 {
                        assert(s[i as int] == p[0]);
                    } else {
                        assert(p[j] == q[j - 1]);
                        assert(r.contains(q[j - 1]));
                    }
                }
            } else {
                assert(all[k] == arrangements_from(s, i + 1)[k - block.len()]);
            }
        }
    }
}

proof fn lemma_arrangements_from_contains(s: Seq<usize>, i: nat, j: nat, p: Seq<usize>)
    requires
        j <= i < s.len(),
        prepend_all(s[i as int], arrangements(s.remove(i as int))).contains(p),
    ensures
        arrangements_from(s, j).contains(p),
    decreases i - j,
{
    let block = prepend_all(s[j as int], arrangements(s.remove(j as int)));
    let all = arrangements_from(s, j);
    assert(all == block + arrangements_from(s, j + 1));
    if j == i {
        let k = choose|k: int| 0 <= k < block.len() && block[k] == p;
        assert(all[k] == p);
    } else {
        lemma_arrangements_from_contains(s, i, j + 1, p);
        let rest = arrangements_from(s, j + 1);
        let k = choose|k: int| 0 <= k < rest.len() && rest[k] == p;
        assert(all[block.len() + k] == p);
    }
}

/// For s without repeated entries, every arrangement of s is listed.
pub proof fn lemma_arrangements_complete(s: Seq<usize>, p: Seq<usize>)
    requires
        s.no_duplicates(),
        is_arrangement_of(p, s),
    ensures
        arrangements(s).contains(p),
    decreases s.len(),
{
    if s.len() == 0 {
        assert(p =~= Seq::<usize>::empty());
        assert(arrangements(s)[0] == p);
    } else {
        assert(s.contains(p[0]));
        let i = choose|i: int| 0 <= i < s.len() && s[i] == p[0];
        let r = s.remove(i);
        lemma_remove_facts(s, i);
        let q = p.drop_first();
        assert forall|a: int, b: int| 0 <= a < q.len() && 0 <= b < q.len() && a != b implies q[a]
            != q[b] by {
            assert(q[a] == p[a + 1]);
            assert(q[b] == p[b + 1]);
        }
        assert forall|j: int| 0 <= j < q.len() implies r.contains(#[trigger] q[j]) by {
            assert(q[j] == p[j + 1]);
            assert(s.contains(p[j + 1]));
            assert(p[j + 1] != p[0]);
        }
        assert(is_arrangement_of(q, r));
        lemma_arrangements_complete(r, q);
        let subs = arrangements(r);
        let k = choose|k: int| 0 <= k < subs.len() && subs[k] == q;
        let block = prepend_all(s[i], subs);
        assert(block[k] =~= p);
        assert(block.contains(p));
        lemma_arrangements_from_contains(s, i as nat, 0, p);
    }
}

proof fn lemma_arrangements_from_first(s: Seq<usize>, i: nat)
    requires
        strictly_increasing(s),
        i <= s.len(),
    ensures
        forall|k: int|
            0 <= k < arrangements_from(s, i).len() ==> (#[trigger] arrangements_from(s, i)[k]).len()
                > 0 && arrangements_from(s, i)[k][0] >= s[i as int],
    decreases s.len() - i,
{
    if i < s.len() {
        lemma_arrangements_from_first(s, i + 1);
        let block = prepend_all(s[i as int], arrangements(s.remove(i as int)));
        let all = arrangements_from(s, i);
        assert(all == block + arrangements_from(s, i + 1));
        assert forall|k: int| 0 <= k < all.len() implies (#[trigger] all[k]).len() > 0 && all[k][0]
            >= s[i as int] by {
            if k < block.len() {
                assert(all[k] == seq![s[i as int]] + arrangements(s.remove(i as int))[k]);
            } else {
                assert(all[k] == arrangements_from(s, i + 1)[k - block.len()]);
                if i + 1 < s.len() {
                    assert(s[i as int] < s[i + 1 as int]);
                }
            }
        }
    }
}

/// For strictly increasing s, the arrangements are listed in strictly
/// increasing lexicographic order.
pub proof fn lemma_arrangements_sorted(s: Seq<usize>)
    requires
        strictly_increasing(s),
    ensures
        forall|a: int, b: int|
            0 <= a < b < arrangements(s).len() ==> lex_less(
                #[trigger] arrangements(s)[a],
                #[trigger] arrangements(s)[b],
            ),
    decreases s.len(), 1nat, 0nat,
{
    if s.len() > 0 {
        lemma_arrangements_from_sorted(s, 0);
        assert(arrangements(s) == arrangements_from(s, 0));
    }
}

proof fn lemma_arrangements_from_sorted(s: Seq<usize>, i: nat)
    requires
        strictly_increasing(s),
        i <= s.len(),
    ensures
        forall|a: int, b: int|
            0 <= a < b < arrangements_from(s, i).len() ==> lex_less(
                #[trigger] arrangements_from(s, i)[a],
                #[trigger] arrangements_from(s, i)[b],
            ),
    decreases s.len(), 0nat, s.len() - i,
{
    if i < s.len() {
        let r = s.remove(i as int);
        lemma_remove_facts(s, i as int);
        lemma_arrangements_sorted(r);
        lemma_arrangements_from_sorted(s, i + 1);
        lemma_arrangements_from_first(s, i + 1);
        let subs = arrangements(r);
        let block = prepend_all(s[i as int], subs);
        let rest = arrangements_from(s, i + 1);
        let all = arrangements_from(s, i);
        assert(all == block + rest);
        assert forall|a: int, b: int| 0 <= a < b < all.len() implies lex_less(
            #[trigger] all[a],
            #[trigger] all[b],
        ) by {
            if b < block.len() {
                assert(all[a] == seq![s[i as int]] + subs[a]);
                assert(all[b] == seq![s[i as int]] + subs[b]);
                assert(all[a].drop_first() =~= subs[a]);
                assert(all[b].drop_first() =~= subs[b]);
                assert(lex_less(subs[a], subs[b]));
            } else if a < block.len() {
                assert(all[a] == seq![s[i as int]] + subs[a]);
                assert(all[b] == rest[b - block.len()]);
                assert(s[i as int] < s[i + 1 as int]);
            } else {
                assert(all[a] == rest[a - block.len()]);
                assert(all[b] == rest[b - block.len()]);
            }
        }
    }
}

proof fn lemma_identity_seq(n: nat)
    requires
        n <= usize::MAX + 1,
    ensures
        strictly_increasing(identity_seq(n)),
        identity_seq(n).no_duplicates(),
        forall|x: usize| #[trigger] identity_seq(n).contains(x) <==> x < n,
{
    let s = identity_seq(n);
    assert forall|x: usize| #[trigger] s.contains(x) <==> x < n by {
        if x < n {
            assert(s[x as int] == x);
        }
    }
}

/// `permutations(n)` lists the n! permutations of {0, ..., n - 1}, each once,
/// in lexicographic order.
pub proof fn lemma_permutations_characterized(n: nat)
    requires
        n <= usize::MAX,
    ensures
        permutations_spec(n).len() == factorial(n),
        forall|k: int|
            0 <= k < permutations_spec(n).len() ==> is_permutation(#[trigger] permutations_spec(n)[k], n),
        forall|p: Seq<usize>| is_permutation(p, n) ==> #[trigger] permutations_spec(n).contains(p),
        forall|a: int, b: int|
            0 <= a < b < permutations_spec(n).len() ==> lex_less(
                #[trigger] permutations_spec(n)[a],
                #[trigger] permutations_spec(n)[b],
            ),
{
    let s = identity_seq(n);
    lemma_identity_seq(n);
    lemma_arrangements_len(s);
    lemma_arrangements_well_formed(s);
    lemma_arrangements_sorted(s);
    assert forall|k: int| 0 <= k < permutations_spec(n).len() implies is_permutation(
        #[trigger] permutations_spec(n)[k],
        n,
    ) by {
        let p = permutations_spec(n)[k];
        assert(is_arrangement_of(p, s));
        assert forall|j: int| 0 <= j < p.len() implies #[trigger] p[j] < n by {
            assert(s.contains(p[j]));
        }
    }
    assert forall|p: Seq<usize>| is_permutation(p, n) implies #[trigger] permutations_spec(n).contains(
        p,
    ) by {
        assert forall|j: int| 0 <= j < p.len() implies s.contains(#[trigger] p[j]) by {
            assert(p[j] < n);
        }
        lemma_arrangements_complete(s, p);
    }
}

} // verus!
