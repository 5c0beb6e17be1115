//! The exterior-algebra combinatorics behind differential forms: binomial
//! coefficients (the number of components of a k-form), the lexicographic
//! list of k-combinations that indexes those components, permutations and
//! their parity, shuffle signs of the wedge product, and the complements
//! used by the Hodge star.
use vstd::prelude::*;

pub mod arrangements;
pub mod coefficients;
pub mod combinations;
pub mod parity;
pub mod permutation_sign;
pub mod shuffle;

pub use self::arrangements::{
    identity_seq, is_arrangement_of, is_permutation, permutations, permutations_spec,
    strictly_increasing,
};
pub use self::coefficients::{binom, binomial, binomial_fits, checked_binomial};
pub use self::combinations::{
    combinations, increasing_within, k_combinations, lemma_combinations_well_formed,
    lemma_k_combinations_characterized, lex_less,
};
pub use self::parity::{
    is_even_permutation, is_even_permutation_from, maps_into_itself, permutation_is_even,
    relative_permutation,
};
pub use self::shuffle::{inversions, shuffle_sign, sign_of_parity};
pub use self::permutation_sign::{
    compose, inverse, lemma_composition_parity, lemma_even_iff_even_inversions,
    lemma_inverse_parity, lemma_relative_parity,
};
use self::parity::lemma_identity_is_even;
use self::shuffle::{lemma_arrangement_covers, lemma_shuffle_sign_anticommutes};

verus! {

// ---------------------------------------------------------------------------
// The symplectic form
// ---------------------------------------------------------------------------

/// The pair c is (2i, 2i + 1) for some i < n: the index pair of dxᵢ ∧ dyᵢ.
pub open spec fn is_symplectic_pair(c: Seq<usize>, n: nat) -> bool {
    c[0] % 2 == 0 && c[1] == c[0] + 1 && c[0] < 2 * n
}

/// For each increasing pair of indices below 2n, in lexicographic order,
/// whether it is the index pair (2i, 2i + 1) of one of the terms dxᵢ ∧ dyᵢ of
/// the standard symplectic form on R^{2n}.
pub fn symplectic_pairs(n: usize) -> (mask: Vec<bool>)
    requires
        2 * n <= usize::MAX,
    ensures
        mask@.len() == combinations(2 * n as nat, 2).len(),
        forall|idx: int|
            0 <= idx < mask@.len() ==> (#[trigger] mask@[idx] <==> is_symplectic_pair(
                combinations(2 * n as nat, 2)[idx],
                n as nat,
            )),
{
    let dim = 2 * n;
    let pairs = k_combinations(dim, 2);
    proof {
        lemma_combinations_well_formed(0, dim as nat, 2);
    }
    let mut mask: Vec<bool> = Vec::new();
    let mut idx: usize = 0;
    while idx < pairs.len()
        invariant
            dim == 2 * n,
            pairs.deep_view() == combinations(dim as nat, 2),
            forall|q: int| 0 <= q < pairs.deep_view().len() ==> (#[trigger] pairs.deep_view()[q]).len() == 2,
            idx <= pairs.len(),
            mask@.len() == idx,
            forall|q: int| 0 <= q < idx ==> (#[trigger] mask@[q] <==> is_symplectic_pair(pairs.deep_view()[q], n as nat)),
        decreases pairs.len() - idx,
    {
        let pair = &pairs[idx];
        proof {
            assert(pair@ =~= pairs.deep_view()[idx as int]);
        }
        let mut found = false;
        let mut i: usize = 0;
        while i < n
            invariant
                dim == 2 * n,
                pair@.len() == 2,
                i <= n,
                found <==> (pair@[0] % 2 == 0 && pair@[1] == pair@[0] + 1 && pair@[0] < 2 * i),
            decreases n - i,
        {
            if pair[0] == 2 * i && pair[1] == 2 * i + 1 {
                found = true;
            }
            i = i + 1;
        }
        mask.push(found);
        idx = idx + 1;
    }
    mask
}

/// The index pair (2i, 2i + 1) of the term dxᵢ ∧ dyᵢ.
pub open spec fn symplectic_term(i: nat) -> Seq<usize> {
    seq![(2 * i) as usize, (2 * i + 1) as usize]
}

proof fn lemma_lex_irreflexive(a: Seq<usize>)
    ensures
        !lex_less(a, a),
    decreases a.len(),
{
    if a.len() > 0 {
        lemma_lex_irreflexive(a.drop_first());
    }
}

proof fn lemma_symplectic_term_listed(n: nat, i: nat) -> (idx: int)
    requires
        2 * n <= usize::MAX,
        i < n,
    ensures
        0 <= idx < combinations(2 * n, 2).len(),
        combinations(2 * n, 2)[idx] == symplectic_term(i),
        is_symplectic_pair(combinations(2 * n, 2)[idx], n),
{
    let cs = combinations(2 * n, 2);
    lemma_k_combinations_characterized(2 * n, 2);
    let t = symplectic_term(i);
    assert(increasing_within(t, 0, 2 * n));
    assert(cs.contains(t));
    choose|idx: int| 0 <= idx < cs.len() && cs[idx] == t
}

proof fn lemma_marked_is_term(n: nat, idx: int) -> (i: nat)
    requires
        2 * n <= usize::MAX,
        0 <= idx < combinations(2 * n, 2).len(),
        is_symplectic_pair(combinations(2 * n, 2)[idx], n),
    ensures
        i < n,
        combinations(2 * n, 2)[idx] == symplectic_term(i),
{
    let cs = combinations(2 * n, 2);
    lemma_combinations_well_formed(0, 2 * n, 2);
    let c = cs[idx];
    assert(c.len() == 2);
    let i = (c[0] / 2) as nat;
    assert(c =~= symplectic_term(i));
    i
}

proof fn lemma_combinations_distinct(n: nat, k: nat, p: int, q: int)
    requires
        n <= usize::MAX,
        0 <= p < combinations(n, k).len(),
        0 <= q < combinations(n, k).len(),
        combinations(n, k)[p] == combinations(n, k)[q],
    ensures
        p == q,
{
    let cs = combinations(n, k);
    lemma_k_combinations_characterized(n, k);
    lemma_lex_irreflexive(cs[p]);
    if p < q {
        assert(lex_less(cs[p], cs[q]));
    } else if q < p {
        assert(lex_less(cs[q], cs[p]));
    }
}

/// The standard symplectic form on R^{2n} has exactly the n terms
/// dxᵢ ∧ dyᵢ, i < n: the pair (2i, 2i + 1) of each is listed among the
/// 2-combinations of 2n indices and marked there; every marked pair is one of
/// them; and exactly n positions are marked.
pub proof fn lemma_symplectic_terms(n: nat)
    requires
        2 * n <= usize::MAX,
    ensures
        forall|i: nat|
            i < n ==> combinations(2 * n, 2).contains(#[trigger] symplectic_term(i)) && is_symplectic_pair(
                symplectic_term(i),
                n,
            ),
        forall|idx: int|
            0 <= idx < combinations(2 * n, 2).len() && is_symplectic_pair(#[trigger] combinations(2 * n, 2)[idx], n)
                ==> exists|i: nat| i < n && combinations(2 * n, 2)[idx] == symplectic_term(i),
        Set::new(|idx: int| 0 <= idx < combinations(2 * n, 2).len() && is_symplectic_pair(combinations(2 * n, 2)[idx], n)).len()
            == n,
{
    let cs = combinations(2 * n, 2);
    assert forall|i: nat| i < n implies cs.contains(#[trigger] symplectic_term(i)) && is_symplectic_pair(
        symplectic_term(i),
        n,
    ) by {
        let idx = lemma_symplectic_term_listed(n, i);
        assert(cs[idx] == symplectic_term(i));
    }
    assert forall|idx: int| 0 <= idx < cs.len() && is_symplectic_pair(#[trigger] cs[idx], n) implies exists|i: nat|
        i < n && cs[idx] == symplectic_term(i) by {
        let i = lemma_marked_is_term(n, idx);
    }
    lemma_symplectic_count(n);
}

proof fn lemma_symplectic_count(n: nat)
    requires
        2 * n <= usize::MAX,
    ensures
        Set::new(|idx: int| 0 <= idx < combinations(2 * n, 2).len() && is_symplectic_pair(combinations(2 * n, 2)[idx], n)).len()
            == n,
{
    let cs = combinations(2 * n, 2);
    let ys = Set::new(|idx: int| 0 <= idx < cs.len() && is_symplectic_pair(cs[idx], n));
    let xs = vstd::set_lib::set_int_range(0, n as int);
    vstd::set_lib::lemma_int_range(0, n as int);
    let f = |i: int| choose|idx: int| 0 <= idx < cs.len() && cs[idx] == symplectic_term(i as nat);
    assert forall|i: int| 0 <= i < n implies 0 <= #[trigger] f(i) < cs.len() && cs[f(i)] == symplectic_term(i as nat) by {
        let idx = lemma_symplectic_term_listed(n, i as nat);
    }
    assert(vstd::relations::injective_on(f, xs)) by {
        assert forall|a: int, b: int| xs.contains(a) && xs.contains(b) && #[trigger] f(a) == #[trigger] f(b) implies a == b by {
            assert(symplectic_term(a as nat)[0] == symplectic_term(b as nat)[0]);
        }
    }
    assert(xs.map(f) =~= ys) by {
        assert forall|y: int| #[trigger] ys.contains(y) implies xs.map(f).contains(y) by {
            let i = lemma_marked_is_term(n, y);
            let p = f(i as int);
            assert(cs[p] == cs[y]);
            lemma_combinations_distinct(2 * n, 2, p, y);
            assert(xs.contains(i as int));
        }
        assert forall|y: int| #[trigger] xs.map(f).contains(y) implies ys.contains(y) by {
            let i = choose|i: int| xs.contains(i) && f(i) == y;
            let idx = lemma_symplectic_term_listed(n, i as nat);
        }
    }
    vstd::set_lib::lemma_map_size(xs, ys, f);
}

// ---------------------------------------------------------------------------
// Complements (Hodge star)
// ---------------------------------------------------------------------------

/// The indices below n that do not occur in `combo`, in increasing order.
pub open spec fn complement_spec(n: nat, combo: Seq<usize>) -> Seq<usize> {
    identity_seq(n).filter(|x: usize| !combo.contains(x))
}

/// The indices 0..n that do not occur in `combo`, in increasing order: the
/// index set of the Hodge dual of the basis form dx_combo.
pub fn complement(n: usize, combo: &[usize]) -> (c: Vec<usize>)
    ensures
        c@ == complement_spec(n as nat, combo@),
{
    let mut c: Vec<usize> = Vec::new();
    let mut x: usize = 0;
    while x < n
        invariant
            x <= n,
            c@ == identity_seq(x as nat).filter(|y: usize| !combo@.contains(y)),
        decreases n - x,
    {
        let mut found = false;
        let mut t: usize = 0;
        while t < combo.len()
            invariant
                t <= combo.len(),
                found == exists|a: int| 0 <= a < t && combo@[a] == x,
            decreases combo.len() - t,
        {
            if combo[t] == x {
                found = true;
            }
            t = t + 1;
        }
        proof {
            assert(identity_seq((x + 1) as nat).drop_last() =~= identity_seq(x as nat));
            assert(identity_seq((x + 1) as nat).last() == x);
            reveal(Seq::filter);
        }
        if !found {
            c.push(x);
        }
        x = x + 1;
    }
    c
}

/// The complement lists, in increasing order, exactly the indices below n that
/// do not occur in `combo`.
pub proof fn lemma_complement_facts(n: nat, combo: Seq<usize>)
    requires
        n <= usize::MAX + 1,
    ensures
        strictly_increasing(complement_spec(n, combo)),
        forall|k: int|
            0 <= k < complement_spec(n, combo).len() ==> #[trigger] complement_spec(n, combo)[k] < n
                && !combo.contains(complement_spec(n, combo)[k]),
        forall|x: usize| x < n && !combo.contains(x) ==> #[trigger] complement_spec(n, combo).contains(x),
    decreases n,
{
    reveal(Seq::filter);
    if n > 0 {
        let m = (n - 1) as nat;
        lemma_complement_facts(m, combo);
        assert(identity_seq(n).drop_last() =~= identity_seq(m));
        assert(identity_seq(n).last() == m as usize);
        let c0 = complement_spec(m, combo);
        let c = complement_spec(n, combo);
        if !combo.contains(m as usize) {
            assert(c == c0.push(m as usize));
            assert forall|x: usize| x < n && !combo.contains(x) implies #[trigger] c.contains(x) by {
                if x == m {
                    assert(c[c.len() - 1] == x);
                } else {
                    assert(c0.contains(x));
                    let k = choose|k: int| 0 <= k < c0.len() && c0[k] == x;
                    assert(c[k] == x);
                }
            }
        } else {
            assert(c == c0);
        }
    }
}

/// An increasing list of indices below n followed by its complement is a
/// permutation of {0, ..., n - 1}.
proof fn lemma_combo_complement_permutation(n: nat, combo: Seq<usize>)
    requires
        n <= usize::MAX + 1,
        strictly_increasing(combo),
        forall|k: int| 0 <= k < combo.len() ==> #[trigger] combo[k] < n,
    ensures
        is_permutation(combo + complement_spec(n, combo), n),
{
    let comp = complement_spec(n, combo);
    let full = combo + comp;
    lemma_complement_facts(n, combo);
    assert forall|k: int| 0 <= k < full.len() implies #[trigger] full[k] < n by {
        if k >= combo.len() {
            assert(full[k] == comp[k - combo.len()]);
        }
    }
    assert(full.no_duplicates()) by {
        assert forall|a: int, b: int| 0 <= a < full.len() && 0 <= b < full.len() && a != b implies full[a]
            != full[b] by {
            if a < combo.len() && b < combo.len() {
                if a < b {
                    assert(combo[a] < combo[b]);
                } else {
                    assert(combo[b] < combo[a]);
                }
            } else if a >= combo.len() && b >= combo.len() {
                let a1 = a - combo.len();
                let b1 = b - combo.len();
                if a1 < b1 {
                    assert(comp[a1] < comp[b1]);
                } else {
                    assert(comp[b1] < comp[a1]);
                }
            } else if a < combo.len() {
                assert(!combo.contains(comp[b - combo.len()]));
                assert(full[b] == comp[b - combo.len()]);
            } else {
                assert(!combo.contains(comp[a - combo.len()]));
                assert(full[a] == comp[a - combo.len()]);
            }
        }
    }
    let id = identity_seq(n);
    assert(id.no_duplicates());
    assert(full.to_set() =~= id.to_set()) by {
        assert forall|x: usize| full.contains(x) implies id.contains(x) by {
            let k = choose|k: int| 0 <= k < full.len() && full[k] == x;
            assert(id[x as int] == x);
        }
        assert forall|x: usize| id.contains(x) implies full.contains(x) by {
            let k = choose|k: int| 0 <= k < id.len() && id[k] == x;
            if combo.contains(x) {
                let j = choose|j: int| 0 <= j < combo.len() && combo[j] == x;
                assert(full[j] == x);
            } else {
                assert(comp.contains(x));
                let j = choose|j: int| 0 <= j < comp.len() && comp[j] == x;
                assert(full[combo.len() + j] == x);
            }
        }
    }
    full.unique_seq_to_set();
    id.unique_seq_to_set();
}

/// The sign of the shuffle that sorts combo ++ comp, comp the complement of
/// combo in {0, ..., n - 1}.
pub open spec fn hodge_sign_spec(n: nat, combo: Seq<usize>) -> i32 {
    sign_of_parity(inversions(combo + complement_spec(n, combo)))
}

/// The sign of the Hodge star on a basis form, for the standard metric on
/// R^n: *dx_combo = sign · dx_comp, comp the complement of combo, where sign
/// is that of the shuffle sorting combo ++ comp, so that dx_combo ∧ *dx_combo
/// is the volume form. It is computed as the parity of the permutation that
/// carries combo ++ comp to 0, 1, ..., n - 1.
pub fn hodge_sign(n: usize, combo: &[usize]) -> (sign: i32)
    requires
        strictly_increasing(combo@),
        forall|k: int| 0 <= k < combo.len() ==> #[trigger] combo[k] < n,
    ensures
        sign == hodge_sign_spec(n as nat, combo@),
{
    let comp = complement(n, combo);
    proof {
        lemma_combo_complement_permutation(n as nat, combo@);
    }
    let mut full: Vec<usize> = Vec::new();
    let mut t: usize = 0;
    while t < combo.len()
        invariant
            t <= combo.len(),
            full@ == combo@.take(t as int),
        decreases combo.len() - t,
    {
        full.push(combo[t]);
        t = t + 1;
        assert(full@ =~= combo@.take(t as int));
    }
    assert(combo@.take(combo.len() as int) =~= combo@);
    let mut t: usize = 0;
    while t < comp.len()
        invariant
            t <= comp.len(),
            full@ == combo@ + comp@.take(t as int),
        decreases comp.len() - t,
    {
        full.push(comp[t]);
        t = t + 1;
        assert(full@ =~= combo@ + comp@.take(t as int));
    }
    assert(comp@.take(comp.len() as int) =~= comp@);
    let mut identity: Vec<usize> = Vec::new();
    let mut x: usize = 0;
    while x < n
        invariant
            x <= n,
            identity@ == identity_seq(x as nat),
        decreases n - x,
    {
        identity.push(x);
        x = x + 1;
        assert(identity@ =~= identity_seq(x as nat));
    }
    proof {
        let id = identity_seq(n as nat);
        assert(is_permutation(id, n as nat)) by {
            assert forall|a: int, b: int| 0 <= a < id.len() && 0 <= b < id.len() && a != b implies id[a]
                != id[b] by {}
        }
        lemma_relative_parity(full@, id);
        lemma_identity_is_even(n as nat);
        lemma_even_iff_even_inversions(full@);
    }
    if is_even_permutation_from(&full, &identity) {
        1
    } else {
        -1
    }
}

/// Applying the Hodge star twice to a basis k-form on R^n gives back the form
/// times (-1)^(k(n-k)): the complement of the complement is the form's own
/// index set, it has n - k indices, and the two signs multiply to
/// (-1)^(k(n-k)).
pub proof fn lemma_hodge_sign_involution(n: nat, combo: Seq<usize>)
    requires
        n <= usize::MAX + 1,
        strictly_increasing(combo),
        forall|k: int| 0 <= k < combo.len() ==> #[trigger] combo[k] < n,
    ensures
        complement_spec(n, complement_spec(n, combo)) == combo,
        complement_spec(n, combo).len() + combo.len() == n,
        strictly_increasing(complement_spec(n, combo)),
        forall|k: int|
            0 <= k < complement_spec(n, combo).len() ==> #[trigger] complement_spec(n, combo)[k] < n,
        hodge_sign_spec(n, combo) * hodge_sign_spec(n, complement_spec(n, combo)) == sign_of_parity(
            combo.len() * complement_spec(n, combo).len(),
        ),
{
    let c = complement_spec(n, combo);
    lemma_complement_facts(n, combo);
    lemma_complement_facts(n, c);
    lemma_combo_complement_permutation(n, combo);
    let cc = complement_spec(n, c);
    assert forall|x: usize| cc.contains(x) <==> combo.contains(x) by {
        if cc.contains(x) {
            let k = choose|k: int| 0 <= k < cc.len() && cc[k] == x;
            assert(!c.contains(x));
        }
        if combo.contains(x) {
            let k = choose|k: int| 0 <= k < combo.len() && combo[k] == x;
            assert(x < n);
            if c.contains(x) {
                let j = choose|j: int| 0 <= j < c.len() && c[j] == x;
                assert(!combo.contains(c[j]));
            }
        }
    }
    lemma_increasing_same_entries(cc, combo);
    assert forall|k: int| 0 <= k < c.len() implies !combo.contains(#[trigger] c[k]) by {}
    lemma_shuffle_sign_anticommutes(combo, c);
}

// ---------------------------------------------------------------------------
// Where a basis wedge dx_K ∧ dx_L lands
// ---------------------------------------------------------------------------

/// Two strictly increasing sequences with the same entries are equal.
proof fn lemma_increasing_same_entries(a: Seq<usize>, b: Seq<usize>)
    requires
        strictly_increasing(a),
        strictly_increasing(b),
        forall|x: usize| a.contains(x) <==> b.contains(x),
    ensures
        a == b,
    decreases a.len(),
{
    if a.len() == 0 {
        if b.len() > 0 {
            assert(b.contains(b[0]));
        }
        assert(a =~= b);
    } else {
        assert(a.contains(a[0]));
        assert(b.len() > 0);
        assert(b.contains(b[0]));
        let ka = choose|k: int| 0 <= k < a.len() && a[k] == b[0];
        let kb = choose|k: int| 0 <= k < b.len() && b[k] == a[0];
        if ka > 0 {
            assert(a[0] < a[ka]);
        }
        if kb > 0 {
            assert(b[0] < b[kb]);
        }
        assert(a[0] == b[0]);
        let a1 = a.drop_first();
        let b1 = b.drop_first();
        assert forall|x: usize| a1.contains(x) <==> b1.contains(x) by {
            if a1.contains(x) {
                let k = choose|k: int| 0 <= k < a1.len() && a1[k] == x;
                assert(a[k + 1] == x);
                assert(a[0] < a[k + 1]);
                assert(b.contains(x));
                let k2 = choose|k2: int| 0 <= k2 < b.len() && b[k2] == x;
                assert(k2 != 0);
                assert(b1[k2 - 1] == x);
            }
            if b1.contains(x) {
                let k = choose|k: int| 0 <= k < b1.len() && b1[k] == x;
                assert(b[k + 1] == x);
                assert(b[0] < b[k + 1]);
                assert(a.contains(x));
                let k2 = choose|k2: int| 0 <= k2 < a.len() && a[k2] == x;
                assert(k2 != 0);
                assert(a1[k2 - 1] == x);
            }
        }
        lemma_increasing_same_entries(a1, b1);
        assert(a =~= seq![a[0]] + a1);
        assert(b =~= seq![b[0]] + b1);
    }
}

/// The strictly increasing arrangement of the entries of p is unique.
proof fn lemma_increasing_arrangement_unique(p: Seq<usize>, a: Seq<usize>, b: Seq<usize>)
    requires
        strictly_increasing(a),
        strictly_increasing(b),
        is_arrangement_of(p, a),
        is_arrangement_of(p, b),
    ensures
        a == b,
{
    assert forall|x: usize| a.contains(x) <==> b.contains(x) by {
        if a.contains(x) {
            let k = choose|k: int| 0 <= k < a.len() && a[k] == x;
            lemma_arrangement_covers(p, a, k);
            let q = choose|q: int| 0 <= q < p.len() && p[q] == x;
            assert(b.contains(p[q]));
        }
        if b.contains(x) {
            let k = choose|k: int| 0 <= k < b.len() && b[k] == x;
            lemma_arrangement_covers(p, b, k);
            let q = choose|q: int| 0 <= q < p.len() && p[q] == x;
            assert(a.contains(p[q]));
        }
    }
    lemma_increasing_same_entries(a, b);
}

/// m is the strictly increasing arrangement of the entries of p.
pub open spec fn is_sorted_arrangement(p: Seq<usize>, m: Seq<usize>) -> bool {
    strictly_increasing(m) && is_arrangement_of(p, m)
}

/// Merges two strictly increasing lists into one, or reports a shared entry.
fn merge_increasing(k_combo: &[usize], l_combo: &[usize]) -> (m: Option<Vec<usize>>)
    requires
        strictly_increasing(k_combo@),
        strictly_increasing(l_combo@),
    ensures
        match m {
            Some(v) => is_sorted_arrangement(k_combo@ + l_combo@, v@),
            None => !(k_combo@ + l_combo@).no_duplicates(),
        },
{
    let ghost k = k_combo@;
    let ghost l = l_combo@;
    let mut m: Vec<usize> = Vec::new();
    let mut i: usize = 0;
    let mut j: usize = 0;
    while i < k_combo.len() || j < l_combo.len()
        invariant
            k == k_combo@,
            l == l_combo@,
            strictly_increasing(k),
            strictly_increasing(l),
            i <= k.len(),
            j <= l.len(),
            forall|p: int, q: int| 0 <= p < i && 0 <= q < j ==> k[p] != l[q],
            i < k.len() ==> forall|q: int| 0 <= q < j ==> l[q] < k[i as int],
            j < l.len() ==> forall|p: int| 0 <= p < i ==> k[p] < l[j as int],
            m@.len() == i + j,
            strictly_increasing(m@),
            i < k.len() ==> forall|t: int| 0 <= t < m@.len() ==> m@[t] < k[i as int],
            j < l.len() ==> forall|t: int| 0 <= t < m@.len() ==> m@[t] < l[j as int],
            forall|t: int| 0 <= t < m@.len() ==> (k.take(i as int).contains(#[trigger] m@[t])
                || l.take(j as int).contains(m@[t])),
            forall|p: int| 0 <= p < i ==> m@.contains(#[trigger] k[p]),
            forall|q: int| 0 <= q < j ==> m@.contains(#[trigger] l[q]),
        decreases k.len() + l.len() - i - j,
    {
        let ghost m0 = m@;
        let take_k: bool;
        if i < k_combo.len() && j < l_combo.len() {
            if k_combo[i] == l_combo[j] {
                proof {
                    let kl = k + l;
                    assert(kl[i as int] == kl[k.len() + j]);
                }
                return None;
            }
            take_k = k_combo[i] < l_combo[j];
        } else {
            take_k = i < k_combo.len();
        }
        if take_k {
            let x = k_combo[i];
            m.push(x);
            proof {
                assert(m@[m0.len() as int] == x);
                assert(k.take(i + 1)[i as int] == x);
                assert forall|t: int| 0 <= t < m@.len() implies (k.take(i + 1).contains(#[trigger] m@[t])
                    || l.take(j as int).contains(m@[t])) by {
                    if t < m0.len() {
                        if k.take(i as int).contains(m0[t]) {
                            let z = choose|z: int| 0 <= z < i && k.take(i as int)[z] == m0[t];
                            assert(k.take(i + 1)[z] == m0[t]);
                        }
                    }
                }
                assert forall|p: int| 0 <= p < i + 1 implies m@.contains(#[trigger] k[p]) by {
                    if p < i {
                        let z = choose|z: int| 0 <= z < m0.len() && m0[z] == k[p];
                        assert(m@[z] == k[p]);
                    }
                }
                assert forall|q: int| 0 <= q < j implies m@.contains(#[trigger] l[q]) by {
                    let z = choose|z: int| 0 <= z < m0.len() && m0[z] == l[q];
                    assert(m@[z] == l[q]);
                }
                if i + 1 < k.len() {
                    assert(k[i as int] < k[i + 1]);
                }
            }
            i = i + 1;
        } else {
            let x = l_combo[j];
            m.push(x);
            proof {
                assert(m@[m0.len() as int] == x);
                assert(l.take(j + 1)[j as int] == x);
                assert forall|t: int| 0 <= t < m@.len() implies (k.take(i as int).contains(#[trigger] m@[t])
                    || l.take(j + 1).contains(m@[t])) by {
                    if t < m0.len() {
                        if l.take(j as int).contains(m0[t]) {
                            let z = choose|z: int| 0 <= z < j && l.take(j as int)[z] == m0[t];
                            assert(l.take(j + 1)[z] == m0[t]);
                        }
                    }
                }
                assert forall|p: int| 0 <= p < i implies m@.contains(#[trigger] k[p]) by {
                    let z = choose|z: int| 0 <= z < m0.len() && m0[z] == k[p];
                    assert(m@[z] == k[p]);
                }
                assert forall|q: int| 0 <= q < j + 1 implies m@.contains(#[trigger] l[q]) by {
                    if q < j {
                        let z = choose|z: int| 0 <= z < m0.len() && m0[z] == l[q];
                        assert(m@[z] == l[q]);
                    }
                }
                if j + 1 < l.len() {
                    assert(l[j as int] < l[j + 1]);
                }
            }
            j = j + 1;
        }
    }
    proof {
        let kl = k + l;
        assert(k.take(k.len() as int) =~= k);
        assert(l.take(l.len() as int) =~= l);
        assert forall|a: int, b: int| 0 <= a < kl.len() && 0 <= b < kl.len() && a != b implies kl[a]
            != kl[b] by {
            if a < k.len() && b < k.len() {
                if a < b {
                    assert(k[a] < k[b]);
                } else {
                    assert(k[b] < k[a]);
                }
            } else if a >= k.len() && b >= k.len() {
                if a < b {
                    assert(l[a - k.len()] < l[b - k.len()]);
                } else {
                    assert(l[b - k.len()] < l[a - k.len()]);
                }
            } else if a < k.len() {
                assert(k[a] != l[b - k.len()]);
            } else {
                assert(k[b] != l[a - k.len()]);
            }
        }
        assert forall|t: int| 0 <= t < kl.len() implies m@.contains(#[trigger] kl[t]) by {
            if t < k.len() {
                assert(m@.contains(k[t]));
            } else {
                assert(m@.contains(l[t - k.len()]));
            }
        }
    }
    Some(m)
}

/// Whether two slices hold the same entries in the same order.
fn same_indices(a: &[usize], b: &[usize]) -> (same: bool)
    ensures
        same == (a@ == b@),
{
    if a.len() != b.len() {
        return false;
    }
    let mut t: usize = 0;
    while t < a.len()
        invariant
            a.len() == b.len(),
            t <= a.len(),
            forall|u: int| 0 <= u < t ==> a@[u] == b@[u],
        decreases a.len() - t,
    {
        if a[t] != b[t] {
            return false;
        }
        t = t + 1;
    }
    assert(a@ =~= b@);
    true
}

/// `res` says where the wedge of the basis forms dx_k and dx_l lands among the
/// index lists `rs`: `None` when k and l share an index or no list of `rs` is
/// the increasing arrangement of k ++ l; otherwise the first position of that
/// arrangement in `rs` and the sign of the shuffle that sorts k ++ l.
pub open spec fn wedge_lands(k: Seq<usize>, l: Seq<usize>, rs: Seq<Seq<usize>>, res: Option<(usize, i32)>) -> bool {
    match res {
        Some((ri, sign)) => {
            &&& ri < rs.len()
            &&& is_sorted_arrangement(k + l, rs[ri as int])
            &&& forall|q: int| 0 <= q < ri ==> !is_sorted_arrangement(k + l, #[trigger] rs[q])
            &&& sign == sign_of_parity(inversions(k + l))
        },
        None => !(k + l).no_duplicates() || forall|q: int|
            0 <= q < rs.len() ==> !is_sorted_arrangement(k + l, #[trigger] rs[q]),
    }
}

/// Where the wedge of the basis forms dx_K and dx_L lands among the basis
/// (k+l)-forms listed in `r_indices`: `None` when K and L share an index (the
/// wedge vanishes) or the increasing arrangement of K ++ L is not listed;
/// otherwise the first position at which it is listed and the sign of the
/// shuffle that sorts K ++ L.
pub fn wedge_index(k_combo: &[usize], l_combo: &[usize], r_indices: &Vec<Vec<usize>>) -> (res: Option<(usize, i32)>)
    requires
        strictly_increasing(k_combo@),
        strictly_increasing(l_combo@),
    ensures
        wedge_lands(k_combo@, l_combo@, r_indices@.map_values(|v: Vec<usize>| v@), res),
{
    let merged = match merge_increasing(k_combo, l_combo) {
        Some(m) => m,
        None => {
            return None;
        },
    };
    let ghost kl = k_combo@ + l_combo@;
    let mut q: usize = 0;
    while q < r_indices.len()
        invariant
            is_sorted_arrangement(kl, merged@),
            kl == k_combo@ + l_combo@,
            q <= r_indices@.len(),
            forall|u: int| 0 <= u < q ==> !is_sorted_arrangement(kl, #[trigger] r_indices@[u]@),
        decreases r_indices.len() - q,
    {
        if same_indices(&r_indices[q], &merged) {
            let sign = shuffle_sign(k_combo, l_combo, &merged);
            return Some((q, sign));
        }
        proof {
            if is_sorted_arrangement(kl, r_indices@[q as int]@) {
                lemma_increasing_arrangement_unique(kl, r_indices@[q as int]@, merged@);
            }
        }
        q = q + 1;
    }
    None
}

/// Swapping the two halves of a concatenation keeps its entries, and keeps it
/// free of repeated entries.
proof fn lemma_concat_swap(a: Seq<usize>, b: Seq<usize>)
    ensures
        forall|x: usize| (a + b).contains(x) <==> (b + a).contains(x),
        (a + b).no_duplicates() ==> (b + a).no_duplicates(),
{
    let ab = a + b;
    let ba = b + a;
    assert forall|x: usize| ab.contains(x) <==> ba.contains(x) by {
        if ab.contains(x) {
            let i = choose|i: int| 0 <= i < ab.len() && ab[i] == x;
            if i < a.len() {
                assert(ba[b.len() + i] == x);
            } else {
                assert(ba[i - a.len()] == x);
            }
        }
        if ba.contains(x) {
            let i = choose|i: int| 0 <= i < ba.len() && ba[i] == x;
            if i < b.len() {
                assert(ab[a.len() + i] == x);
            } else {
                assert(ab[i - b.len()] == x);
            }
        }
    }
    if ab.no_duplicates() {
        assert forall|i: int, j: int| 0 <= i < ba.len() && 0 <= j < ba.len() && i != j implies ba[i] != ba[j] by {
            let fi = if i < b.len() { a.len() + i } else { i - b.len() };
            let fj = if j < b.len() { a.len() + j } else { j - b.len() };
            assert(ba[i] == ab[fi]);
            assert(ba[j] == ab[fj]);
        }
    }
}

proof fn lemma_sorted_arrangement_swap(a: Seq<usize>, b: Seq<usize>, m: Seq<usize>)
    ensures
        is_sorted_arrangement(a + b, m) <==> is_sorted_arrangement(b + a, m),
{
    lemma_concat_swap(a, b);
    lemma_concat_swap(b, a);
    let ab = a + b;
    let ba = b + a;
    if is_sorted_arrangement(ab, m) {
        assert forall|j: int| 0 <= j < ba.len() implies m.contains(#[trigger] ba[j]) by {
            assert(ba.contains(ba[j]));
            let i = choose|i: int| 0 <= i < ab.len() && ab[i] == ba[j];
        }
    }
    if is_sorted_arrangement(ba, m) {
        assert forall|j: int| 0 <= j < ab.len() implies m.contains(#[trigger] ab[j]) by {
            assert(ab.contains(ab[j]));
            let i = choose|i: int| 0 <= i < ba.len() && ba[i] == ab[j];
        }
    }
}

/// Graded anticommutativity of the wedge product of basis forms: dx_b ∧ dx_a
/// lands where dx_a ∧ dx_b lands, with the sign multiplied by (-1)^(|a|·|b|);
/// and one of them vanishes (or is not listed) exactly when the other does.
pub proof fn lemma_wedge_index_anticommutes(
    a: Seq<usize>,
    b: Seq<usize>,
    rs: Seq<Seq<usize>>,
    res_ab: Option<(usize, i32)>,
    res_ba: Option<(usize, i32)>,
)
    requires
        strictly_increasing(a),
        strictly_increasing(b),
        wedge_lands(a, b, rs, res_ab),
        wedge_lands(b, a, rs, res_ba),
    ensures
        match (res_ab, res_ba) {
            (Some((i1, s1)), Some((i2, s2))) => i1 == i2 && s2 == s1 * sign_of_parity(a.len() * b.len()),
            (None, None) => true,
            _ => false,
        },
{
    lemma_concat_swap(a, b);
    lemma_concat_swap(b, a);
    assert forall|m: Seq<usize>| is_sorted_arrangement(a + b, m) <==> is_sorted_arrangement(b + a, m) by {
        lemma_sorted_arrangement_swap(a, b, m);
    }
    match (res_ab, res_ba) {
        (Some((i1, s1)), Some((i2, s2))) => {
            if i2 < i1 {
                assert(is_sorted_arrangement(b + a, rs[i2 as int]));
            }
            if i1 < i2 {
                assert(is_sorted_arrangement(a + b, rs[i1 as int]));
            }
            let ab = a + b;
            assert forall|k: int| 0 <= k < b.len() implies !a.contains(#[trigger] b[k]) by {
                if a.contains(b[k]) {
                    let i = choose|i: int| 0 <= i < a.len() && a[i] == b[k];
                    assert(ab[i] == ab[a.len() + k]);
                }
            }
            lemma_shuffle_sign_anticommutes(a, b);
        },
        (Some((i1, s1)), None) => {
            assert(is_sorted_arrangement(b + a, rs[i1 as int]));
        },
        (None, Some((i2, s2))) => {
            assert(is_sorted_arrangement(a + b, rs[i2 as int]));
        },
        (None, None) => {},
    }
}

} // verus!
