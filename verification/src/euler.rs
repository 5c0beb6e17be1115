//! Euler characteristics: standard spaces, cell decompositions, Morse counts,
//! and the Poincaré–Hopf sum of indices.
use vstd::prelude::*;

verus! {

/// (-1)^k counts[k], with the count read as an `i32`.
pub open spec fn signed_count(counts: Seq<usize>, k: int) -> int {
    if k % 2 == 0 {
        (counts[k] as i32) as int
    } else {
        -((counts[k] as i32) as int)
    }
}

/// Σ_k (-1)^k counts[k]: the alternating sum of a sequence of cell counts,
/// each read as an `i32`.
pub open spec fn alternating_sum(counts: Seq<usize>) -> int
    decreases counts.len(),
{
    if counts.len() == 0 {
        0
    } else {
        alternating_sum(counts.drop_last()) + signed_count(counts, counts.len() - 1)
    }
}

/// Every signed term and every partial alternating sum fits in an `i32`.
pub open spec fn alternating_sum_fits(counts: Seq<usize>) -> bool {
    &&& forall|i: int| 0 <= i < counts.len() && i % 2 == 1 ==> (#[trigger] counts[i] as i32) != i32::MIN
    &&& forall|i: int|
        0 <= i <= counts.len() ==> i32::MIN <= #[trigger] alternating_sum(counts.take(i))
            <= i32::MAX
}

/// Σ values[i]: the plain sum of a sequence of integers.
pub open spec fn index_sum(values: Seq<i32>) -> int
    decreases values.len(),
{
    if values.len() == 0 {
        0
    } else {
        index_sum(values.drop_last()) + values.last() as int
    }
}

/// Every partial sum fits in an `i32`.
pub open spec fn index_sum_fits(values: Seq<i32>) -> bool {
    forall|i: int|
        0 <= i <= values.len() ==> i32::MIN <= #[trigger] index_sum(values.take(i)) <= i32::MAX
}

/// χ(Sⁿ): 2 when n is even, 0 when n is odd.
pub fn euler_characteristic_sphere(n: usize) -> (chi: i32)
    ensures
        chi == (if n % 2 == 0 { 2int } else { 0int }),
{
    if n % 2 == 0 {
        2
    } else {
        0
    }
}

/// χ(T²) = 0.
pub fn euler_characteristic_torus() -> (chi: i32)
    ensures
        chi == 0,
{
    0
}

/// χ(RP²) = 1.
pub fn euler_characteristic_projective_plane() -> (chi: i32)
    ensures
        chi == 1,
{
    1
}

/// χ of the Klein bottle is 0.
pub fn euler_characteristic_klein_bottle() -> (chi: i32)
    ensures
        chi == 0,
{
    0
}

/// χ of the orientable closed surface of genus g: 2 - 2g, with g read as an `i32`.
pub fn euler_characteristic_surface_genus(g: usize) -> (chi: i32)
    requires
        i32::MIN <= 2 * (g as i32) <= i32::MAX,
        i32::MIN <= 2 - 2 * (g as i32) <= i32::MAX,
    ensures
        chi == 2 - 2 * (g as i32),
        g <= i32::MAX ==> chi == 2 - 2 * g,
{
    2 - 2 * (g as i32)
}

/// χ = V - E + F for a 2-dimensional cell complex, each count read as an `i32`.
pub fn euler_characteristic_from_triangulation(
    num_vertices: usize,
    num_edges: usize,
    num_faces: usize,
) -> (chi: i32)
    requires
        i32::MIN <= (num_vertices as i32) - (num_edges as i32) <= i32::MAX,
        i32::MIN <= (num_vertices as i32) - (num_edges as i32) + (num_faces as i32) <= i32::MAX,
    ensures
        chi == (num_vertices as i32) - (num_edges as i32) + (num_faces as i32),
        num_vertices <= i32::MAX && num_edges <= i32::MAX && num_faces <= i32::MAX ==> chi
            == num_vertices - num_edges + num_faces,
{
    num_vertices as i32 - num_edges as i32 + num_faces as i32
}

/// Alternating sum over a slice of counts, shared by the CW and Morse formulas.
fn alternating_count_sum(counts: &[usize]) -> (chi: i32)
    requires
        alternating_sum_fits(counts@),
    ensures
        chi == alternating_sum(counts@),
{
    let mut total: i32 = 0;
    let mut k: usize = 0;
    while k < counts.len()
        invariant
            k <= counts.len(),
            alternating_sum_fits(counts@),
            total == alternating_sum(counts@.take(k as int)),
        decreases counts.len() - k,
    {
        let c = counts[k] as i32;
        assert(counts@.take(k as int + 1).drop_last() =~= counts@.take(k as int));
        assert(counts@.take(k as int + 1)[k as int] == counts@[k as int]);
        assert(i32::MIN <= alternating_sum(counts@.take(k as int + 1)) <= i32::MAX);
        if k % 2 == 0 {
            total = total + c;
        } else {
            assert(c != i32::MIN);
            total = total + (-c);
        }
        k = k + 1;
    }
    assert(counts@.take(counts.len() as int) =~= counts@);
    total
}

/// χ of a CW complex: Σ (-1)^k n_k, where n_k is the number of k-cells.
pub fn euler_characteristic_cw(cell_counts: &[usize]) -> (chi: i32)
    requires
        alternating_sum_fits(cell_counts@),
    ensures
        chi == alternating_sum(cell_counts@),
{
    alternating_count_sum(cell_counts)
}

/// χ by Morse theory: Σ (-1)^k m_k, where m_k is the number of critical points of index k.
pub fn euler_characteristic_morse(critical_point_counts: &[usize]) -> (chi: i32)
    requires
        alternating_sum_fits(critical_point_counts@),
    ensures
        chi == alternating_sum(critical_point_counts@),
{
    alternating_count_sum(critical_point_counts)
}

/// ∫ e(TM) = χ(M): the integral of the Euler class is the Euler characteristic.
pub fn euler_class_integral(euler_characteristic: i32) -> (integral: i32)
    ensures
        integral == euler_characteristic,
{
    euler_characteristic
}

/// Poincaré–Hopf: χ(M) is the sum of the indices of the isolated zeros of a vector field.
pub fn sum_of_indices(indices: &[i32]) -> (chi: i32)
    requires
        index_sum_fits(indices@),
    ensures
        chi == index_sum(indices@),
{
    let mut total: i32 = 0;
    let mut k: usize = 0;
    while k < indices.len()
        invariant
            k <= indices.len(),
            index_sum_fits(indices@),
            total == index_sum(indices@.take(k as int)),
        decreases indices.len() - k,
    {
        assert(indices@.take(k as int + 1).drop_last() =~= indices@.take(k as int));
        assert(i32::MIN <= index_sum(indices@.take(k as int + 1)) <= i32::MAX);
        total = total + indices[k];
        k = k + 1;
    }
    assert(indices@.take(indices.len() as int) =~= indices@);
    total
}

/// Poincaré–Hopf on S²: the height field has a source and a sink, each of index +1,
/// and their sum is χ(S²).
pub fn verify_poincare_hopf_sphere() -> (holds: bool)
    ensures
        holds,
{
    let index_north: i32 = 1;
    let index_south: i32 = 1;
    let chi = index_north + index_south;
    chi == euler_characteristic_sphere(2)
}

/// Poincaré–Hopf on T²: a nowhere-zero field has no indices to sum, and χ(T²) = 0.
pub fn verify_poincare_hopf_torus() -> (holds: bool)
    ensures
        holds,
{
    let chi = euler_characteristic_torus();
    0 == chi
}

/// The triangulation count V - E + F is the CW count of a 2-complex with V
/// vertices, E edges and F faces.
pub proof fn lemma_triangulation_is_cw(v: usize, e: usize, f: usize)
    ensures
        alternating_sum(seq![v, e, f]) == (v as i32) - (e as i32) + (f as i32),
{
    let s = seq![v, e, f];
    assert(s.drop_last() =~= seq![v, e]);
    assert(s.drop_last().drop_last() =~= seq![v]);
    assert(s.drop_last().drop_last().drop_last() =~= Seq::<usize>::empty());
    assert(alternating_sum(Seq::<usize>::empty()) == 0);
    assert(alternating_sum(seq![v]) == v as i32);
    assert(alternating_sum(seq![v, e]) == (v as i32) - (e as i32));
}

/// The orientable surface of genus g has a CW structure with one vertex, 2g
/// edges and one face, whose count agrees with 2 - 2g.
pub proof fn lemma_genus_is_cw(g: usize)
    requires
        2 * g <= i32::MAX,
    ensures
        alternating_sum(seq![1usize, (2 * g) as usize, 1usize]) == 2 - 2 * g,
{
    lemma_triangulation_is_cw(1, (2 * g) as usize, 1);
}

/// χ(Sⁿ) = 1 + (-1)ⁿ.
pub proof fn lemma_sphere_characteristic(n: nat)
    ensures
        (if n % 2 == 0 { 2int } else { 0int }) == 1 + vstd::arithmetic::power::pow(-1, n),
{
    crate::degree::lemma_pow_minus_one(n);
}

/// The alternating sum of a concatenation: the cells of `b` come after those
/// of `a`, so their signs flip when `a` has an odd number of entries.
pub proof fn lemma_alternating_sum_concat(a: Seq<usize>, b: Seq<usize>)
    ensures
        alternating_sum(a + b) == alternating_sum(a) + if a.len() % 2 == 0 {
            alternating_sum(b)
        } else {
            -alternating_sum(b)
        },
    decreases b.len(),
{
    if b.len() == 0 {
        assert(a + b =~= a);
        assert(alternating_sum(b) == 0);
    } else {
        let b0 = b.drop_last();
        assert((a + b).drop_last() =~= a + b0);
        lemma_alternating_sum_concat(a, b0);
        let m = b.len() - 1;
        assert((a + b)[a.len() + m] == b[m]);
        assert((a.len() + m) % 2 == 0 <==> (a.len() % 2 == 0 <==> m % 2 == 0));
    }
}

/// Each count enters the alternating sum with the sign (-1)^k of its
/// dimension k: a single count c gives c, and a count appended after k others
/// adds (-1)^k c.
pub proof fn lemma_alternating_sum_terms(counts: Seq<usize>, c: usize)
    ensures
        alternating_sum(seq![c]) == c as i32,
        alternating_sum(counts.push(c)) == alternating_sum(counts) + if counts.len() % 2 == 0 {
            (c as i32) as int
        } else {
            -((c as i32) as int)
        },
{
    let single = seq![c];
    assert(single.drop_last() =~= Seq::<usize>::empty());
    assert(alternating_sum(single.drop_last()) == 0);
    assert(counts.push(c) =~= counts + single);
    lemma_alternating_sum_concat(counts, single);
}

/// The Poincaré–Hopf sum is additive: the indices of two disjoint sets of
/// zeros add up, and a single zero contributes its own index.
pub proof fn lemma_index_sum_additive(a: Seq<i32>, b: Seq<i32>)
    ensures
        index_sum(a + b) == index_sum(a) + index_sum(b),
        forall|x: i32| #[trigger] index_sum(seq![x]) == x,
    decreases b.len(),
{
    assert forall|x: i32| #[trigger] index_sum(seq![x]) == x by {
        assert(seq![x].drop_last() =~= Seq::<i32>::empty());
        assert(index_sum(seq![x].drop_last()) == 0);
    }
    if b.len() == 0 {
        assert(a + b =~= a);
    } else {
        assert((a + b).drop_last() =~= a + b.drop_last());
        lemma_index_sum_additive(a, b.drop_last());
    }
}

} // verus!
