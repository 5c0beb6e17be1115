# lau_differential_topology

Differential topology in Rust: smooth manifolds, tangent bundles, differential
forms, Stokes' theorem, transversality, degree theory and the Euler
characteristic via Poincaré–Hopf.

The crate is in two parts.

* `src/` is a library verified with Verus. It holds the exact, discrete side
  of the subject:
  * `differential_form` — binomial coefficients (the number of components of
    a k-form), the lexicographic list of k-combinations that indexes those
    components, permutations in lexicographic order, permutation parity by
    cycle counting, inversion counts and shuffle signs of the wedge product,
    where a basis wedge lands, Hodge complements and the sign of the Hodge
    star, the index pairs of the symplectic form. Proved laws include: the k-combinations are exactly the
    C(n, k) increasing k-tuples, in lexicographic order; the permutations of
    n are exactly the n! arrangements, in lexicographic order; a swap changes
    the parity of the inversion count; the parity by cycles is the parity of
    the inversion count, and it is multiplicative under composition; the
    identity is even and a transposition odd; basis wedges anticommute: the
    two orders land at the same index with signs differing by (-1)^(k·l); the
    Hodge star applied twice to a basis k-form gives the sign (-1)^(k(n-k)).
  * `euler` — Euler characteristics of spheres, surfaces, triangulations, CW
    complexes and Morse counts, and the Poincaré–Hopf sum of indices.
  * `degree` — degrees of the identity, reflection and antipodal maps, and the
    homotopy-invariance check.
  * `vector_field`, `agent_dynamics` — the classification rules for
    equilibria and flows, and the grouping of agents into clusters, listed in
    depth-first order and proved to be the connected components of a
    symmetric closeness relation.
  * `smooth_manifold`, `tangent`, `transversality` — charts, finding the
    transitions between two charts of an atlas, the dimension of
    a tangent bundle, the dimension count of a transverse intersection.
* `app/` is ordinary Rust on top of the library and `nalgebra`: everything
  that computes with floating-point numbers (vector fields, integral curves,
  numerical integration, determinants, eigenvalues, ranks), plus the
  serde-enabled data types. It calls the library for all index bookkeeping
  and classification rules.

`tests/` exercises the verified library.
