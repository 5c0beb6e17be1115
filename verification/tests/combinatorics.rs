use lau_differential_topology::differential_form::{
    binomial, checked_binomial, complement, hodge_sign, is_even_permutation,
    is_even_permutation_from, k_combinations, permutations, shuffle_sign, symplectic_pairs, wedge_index,
};

#[test]
fn binomial_values() {
    assert_eq!(binomial(5, 2), 10);
    assert_eq!(binomial(5, 3), 10);
    assert_eq!(binomial(4, 0), 1);
    assert_eq!(binomial(4, 4), 1);
    assert_eq!(binomial(3, 5), 0);
    assert_eq!(binomial(10, 5), 252);
    assert_eq!(binomial(0, 0), 1);
}

#[test]
fn checked_binomial_overflow() {
    assert_eq!(checked_binomial(6, 3), Some(20));
    assert_eq!(checked_binomial(2, 7), Some(0));
    assert_eq!(checked_binomial(70, 35), None);
    assert_eq!(checked_binomial(64, 1), Some(64));
}

#[test]
fn k_combinations_lexicographic() {
    assert_eq!(
        k_combinations(3, 2),
        vec![vec![0, 1], vec![0, 2], vec![1, 2]]
    );
    assert_eq!(
        k_combinations(4, 2),
        vec![vec![0, 1], vec![0, 2], vec![0, 3], vec![1, 2], vec![1, 3], vec![2, 3]]
    );
    assert_eq!(k_combinations(3, 3), vec![vec![0, 1, 2]]);
    assert_eq!(k_combinations(3, 0), vec![Vec::<usize>::new()]);
    assert!(k_combinations(2, 3).is_empty());
    assert_eq!(k_combinations(5, 3).len(), binomial(5, 3));
}

#[test]
fn permutations_lexicographic() {
    assert_eq!(
        permutations(3),
        vec![
            vec![0, 1, 2],
            vec![0, 2, 1],
            vec![1, 0, 2],
            vec![1, 2, 0],
            vec![2, 0, 1],
            vec![2, 1, 0],
        ]
    );
    assert_eq!(permutations(0), vec![Vec::<usize>::new()]);
    assert_eq!(permutations(4).len(), 24);
}

#[test]
fn permutation_parity() {
    assert!(is_even_permutation(&[0, 1, 2]));
    assert!(!is_even_permutation(&[1, 0, 2]));
    assert!(is_even_permutation(&[1, 2, 0]));
    assert!(!is_even_permutation(&[2, 1, 0]));
    assert!(is_even_permutation(&[]));
    assert!(is_even_permutation(&[1, 0, 3, 2]));
    let evens = permutations(4).iter().filter(|p| is_even_permutation(p)).count();
    assert_eq!(evens, 12);
}

#[test]
fn permutation_parity_of_maps_that_are_not_bijections() {
    // cycles counted: 0 starts one, 1 is not on the orbit of 0
    assert!(is_even_permutation(&[0, 0]));
    // 0 -> 1 -> 1: one start, so 2 - 1 is odd
    assert!(!is_even_permutation(&[1, 1]));
}

#[test]
fn relative_permutation_parity() {
    // (k_combo, complement) = ([1], [0, 2]) against the identity: one transposition
    assert!(!is_even_permutation_from(&[1, 0, 2], &[0, 1, 2]));
    assert!(is_even_permutation_from(&[0, 1, 2], &[0, 1, 2]));
    assert!(is_even_permutation_from(&[2, 0, 1], &[0, 1, 2]));
}

#[test]
fn complement_indices() {
    assert_eq!(complement(3, &[0]), vec![1, 2]);
    assert_eq!(complement(4, &[1, 3]), vec![0, 2]);
    assert_eq!(complement(2, &[0, 1]), Vec::<usize>::new());
    assert_eq!(complement(3, &[]), vec![0, 1, 2]);
}

#[test]
fn shuffle_signs_of_basis_wedges() {
    // dx0 ∧ dx1 and dx1 ∧ dx0
    assert_eq!(shuffle_sign(&[0], &[1], &[0, 1]), 1);
    assert_eq!(shuffle_sign(&[1], &[0], &[0, 1]), -1);
    // dx0 ∧ (dx1 ∧ dx2) = dx0 ∧ dx1 ∧ dx2
    assert_eq!(shuffle_sign(&[0], &[1, 2], &[0, 1, 2]), 1);
    // dx1 ∧ (dx0 ∧ dx2) = -dx0 ∧ dx1 ∧ dx2
    assert_eq!(shuffle_sign(&[1], &[0, 2], &[0, 1, 2]), -1);
    // (dx1 ∧ dx3) ∧ (dx0 ∧ dx2): three inversions
    assert_eq!(shuffle_sign(&[1, 3], &[0, 2], &[0, 1, 2, 3]), -1);
    // (dx0 ∧ dx2) ∧ (dx1 ∧ dx3): one inversion
    assert_eq!(shuffle_sign(&[0, 2], &[1, 3], &[0, 1, 2, 3]), -1);
    // 2-forms commute: (dx0 ∧ dx1) ∧ (dx2 ∧ dx3) and back
    assert_eq!(shuffle_sign(&[0, 1], &[2, 3], &[0, 1, 2, 3]), 1);
    assert_eq!(shuffle_sign(&[2, 3], &[0, 1], &[0, 1, 2, 3]), 1);
}

#[test]
fn identity_permutations_are_even() {
    for n in 0..6usize {
        let id: Vec<usize> = (0..n).collect();
        assert!(is_even_permutation(&id));
    }
}

#[test]
fn wedge_index_of_basis_forms() {
    let r2 = k_combinations(3, 2);
    // dx0 ∧ dx1 lands on [0, 1] with sign +1
    assert_eq!(wedge_index(&[0], &[1], &r2), Some((0, 1)));
    // dx2 ∧ dx0 lands on [0, 2] with sign -1
    assert_eq!(wedge_index(&[2], &[0], &r2), Some((1, -1)));
    // dx1 ∧ dx1 vanishes
    assert_eq!(wedge_index(&[1], &[1], &r2), None);
    let r3 = k_combinations(3, 3);
    // dx0 ∧ (dx1 ∧ dx2) = dx0 ∧ dx1 ∧ dx2
    assert_eq!(wedge_index(&[0], &[1, 2], &r3), Some((0, 1)));
    assert_eq!(wedge_index(&[1], &[0, 2], &r3), Some((0, -1)));
    // not listed at all
    assert_eq!(wedge_index(&[0], &[1], &r3), None);
}

#[test]
fn symplectic_pairs_mark_dx_dy() {
    // pairs of {0,1}: [0,1]
    assert_eq!(symplectic_pairs(1), vec![true]);
    // pairs of {0,1,2,3}: [0,1] [0,2] [0,3] [1,2] [1,3] [2,3]
    assert_eq!(symplectic_pairs(2), vec![true, false, false, false, false, true]);
    assert_eq!(symplectic_pairs(0), Vec::<bool>::new());
}

#[test]
fn hodge_signs_on_the_plane() {
    // *dx1 = dx2 and *dx2 = -dx1
    assert_eq!(hodge_sign(2, &[0]), 1);
    assert_eq!(hodge_sign(2, &[1]), -1);
    // functions and top forms
    assert_eq!(hodge_sign(2, &[]), 1);
    assert_eq!(hodge_sign(2, &[0, 1]), 1);
}

#[test]
fn hodge_signs_in_space() {
    // *dx1 = dx2 ∧ dx3, *dx2 = -dx1 ∧ dx3, *dx3 = dx1 ∧ dx2
    assert_eq!(hodge_sign(3, &[0]), 1);
    assert_eq!(hodge_sign(3, &[1]), -1);
    assert_eq!(hodge_sign(3, &[2]), 1);
    // *(dx1 ∧ dx3) = -dx2
    assert_eq!(hodge_sign(3, &[0, 2]), -1);
    assert_eq!(hodge_sign(3, &[0, 1]), 1);
    assert_eq!(hodge_sign(3, &[1, 2]), 1);
}

#[test]
fn hodge_sign_is_the_shuffle_sign_with_the_complement() {
    for n in 0..6usize {
        for k in 0..=n {
            for combo in k_combinations(n, k) {
                let comp = complement(n, &combo);
                let merged: Vec<usize> = (0..n).collect();
                assert_eq!(hodge_sign(n, &combo), shuffle_sign(&combo, &comp, &merged));
            }
        }
    }
}

fn count_inversions(p: &[usize]) -> usize {
    let mut count = 0;
    for i in 0..p.len() {
        for j in i + 1..p.len() {
            if p[i] > p[j] {
                count += 1;
            }
        }
    }
    count
}

#[test]
fn cycle_parity_is_inversion_parity() {
    for n in 0..6usize {
        for p in permutations(n) {
            assert_eq!(is_even_permutation(&p), count_inversions(&p) % 2 == 0);
        }
    }
}

#[test]
fn relative_parity_is_product_of_parities() {
    for n in 0..5usize {
        let all = permutations(n);
        for from in &all {
            for to in &all {
                let same = is_even_permutation(from) == is_even_permutation(to);
                assert_eq!(is_even_permutation_from(from, to), same);
            }
        }
    }
}

#[test]
fn wedge_index_anticommutes() {
    for n in 0..6usize {
        for k in 0..=n {
            for l in 0..=n - k {
                let r = k_combinations(n, k + l);
                let factor = if (k * l) % 2 == 0 { 1 } else { -1 };
                for a in k_combinations(n, k) {
                    for b in k_combinations(n, l) {
                        match (wedge_index(&a, &b, &r), wedge_index(&b, &a, &r)) {
                            (Some((i1, s1)), Some((i2, s2))) => {
                                assert_eq!(i1, i2);
                                assert_eq!(s2, s1 * factor);
                            }
                            (None, None) => {}
                            _ => panic!("only one order of the wedge lands"),
                        }
                    }
                }
            }
        }
    }
    // dx1 ∧ dx2 = -dx2 ∧ dx1 on R²
    let r = k_combinations(2, 2);
    assert_eq!(wedge_index(&[0], &[1], &r), Some((0, 1)));
    assert_eq!(wedge_index(&[1], &[0], &r), Some((0, -1)));
}

#[test]
fn double_hodge_star_sign() {
    for n in 0..7usize {
        for k in 0..=n {
            let expected = if (k * (n - k)) % 2 == 0 { 1 } else { -1 };
            for combo in k_combinations(n, k) {
                let comp = complement(n, &combo);
                assert_eq!(comp.len(), n - k);
                assert_eq!(complement(n, &comp), combo);
                assert_eq!(hodge_sign(n, &combo) * hodge_sign(n, &comp), expected);
            }
        }
    }
    // on R²: **dx1 = *dx2 = -dx1
    assert_eq!(hodge_sign(2, &[0]) * hodge_sign(2, &[1]), -1);
}
