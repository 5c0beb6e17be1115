use lau_differential_topology::degree::{
    antipodal_degree, identity_degree, reflection_degree, verify_homotopy_invariance,
};
use lau_differential_topology::euler::{
    euler_characteristic_cw, euler_characteristic_from_triangulation,
    euler_characteristic_klein_bottle, euler_characteristic_morse,
    euler_characteristic_projective_plane, euler_characteristic_sphere,
    euler_characteristic_surface_genus, euler_characteristic_torus, euler_class_integral,
    sum_of_indices, verify_poincare_hopf_sphere, verify_poincare_hopf_torus,
};
use lau_differential_topology::transversality::transverse_intersection_dimension;

#[test]
fn test_antipodal_degree() {
    assert_eq!(antipodal_degree(1), 1);
    assert_eq!(antipodal_degree(2), -1);
}

#[test]
fn test_homotopy_invariance() {
    assert!(verify_homotopy_invariance(1, 1));
    assert!(!verify_homotopy_invariance(1, 2));
}

#[test]
fn test_identity_degree() {
    assert_eq!(identity_degree(), 1);
}

#[test]
fn test_reflection_degree() {
    assert_eq!(reflection_degree(), -1);
}

#[test]
fn test_euler_characteristic_sphere() {
    assert_eq!(euler_characteristic_sphere(0), 2);
    assert_eq!(euler_characteristic_sphere(1), 0);
    assert_eq!(euler_characteristic_sphere(2), 2);
    assert_eq!(euler_characteristic_sphere(3), 0);
    assert_eq!(euler_characteristic_sphere(4), 2);
}

#[test]
fn test_euler_characteristic_torus() {
    assert_eq!(euler_characteristic_torus(), 0);
}

#[test]
fn test_euler_characteristic_genus() {
    assert_eq!(euler_characteristic_surface_genus(0), 2);
    assert_eq!(euler_characteristic_surface_genus(1), 0);
    assert_eq!(euler_characteristic_surface_genus(2), -2);
}

#[test]
fn test_euler_from_triangulation_tetrahedron() {
    let chi = euler_characteristic_from_triangulation(4, 6, 4);
    assert_eq!(chi, 2);
}

#[test]
fn test_euler_from_triangulation_cube() {
    let chi = euler_characteristic_from_triangulation(8, 12, 6);
    assert_eq!(chi, 2);
}

#[test]
fn test_poincare_hopf_sphere() {
    assert!(verify_poincare_hopf_sphere());
}

#[test]
fn test_poincare_hopf_torus() {
    assert!(verify_poincare_hopf_torus());
}

#[test]
fn test_euler_cw() {
    assert_eq!(euler_characteristic_cw(&[1, 1, 2]), 2);
}

#[test]
fn test_euler_morse_sphere() {
    assert_eq!(euler_characteristic_morse(&[1, 0, 1]), 2);
}

#[test]
fn test_euler_morse_torus() {
    assert_eq!(euler_characteristic_morse(&[1, 2, 1]), 0);
}

#[test]
fn test_euler_class_integral() {
    assert_eq!(euler_class_integral(2), 2);
    assert_eq!(euler_class_integral(0), 0);
}

#[test]
fn test_projective_plane() {
    assert_eq!(euler_characteristic_projective_plane(), 1);
}

#[test]
fn test_klein_bottle() {
    assert_eq!(euler_characteristic_klein_bottle(), 0);
}

#[test]
fn test_transverse_intersection_dimension() {
    assert_eq!(transverse_intersection_dimension(2, 2, 3), 1);
    assert_eq!(transverse_intersection_dimension(1, 1, 2), 0);
    assert_eq!(transverse_intersection_dimension(1, 1, 3), -1);
}

#[test]
fn antipodal_degree_even_and_odd_spheres() {
    assert_eq!(antipodal_degree(0), -1);
    assert_eq!(antipodal_degree(3), 1);
    assert_eq!(antipodal_degree(4), -1);
}

#[test]
fn euler_characteristic_large_genus() {
    assert_eq!(euler_characteristic_surface_genus(10), -18);
}

#[test]
fn triangulation_agrees_with_cw_count() {
    assert_eq!(
        euler_characteristic_from_triangulation(8, 12, 6),
        euler_characteristic_cw(&[8, 12, 6])
    );
    assert_eq!(euler_characteristic_from_triangulation(1, 2, 1), 0);
}

#[test]
fn cw_and_morse_counts_agree() {
    let counts = [3usize, 7, 5, 2];
    assert_eq!(euler_characteristic_cw(&counts), -1);
    assert_eq!(euler_characteristic_morse(&counts), euler_characteristic_cw(&counts));
    assert_eq!(euler_characteristic_cw(&[]), 0);
}

#[test]
fn poincare_hopf_sum_of_indices() {
    assert_eq!(sum_of_indices(&[1, 1]), euler_characteristic_sphere(2));
    assert_eq!(sum_of_indices(&[]), euler_characteristic_torus());
    assert_eq!(sum_of_indices(&[1, -1, -1, 1]), 0);
    assert_eq!(sum_of_indices(&[-1, -1, -1]), -3);
}
