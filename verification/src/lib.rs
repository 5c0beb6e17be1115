//! Differential topology: the combinatorial and integer core, verified.
pub mod agent_dynamics;
pub mod degree;
pub mod differential_form;
pub mod euler;
pub mod smooth_manifold;
pub mod tangent;
pub mod transversality;
pub mod vector_field;
