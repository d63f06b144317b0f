//! Boundary-representation kernel: verified topology, construction and
//! bookkeeping layers.
pub mod api;
pub mod topology;
pub mod identity;
pub mod halfedge;
pub mod boolean;
pub mod cube_cylinder;
pub mod predicates;
pub mod nurbs;
pub mod euler;
pub mod features;
pub mod errors;
pub mod text;
pub mod exchange;
pub mod exchange_laws;
pub mod step_laws;
pub mod step_round_trip;
pub mod hashing;
pub mod intersection;
pub mod stitch_laws;
pub mod tessellation;
pub mod sewing;
pub mod trim_nesting;
pub mod trim_topology;
pub mod face_splits;
pub mod face_install;
