//! Projective point-to-plane registration of depth frames.
pub mod accumulation;
pub mod associations;
pub mod axes;
pub mod binary64;
pub mod chains;
pub mod compositions;
pub mod determinants;
pub mod errors;
pub mod exactness;
pub mod folds;
pub mod forms;
pub mod gates;
pub mod icp;
pub mod identities;
pub mod laws;
pub mod linear;
pub mod measures;
pub mod motions;
pub mod nullspace;
pub mod numbers;
pub mod ordering;
pub mod pivots;
pub mod pixels;
pub mod products;
pub mod residuals;
pub mod rgbd;
pub mod rotations;
pub mod rounding;
pub mod runs;
pub mod semidefinite;
pub mod solves;
pub mod stability;
pub mod steps;
pub mod sums;
pub mod systems;
pub mod tallies;
pub mod totals;
pub mod vectors;
pub mod walls;
