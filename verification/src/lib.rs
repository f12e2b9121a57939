//! Dynamical systems theory: the discrete decisions behind fixed point
//! stability, bifurcation detection, Poincaré sections, basins of
//! attraction and attractor dimension estimates, with their contracts.

pub mod stability;
pub mod bifurcation;
pub mod section;
pub mod clustering;
pub mod eigen_blocks;
pub mod correlation;
pub mod trajectory;
pub mod newton;
