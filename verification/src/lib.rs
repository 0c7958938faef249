//! Algebraic topology over the integers: chain complexes and their homology
//! through the Smith normal form, simplicial, singular and CW complexes,
//! cohomology and the Künneth formula, the Mayer-Vietoris sequence, Poincaré
//! duality, homotopy groups of standard spaces, Euler characteristics, and
//! the topology of agent networks.

pub mod matrix;
pub mod smith;
pub mod reduction;
pub mod snf_run;
pub mod rank;
pub mod chain_complex;
pub mod text;
pub mod euler;
pub mod homotopy;
pub mod cohomology;
pub mod mayer_vietoris;
pub mod poincare;
pub mod singular;
pub mod simplicial;
pub mod cw_complex;
pub mod network;
pub mod components;
