//! Fourier drawing core: thin a binary edge mask to a one-pixel skeleton,
//! order the skeleton into a single stroke, and rank the stroke's spectral
//! bins into epicycles.

pub mod grid;
pub mod path;
pub mod spectrum;
