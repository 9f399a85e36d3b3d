//! Measures and pixel arithmetic for the ffrwd shelf's mattes, masks and
//! frame detectors.
pub mod composite;
pub mod pixel;
pub mod shots;
pub mod depth;
