//! Picture logic of a small e-paper status screen: bit-packed monochrome
//! images, the heart fade-in animation, per-pixel drawing effects, network
//! presence debouncing and the countdown and temperature screens.

pub mod bits;
pub mod raster;
pub mod effects;
pub mod fade;
pub mod presence;
pub mod countdown;
pub mod temperature;
pub mod delay;
pub mod typing;
