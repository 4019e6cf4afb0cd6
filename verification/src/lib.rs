//! Fan curves, thermal readings and settings of a Razer laptop.
//!
//! Temperatures come from the sensors as single-precision numbers. The library holds them
//! by their bit pattern and computes with whole numbers what a floating-point unit would
//! compute, so that a curve gives the same speeds either way.

pub mod binary32;
pub mod binary64;
pub mod comms;
pub mod config;
pub mod curve_editor;
pub mod curve_laws;
pub mod fan_controller;
pub mod rounding;
pub mod text;
pub mod thermal;
