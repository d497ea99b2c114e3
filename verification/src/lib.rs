//! Loads a lightfield — a 2-D grid of camera images at known offsets — from a
//! zip archive whose entry names encode each view's grid indices and camera
//! position.

pub mod archive;
pub mod codec;
pub mod grammar;
pub mod lightfield;
