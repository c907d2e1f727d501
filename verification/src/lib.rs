//! Avalanche-terrain mapping: the integer and text logic of the slope pass.
pub mod epsg;
pub mod grid;
pub mod request;
