//! A colour picker for the terminal: colours, contrast, screen text and key handling.
#![allow(unused_imports)]

pub mod single;
pub mod rounding;
pub mod text;
pub mod color;
pub mod hue;
pub mod circle;
pub mod figures;
pub mod contrast;
pub mod lightness;
pub mod ansi;
pub mod app;
pub mod keys;
pub mod args;
pub mod render;
pub mod highlight;
pub mod report;
pub mod laws;
pub mod color_laws;
pub mod light_laws;
pub mod text_laws;
pub mod screen_laws;
pub mod key_laws;
pub mod nearest_laws;
pub mod special_laws;
pub mod rgb_laws;
