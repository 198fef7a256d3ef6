//! A lossy, text-based raster image codec.
//!
//! The format holds an image as lines of text: a dimensions line
//! `"width,height"`, a dictionary line assigning small indices to the colors
//! that occur at least twice, and one line per pixel row in which a cell is
//! an empty token (repeat the previous color), a dictionary index, or a
//! literal six-digit hexadecimal color.
//!
//! [`encode::encode`] turns a pixel grid into such lines and
//! [`decode::decode`] turns lines back into a grid; [`props`] proves that the
//! two are exact inverses on grids free of index/literal ambiguity, and that
//! the encoder's dictionary and frequency table behave as stated.

pub mod color;
pub mod decode;
pub mod dict;
pub mod encode;
pub mod freq;
pub mod grid;
pub mod num;
pub mod props;
pub mod text;
