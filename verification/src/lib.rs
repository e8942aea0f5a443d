//! A JPEG 2000 codestream decoder, proved in Verus.
//!
//! The decoder reads a raw codestream (ISO/IEC 15444-1 Annex A, without the JP2
//! wrapper) into integer samples: one grid per component, each with its own bit
//! depth, sign and sub-sampling. Malformed input never panics; it comes back as a
//! typed [`Error`].
//!
//! ```text
//! bytes -> codestream -> tier-2 -> tier-1 -> inverse wavelet -> colour -> image
//!          (markers)    (packets)  (blocks)  (5/3)              (RCT)
//! ```
//!
//! Each stage is a module with a specification of what it computes, over
//! mathematical sequences, and executable code that is proved to compute it.
//! [`decode`] wires them together. The reversible path is decoded here to the end.
//! The irreversible 9/7 wavelet works on real numbers, so a tile that uses it is
//! handed out as a [`LossyTile`] and resumed with its synthesised samples.
#![allow(unused_imports)]

pub mod assembly;
pub mod codestream;
pub mod decoder;
pub mod dwt;
pub mod error;
pub mod fuzz;
pub mod hints;
pub mod image;
pub mod independence;
pub mod math;
pub mod mct;
pub mod pipeline;
pub mod quant;
pub mod reduction;
pub mod resumption;
pub mod synthesis;
pub mod text;
pub mod tier1;
pub mod tier2;

pub use decoder::{decode, decode_with, DecodeOptions, Decoded, LossyTile};
pub use error::{Error, Result};
pub use image::{Component, Image};
