//! A baseline sequential DCT JPEG encoder (ITU-T T.81, JFIF 1.02) whose
//! stages carry machine-checked contracts.
use vstd::prelude::*;

pub mod bitstream;
pub mod block;
pub mod cli;
pub mod color;
pub mod dct;
pub mod encoder;
pub mod entropy;
pub mod error;
pub mod marker;
pub mod ppm;
pub mod quantize;
pub mod sampling;
pub mod scan_stats;
pub mod text;
pub mod types;

verus! {

} // verus!
