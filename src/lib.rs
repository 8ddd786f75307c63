//! LZO1X block compression: a greedy single-pass compressor, a strict and a
//! permissive decompressor, and the Adler-32 checksum, all verified.
use vstd::prelude::*;

pub mod error;
pub mod checksum;
pub mod format;
pub mod decode;
pub mod encode;
pub mod lzo;
pub mod truncation;

pub use error::{lzo_err_code_to_result, Error};
pub use checksum::{adler32, checksum};
pub use lzo::LZO;

verus! {

} // verus!
