//! Coordinate reference data: the NTv2 grid-shift file format, its text
//! fields and grid indexing, UTM zone origins, and the error type.

pub mod decode;
pub mod error;
pub mod ntv2;
pub mod text;
pub mod utm;

pub use error::Error;
pub use ntv2::{NTv2Grid, SubGrid};
