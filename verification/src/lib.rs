//! Codec for NTL files: binary tables of native-function descriptors used by
//! a scripting engine.
//!
//! The library works on bytes in memory. [`read_ntl`] turns a file image into
//! its records, [`write_ntl`] turns records into a file image, and the module
//! [`laws`] proves that the two are inverses of each other.

pub mod error;
pub mod kind;
pub mod item;
pub mod layout;
pub mod wire;
pub mod ntl;
pub mod laws;

pub use error::{FormatFault, InvalidTag, NtlError, Oversize};
pub use item::{ItemView, NativeTableItem};
pub use kind::FunctionType;
pub use layout::SIGNATURE;
pub use ntl::{read_ntl, write_ntl};
