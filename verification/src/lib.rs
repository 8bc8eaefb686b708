//! Recovery of embedded image files from a raw byte stream.
//!
//! The stream is searched for the magic bytes of JPEG and RW2 files, without
//! any help from a filesystem. `signature` finds a byte pattern in a buffer,
//! `scanner` finds where files start, `carve` holds the rules by which a
//! working buffer is cut into files, `engine` applies them to a stream that
//! arrives in chunks, `sweep` cuts up a buffer that is held whole, `naming`
//! gives each recovered file its name, and `failure` says which failures end a
//! scan.

pub mod carve;
pub mod engine;
pub mod failure;
pub mod naming;
pub mod scanner;
pub mod signature;
pub mod sweep;
