//! General-purpose utilities: string splitting and comparison, caches,
//! checksums, option stores, data layouts, size formatting, retry decisions,
//! and the pure logic of the Windows adaptors, each stated and proved with
//! Verus.

pub mod cache;
pub mod data;
pub mod conversion;
mod chars;
pub mod text;
pub mod strings;
pub mod numeric;
pub mod options;
pub mod logging;
pub mod scope;
pub mod windows;
pub mod display;
pub mod retry;
pub mod threading;
pub mod ffi;
pub mod network;
pub mod filesystem;
