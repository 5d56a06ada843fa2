//! A file-carving engine for raw disk and memory images.
//!
//! Given an image, a set of magic-number signatures and a set of target
//! content digests, the engine looks for signature occurrences in
//! sector-aligned windows and, for each occurrence, grows a candidate byte
//! range from the occurrence until its digest equals one of the targets.

pub mod sector;
pub mod hexcode;
pub mod digest;
pub mod text;
pub mod targets;
pub mod carve;
pub mod signature;
pub mod config;
pub mod scheduler;
pub mod loader;
pub mod engine;
pub mod failure;
