//! Blob images recorded by Moz2D: the stream format, merging of partial
//! updates, font discovery and the bookkeeping around rasterization.

pub mod bytes;
pub mod cache;
pub mod commands;
pub mod fonts;
pub mod geometry;
pub mod handler;
pub mod index;
pub mod keys;
pub mod laws;
pub mod merge;
pub mod rasterizer;
pub mod reader;
pub mod writer;

