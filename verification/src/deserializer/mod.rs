//! Reading the blob that the exporter writes.
pub mod stream;
pub mod timeline;
pub mod laws;
