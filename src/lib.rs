//! Random access to single articles of a compressed multistream dump.
pub mod article;
pub mod dump;
pub mod index;
pub mod scan;
pub mod text;
