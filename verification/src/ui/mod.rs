//! The web interface.
pub mod archive;
pub mod assets;
pub mod copied;
pub mod formats;
pub mod percent;
pub mod replace;
pub mod replaced;
pub mod serve;
pub mod update;
pub mod updated;
