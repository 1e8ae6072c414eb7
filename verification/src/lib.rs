//! Storage-ageing statistics: total size and file count of directory trees,
//! and, per configured age threshold (in days), the bytes and files touched
//! more recently than that threshold.

mod acc;
mod analysis;
mod config;
mod data;
mod digits;
mod entries;
mod error;

pub use acc::Acc;
pub use analysis::spectrum_scale;
pub use analysis::universal;
pub use config::Config;
pub use config::Output;
pub use data::Data;
pub use error::Error;
pub use error::ErrorKind;
