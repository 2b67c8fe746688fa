//! Text-mode histograms of one column of delimited text.
//!
//! The input is split into records, one column of each record is taken as
//! its key, the occurrences of each key are counted, and the counts are
//! rendered as bars, one line per key, keys in natural lexical order.

pub mod column;
pub mod config;
pub mod decimal;
pub mod error;
pub mod natural;
pub mod pipeline;
pub mod records;
pub mod render;
pub mod table;

pub use crate::config::Config;
pub use crate::error::HistError;
pub use crate::pipeline::{aggregate, histogram};
pub use crate::table::FrequencyTable;
