//! Metric model, text encoder, registry and collector logic of a Prometheus
//! node exporter.
//!
//! The library does no I/O: each collector says what is to be read and turns
//! what came of reading into metric families.

pub mod cli;
pub mod collectors;
pub mod config;
pub mod double;
pub mod encoding;
pub mod error;
pub mod metric;
pub mod number;
pub mod order;
pub mod quantity;
pub mod registry;
pub mod round_trip;
pub mod rows;
pub mod server;
pub mod source;
pub mod text;

pub use config::Config;
pub use error::Error;
pub use metric::{Metric, MetricType, Sample};
pub use registry::{Collector, Registry};
