//! The kinds of observations that the database stores, and the summaries
//! (aggregations) kept about groups of them.

pub mod aggregation;
pub mod metrics;
pub mod observation;
pub mod profile;
pub mod text;

pub use aggregation::Aggregation;
pub use metrics::{CountMetrics, Metrics};
pub use observation::Observation;
pub use profile::ProfileEvent;
pub use text::Text;
