pub mod chart_data;
pub mod encoding;
pub mod header;
pub mod number;
pub mod pattern;
pub mod subsequence;
pub mod text;

pub use chart_data::{ChartData, ChartError, Object};
pub use header::{Header, HeaderField};
pub use subsequence::SubSequence;
