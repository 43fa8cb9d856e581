//! Log analysis: parsing `key=value` log lines, filtering records, gathering
//! statistics, and rendering reports as text, Markdown, JSON or CSV.
pub mod text;
pub mod strmap;
pub mod error;
pub mod model;
pub mod parser;
pub mod analyzer;
pub mod report;
pub mod cli;
pub mod export;
pub mod laws;
pub mod report_laws;

pub use analyzer::{analyze_lines, AnalysisResult, AnalyzeOptions};
pub use error::{AppError, AppResult};
pub use model::{LogLevel, LogRecord, OutputFormat};
