//! A typed data-transformation pipeline over length-prefixed binary records.
//!
//! Raw bytes are split into records by the framing codec, the records are
//! filtered and normalised by the transform stage, and [`Pipeline`] chains
//! stages so that the first failure ends the run.

pub mod error;
pub mod framing;
pub mod pipeline;
pub mod records;
pub mod stage;
pub mod transform;
pub mod wire;

pub use error::StageError;
pub use framing::{Record, RecordParserStage};
pub use pipeline::Pipeline;
pub use stage::Stage;
pub use transform::BusinessLogicStage;
