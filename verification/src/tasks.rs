//! Outcomes of background tasks and of asset processing, and the signals that steer a
//! running task.

use vstd::prelude::*;
use crate::models::ProcessingCategory;

verus! {

/// A request to a running task.
#[derive(Debug, Clone, Copy, PartialEq, Eq, Structural)]
pub enum ControlSignal {
    Pause,
    Resume,
    Cancel,
}

/// How a task ended.
pub struct TaskResult {
    pub success: bool,
    pub error_message: Option<String>,
    pub output_data: Option<String>,
}

impl TaskResult {
    /// A task that succeeded, with what it produced.
    pub fn success(output_data: Option<String>) -> (r: TaskResult)
        ensures
            r.success,
            r.error_message is None,
            r.output_data == output_data,
    {
        TaskResult { success: true, error_message: None, output_data }
    }

    /// A task that failed with `message`.
    pub fn error(message: String) -> (r: TaskResult)
        ensures
            !r.success,
            r.error_message == Some(message),
            r.output_data is None,
    {
        TaskResult { success: false, error_message: Some(message), output_data: None }
    }
}

/// What processing one asset produced, ready to be written to the database.
pub enum ProcessingOutput {
    ImageSuccess { asset_id: i64, width: i32, height: i32, thumbnail: Option<Vec<u8>> },
    AudioSuccess { asset_id: i64, duration_ms: i64, sample_rate: i32, channels: i32 },
    /// The embedding as little-endian 32-bit floats.
    ClapSuccess { asset_id: i64, embedding: Vec<u8> },
    Failure { asset_id: i64, category: ProcessingCategory, error: String },
}

/// Whether processing an asset succeeded.
pub struct ProcessingResult {
    pub asset_id: i64,
    pub success: bool,
    pub error: Option<String>,
}

} // verus!
