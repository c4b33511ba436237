//! Interactive password picker: a verified core for candidate parsing, the
//! cursor/selection state machine, and the selection side-effect pipeline —
//! the clipboard payload and the durable, timestamped history record.

pub mod candidates;
pub mod errors;
pub mod numbers;
pub mod picker;
pub mod pipeline;
pub mod record;
pub mod timestamp;
