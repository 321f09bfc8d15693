//! The error taxonomy of the engine. Every failure a caller can see is one of
//! these variants; `message` renders the human-readable text for each.

use vstd::prelude::*;

verus! {

/// A typed failure of an engine operation.
#[derive(Debug, PartialEq, Eq)]
pub enum SttError {
    /// An operation that needs a ready model was called while the model
    /// status was not `Ready`.
    NotReady,
    /// `push_audio` was called while the recorder was not armed.
    NotRecording,
    /// A model load was requested while a required resource file is absent.
    ModelFilesMissing,
    /// A vocabulary line had an id field that does not parse as an integer;
    /// `field` holds the offending bytes.
    InvalidVocabEntry { field: Vec<u8> },
    /// A neural component failed or returned a malformed shape.
    InferenceError { message: String },
    /// The exclusive engine lock could not be taken; fatal to the one
    /// operation, not the process.
    LockContention,
}

impl SttError {
    /// The human-readable text of this error.
    pub fn message(&self) -> (text: String)
        ensures
            match self {
                SttError::NotReady => text@ == "Model not ready. Please download the model first."@,
                SttError::NotRecording => text@ == "Not recording"@,
                SttError::ModelFilesMissing => text@ == "Models not downloaded"@,
                SttError::InvalidVocabEntry { .. } => text@ == "Invalid vocab ID"@,
                SttError::InferenceError { message } => text@ == message@,
                SttError::LockContention => text@ == "Lock error"@,
            },
    {
        match self {
            SttError::NotReady => "Model not ready. Please download the model first.".to_owned(),
            SttError::NotRecording => "Not recording".to_owned(),
            SttError::ModelFilesMissing => "Models not downloaded".to_owned(),
            SttError::InvalidVocabEntry { .. } => "Invalid vocab ID".to_owned(),
            SttError::InferenceError { message } => message.clone(),
            SttError::LockContention => "Lock error".to_owned(),
        }
    }
}

} // verus!
