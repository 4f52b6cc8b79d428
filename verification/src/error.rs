//! The ways a request can fail.

use vstd::prelude::*;
use crate::text::{from_chars, push_str};

verus! {

/// Why a request failed. Every failure ends the request that met it; nothing
/// is tried again.
#[derive(Debug, Clone)]
pub enum PipelineError {
    /// An input file, a template or a Markdown file inside an archive is missing.
    NotFound(String),
    /// Creating, copying, reading, writing or deleting a file failed.
    Io(String),
    /// The archive has an unsupported format or could not be unpacked.
    Archive(String),
    /// The key is missing, the ciphertext is malformed or its padding is wrong.
    Decryption(String),
    /// The conversion engine is not installed.
    EngineMissing,
    /// The conversion engine ran and reported failure; holds its error output.
    EngineFailed(String),
    /// The metadata to merge is not a key-value mapping.
    InvalidMetadata,
}

/// What the message of a missing engine says.
pub open spec fn engine_missing() -> Seq<char> {
    "Pandoc not installed. Please install it first."@
}

/// What the message of metadata that is no mapping says.
pub open spec fn metadata_invalid() -> Seq<char> {
    "Metadata is not an object"@
}

/// What the message of a failed conversion begins with.
pub open spec fn engine_failed() -> Seq<char> {
    "Pandoc conversion failed: "@
}

impl PipelineError {
    /// The message of the error, as a reader is shown it: the reason that
    /// the error holds; for a failed conversion what the engine wrote,
    /// after a few words that say so.
    pub open spec fn message_text(self) -> Seq<char> {
        match self {
            PipelineError::NotFound(reason) => reason@,
            PipelineError::Io(reason) => reason@,
            PipelineError::Archive(reason) => reason@,
            PipelineError::Decryption(reason) => reason@,
            PipelineError::EngineMissing => engine_missing(),
            PipelineError::EngineFailed(output) => engine_failed() + output@,
            PipelineError::InvalidMetadata => metadata_invalid(),
        }
    }

    /// The message of the error.
    pub fn message(&self) -> (r: String)
        ensures
            r@ == self.message_text(),
    {
        match self {
            PipelineError::NotFound(reason) => reason.clone(),
            PipelineError::Io(reason) => reason.clone(),
            PipelineError::Archive(reason) => reason.clone(),
            PipelineError::Decryption(reason) => reason.clone(),
            PipelineError::EngineMissing => "Pandoc not installed. Please install it first.".to_owned(),
            PipelineError::EngineFailed(output) => {
                let mut text: Vec<char> = Vec::new();
                push_str(&mut text, "Pandoc conversion failed: ");
                push_str(&mut text, output.as_str());
                from_chars(text.as_slice())
            },
            PipelineError::InvalidMetadata => "Metadata is not an object".to_owned(),
        }
    }
}

} // verus!
