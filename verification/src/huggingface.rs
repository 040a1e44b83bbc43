//! Local Hugging Face model directories: configuration, checkpoint inventory, chat rendering and
//! text generation.

use crate::text::text;
use std::path::PathBuf;
use vstd::prelude::*;

pub mod awq;
pub mod awq_laws;
pub mod awq_model;
pub mod chat;
pub mod checkpoint;
pub mod config;
pub mod config_laws;
pub mod directory;
pub mod expected_laws;
pub mod files;
pub mod keys;
pub mod loading;
pub mod pipeline;
pub mod pipeline_laws;
pub mod tensors;
pub mod tokenizer;
pub mod tokenizer_faults;
pub mod tokenizer_parts;

verus! {

pub const CONFIG_FILE: &'static str = "config.json";

pub const SINGLE_WEIGHTS_FILE: &'static str = "model.safetensors";

pub const WEIGHTS_INDEX_FILE: &'static str = "model.safetensors.index.json";

pub const TOKENIZER_FILE: &'static str = "tokenizer.json";

pub const TOKENIZER_CONFIG_FILE: &'static str = "tokenizer_config.json";

pub const GENERATION_CONFIG_FILE: &'static str = "generation_config.json";

/// A path of std.
#[verifier::external_type_specification]
#[verifier::external_body]
pub struct ExPathBuf(PathBuf);

/// `clone` of std's `PathBuf`. Nothing is claimed of the copy.
pub assume_specification[ <PathBuf as Clone>::clone ](path: &PathBuf) -> PathBuf;

#[derive(Debug, Clone, PartialEq, Eq)]
pub struct HuggingFaceLoadError(pub String);

impl HuggingFaceLoadError {
    /// The message.
    pub fn to_string(&self) -> (message: String)
        ensures
            message@ == self.0@,
    {
        self.0.clone()
    }
}

/// An error with a fixed message.
pub(crate) fn refuse(message: &str) -> (error: HuggingFaceLoadError)
    ensures
        error.0@ == message@,
{
    HuggingFaceLoadError(text(message))
}

} // verus!
