//! Document preparation for a Markdown-to-document conversion pipeline:
//! input classification, asset naming, front-matter merging, output naming,
//! template decryption and session retention, each with a proved contract.

pub mod assets;
pub mod config;
pub mod converter;
pub mod error;
pub mod front_matter;
pub mod input;
pub mod install;
pub mod naming;
pub mod output;
pub mod paths;
pub mod sessions;
pub mod templates;
pub mod text;
