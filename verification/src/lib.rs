//! Extraction of a structured manual from semi-structured reference pages.

pub mod arg;
pub mod assemble;
pub mod dom;
pub mod manual;
pub mod markdown;
pub mod parse_constants;
pub mod parse_file;
pub mod parse_fnames;
pub mod sorted;
pub mod text;

pub use manual::{GmManual, GmManualConstant, GmManualFunction, GmManualFunctionParameter, GmManualVariable};
pub use markdown::Markdown;
