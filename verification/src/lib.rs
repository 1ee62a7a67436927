//! Extraction of multiple-choice exam questions from noisy text.
//!
//! The crate normalizes raw text lines (stripping line-break markup and
//! surrounding whitespace) and folds them through a small state machine
//! that recognizes question-start markers and labeled answer choices,
//! producing structured question records.

pub mod error;
pub mod machine;
pub mod parse;
pub mod question;
pub mod text;
