//! Span-aware building of token sequences for code generators.
//!
//! A [`Quote`] accumulates tokens. A [`respan::Respan`] policy decides which
//! source span each generated token is stamped with, and the call sites that
//! contributed to a sequence are recorded so that a failure to parse the
//! result can name them.

pub mod respan;
pub mod spanned_quote;
pub mod token;

pub use crate::spanned_quote::Quote;
