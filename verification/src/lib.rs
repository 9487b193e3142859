//! Shannon: the sentinel-token layer of a local redaction proxy.
//!
//! Secrets and PII are replaced by reversible tokens of the form
//! `⟦TYPE·id⟧` on the way up and restored on the way down. This crate holds
//! the verified grammar of those tokens, the whole-string matcher and the
//! streaming flush boundary that a chunked response is cut on.

pub mod sentinel;
