//! Validation of email addresses against an RFC 5322 `addr-spec`-style
//! grammar, with extraction of the exact substrings matched by the
//! `local-part` and `domain` productions.

pub mod address;
pub mod chars;
pub mod engine;
pub mod laws;
pub mod scan;

pub use address::EmailAddress;
pub use address::EmailParseError;
pub use engine::EmailParser;
