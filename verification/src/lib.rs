//! Pure, stateless string utilities, verified with Verus.
//!
//! Two independent components make up the core:
//! - a URL engine: decomposition into scheme / host / port / path / query /
//!   fragment, shallow normalization, reference resolution against a base,
//!   origin comparison, and query-string manipulation;
//! - a catalog of format validators: Luhn credit-card checking, IPv4/IPv6,
//!   MAC addresses, password-strength scoring, hex colors, emails, phone
//!   numbers, SSNs and postal codes.
//!
//! Around the core stand small helpers for hashing, base64, UUIDs and text
//! processing; the outside crates doing that work are called through thin
//! trusted wrappers whose contracts name what they return.

#![verifier::loop_isolation(false)]

pub mod digest;
pub mod join;
pub mod link;
pub mod query;
pub mod strutil;
pub mod text;
pub mod url;
pub mod validators;
