//! Discovery of a caller's public IPv4 address.
//!
//! The heart of the crate is a verified extractor that recovers the first
//! dotted-decimal IPv4 address embedded in unstructured response text,
//! whatever its shape (plain text, JSON, HTML). Around it stand the
//! `Endpoint` configuration value, the error taxonomy, and a verified
//! builder for the HTTP request text; the socket work itself lives with
//! the callers of this library.

mod client;
mod endpoint;
mod errors;
mod extract;
mod ipv4;
mod laws;

pub use client::default_endpoint;
pub use client::is_default_endpoint;
pub use client::Fetcher;
pub use client::IP;
pub use endpoint::build_request;
pub use endpoint::request_text;
pub use endpoint::Endpoint;
pub use errors::IpError;
pub use extract::body_of;
pub use extract::cands_of;
pub use extract::extract_result;
pub use extract::first_four_ok;
pub use extract::has_sep;
pub use extract::in_octet_range;
pub use extract::is_delim;
pub use extract::parse_ip;
pub use ipv4::addr_text;
pub use ipv4::dec_str;
pub use ipv4::is_ipv4_text;
pub use ipv4::is_valid_ipv4;
pub use laws::lemma_extract_bare_literal;
pub use laws::lemma_extract_finds_literal;
pub use laws::lemma_extract_stateless;
pub use laws::lemma_invalid_grouping;
pub use laws::lemma_no_invalid_address;
pub use laws::lemma_too_few_octets;
pub use laws::octet_count;
