//! Decomposes a host name or URL into its public suffix, registrable domain,
//! and subdomain, according to a line-oriented suffix-rule list with plain,
//! wildcard (`*.`) and exception (`!`) rules, longest match winning and
//! exceptions overriding wildcards.

pub mod bytes;
pub mod error;
pub mod rules;
pub mod index;
pub mod normalize;
pub mod engine;
pub mod loader;
