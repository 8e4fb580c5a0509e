//! Verified core of a registry tag-version reporter: a paginated,
//! rate-limit-aware source of tag names ([`fetch`]), lenient parsing of tag
//! names as semantic versions ([`tags`], [`version`]), and aggregation of the
//! greatest version per (major, minor) line ([`aggregate`]). The surrounding
//! program supplies the HTTP transport, the clock and the sleep, and drives
//! the source's explicit state machine.

pub mod aggregate;
pub mod fetch;
pub mod tags;
pub mod version;
