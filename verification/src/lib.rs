//! Allowed-hosts policy engine for outbound network access of sandboxed
//! components.
//!
//! A component declares, ahead of time, the outbound destinations it may
//! reach as a list of rule strings (`scheme "://" host [":" port]`, possibly
//! holding `{{name}}` variable templates). This crate parses those rules into
//! a structured policy, substitutes variables, evaluates outbound connection
//! attempts against the policy, and pre-materializes the soundly
//! pre-authorizable subset of the policy as static socket grants.
//!
//! Rule text and host names are handled as byte strings (`&[u8]` / `Vec<u8>`).
//! IP hosts are IPv4 addresses, held as a `u32` in network order together
//! with a prefix length.

pub mod rule;
pub mod parse;
pub mod evaluate;
pub mod materialize;
pub mod resolve;
pub mod canonical;
