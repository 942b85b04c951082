//! Policy evaluation core of a per-application host firewall.
//!
//! The crate holds the rule records, the indexed rule table that classifies a
//! packet descriptor, the rate-limit buckets, and the wire records of the
//! kernel socket-diagnostics protocol. Every function is verified with Verus.

pub mod policy;
pub mod port_tree;
pub mod decision_cache;
pub mod bucket;
pub mod positions;
pub mod prefix_table;
pub mod classify;
pub mod fingerprint;
pub mod rules;
pub mod netlink;
pub mod frontend;
