//! The logic of a network-diagnostics panel.
//!
//! Ping and traceroute are driven through the system's own programs: the
//! library says what to run, reads what comes back in the wording of iputils,
//! BSD and Windows, and makes cards of it. The output itself is always shown;
//! what is read only adds a summary on top. The third tool asks DNS blocklists
//! whether they list an address: the library says what to look up next, takes
//! the replies, and reports what each zone said.
//!
//! Processes, the network and floating-point arithmetic are the caller's.
//! Numbers are carried as the texts that were printed, and what is decided
//! from their values is decided exactly.

pub mod address;
pub mod card;
pub mod number;
pub mod ping;
pub mod rbl;
pub mod share;
pub mod text;
pub mod tool;
pub mod traceroute;
pub mod value;
pub mod zero;
