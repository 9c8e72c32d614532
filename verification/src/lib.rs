//! Discovery of printing devices reachable from a host: the verified core.
//!
//! The library models addresses as plain octets, parses the text output of
//! the OS enumeration tools, plans the bounded concurrent port scan,
//! resolves device identity through a layered fallback chain, and merges
//! the strategies' results into one deduplicated list. The surrounding
//! binary performs the actual process invocation and network traffic and
//! hands every raw text and every probe outcome to the functions here.

pub mod device;
pub mod ip;
pub mod merge;
pub mod parse;
pub mod resolve;
pub mod scan;
pub mod text;
