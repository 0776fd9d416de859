//! Transport-agnostic socket addressing: one address model covering TCP
//! endpoints and UNIX-domain endpoints (filesystem path, abstract name, or
//! unnamed), with a text codec proved to round-trip, candidate resolution,
//! the first-success policy shared by bind and connect, and the resource
//! model of a split connection's descriptor.

mod attempt;
mod codec;
mod lifecycle;
mod resolve;
mod socket_addr;
mod utils;

pub use attempt::first_ok;
pub use attempt::lemma_all_fail_policy;
pub use attempt::lemma_first_success_policy;
pub use attempt::select_first_success;
pub use attempt::Attempts;
pub use codec::lemma_round_trip;
pub use codec::lemma_unnamed_not_parseable;
pub use codec::round_trippable;
pub use codec::spec_format;
pub use codec::spec_parse;
pub use lifecycle::lemma_forget_semantics;
pub use lifecycle::lemma_owned_split_shared_closing;
pub use lifecycle::SplitState;
pub use resolve::concat_addrs;
pub use resolve::lemma_resolution_order;
pub use resolve::path_to_socket_addr;
pub use resolve::spec_path_addr;
pub use resolve::ToSocketAddrs;
pub use socket_addr::IpAddress;
pub use socket_addr::ParseError;
pub use socket_addr::SocketAddr;
pub use socket_addr::SocketAddrSpec;
pub use socket_addr::UnixAddr;
pub use socket_addr::UnixAddrSpec;
pub use utils::into2;
pub use utils::spec_unix_path;
pub use utils::unix_addr_to_path;
