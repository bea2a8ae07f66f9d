use vstd::prelude::*;

pub mod address;
pub mod batch;
pub mod bits;
pub mod blocklist;
pub mod config;
pub mod control;
pub mod daemon;
pub mod dyadic;
pub mod layout;
pub mod links;
pub mod netlink;
pub mod packet;
pub mod policy;
pub mod reload;
pub mod request;
pub mod rollout;
pub mod rules;
pub mod session;
pub mod text;
pub mod watch;
pub mod wire;
pub mod xdp;
pub mod zones;

verus! {

} // verus!
