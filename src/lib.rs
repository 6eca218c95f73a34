//! The 160-bit identifier of a Kademlia DHT: node IDs and info hashes, with
//! the XOR distance metric, a total order, a raw byte codec and a debug form.
use vstd::prelude::*;

pub mod id20;

pub use id20::{Id20, InvalidLength};

verus! {

} // verus!
