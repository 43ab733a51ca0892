//! Device side of the wire under the name it has next to `HostSide`.

use vstd::prelude::*;

pub use crate::server::{Attestation, Attester};

use crate::server::Server;

verus! {

/// Device side of the wire, serving the host it is connected to.
pub type ArkSide<A> = Server<A>;

} // verus!
