//! The Monad networks that the crawler can discover peers on.

use vstd::prelude::*;

verus! {

/// Which Monad network to discover peers on.
#[derive(Debug, Clone, Copy, PartialEq, Eq, Structural)]
pub enum Network {
    Testnet,
    Mainnet,
}

impl Network {
    /// The network's chain id (testnet 10143, mainnet 143).
    pub open spec fn spec_chain_id(self) -> u64 {
        match self {
            Network::Testnet => 10143,
            Network::Mainnet => 143,
        }
    }

    /// Chain id per network (testnet=10143, mainnet=143).
    pub fn chain_id(self) -> (r: u64)
        ensures
            r == self.spec_chain_id(),
    {
        match self {
            Network::Testnet => 10143,
            Network::Mainnet => 143,
        }
    }
}

} // verus!
