//! The blockchains whose tokens are indexed.

use vstd::prelude::*;

verus! {

/// A blockchain.
#[derive(Clone, Copy, PartialEq, Eq, Structural, Debug)]
pub enum Chain {
    Ethereum,
    Starknet,
    ZkSync,
    Arbitrum,
    Base,
    Bsc,
    Unichain,
}

/// Whether two texts are the same.
pub(crate) fn same_text(left: &str, right: &str) -> (same: bool)
    ensures
        same == (left@ == right@),
{
    left.to_owned() == right.to_owned()
}

impl Chain {
    /// The name under which the chain is stored.
    pub open spec fn text(self) -> Seq<char> {
        match self {
            Chain::Ethereum => "ethereum"@,
            Chain::Starknet => "starknet"@,
            Chain::ZkSync => "zksync"@,
            Chain::Arbitrum => "arbitrum"@,
            Chain::Base => "base"@,
            Chain::Bsc => "bsc"@,
            Chain::Unichain => "unichain"@,
        }
    }

    /// A number that tells the chain from the others.
    pub open spec fn number(self) -> u64 {
        match self {
            Chain::Ethereum => 0,
            Chain::Starknet => 1,
            Chain::ZkSync => 2,
            Chain::Arbitrum => 3,
            Chain::Base => 4,
            Chain::Bsc => 5,
            Chain::Unichain => 6,
        }
    }

    /// The name under which the chain is stored.
    pub fn name(&self) -> (name: String)
        ensures
            name@ == self.text(),
    {
        match self {
            Chain::Ethereum => "ethereum".to_owned(),
            Chain::Starknet => "starknet".to_owned(),
            Chain::ZkSync => "zksync".to_owned(),
            Chain::Arbitrum => "arbitrum".to_owned(),
            Chain::Base => "base".to_owned(),
            Chain::Bsc => "bsc".to_owned(),
            Chain::Unichain => "unichain".to_owned(),
        }
    }

    /// The chain that is stored under `name`.
    pub fn from_name(name: &str) -> (chain: Option<Chain>)
        ensures
            chain matches Some(c) ==> c.text() == name@,
            chain is None ==> forall|c: Chain| c.text() != name@,
    {
        if same_text(name, "ethereum") {
            Some(Chain::Ethereum)
        } else if same_text(name, "starknet") {
            Some(Chain::Starknet)
        } else if same_text(name, "zksync") {
            Some(Chain::ZkSync)
        } else if same_text(name, "arbitrum") {
            Some(Chain::Arbitrum)
        } else if same_text(name, "base") {
            Some(Chain::Base)
        } else if same_text(name, "bsc") {
            Some(Chain::Bsc)
        } else if same_text(name, "unichain") {
            Some(Chain::Unichain)
        } else {
            None
        }
    }

    /// A number that tells the chain from the others.
    pub(crate) fn to_number(&self) -> (number: u64)
        ensures
            number == self.number(),
    {
        match self {
            Chain::Ethereum => 0,
            Chain::Starknet => 1,
            Chain::ZkSync => 2,
            Chain::Arbitrum => 3,
            Chain::Base => 4,
            Chain::Bsc => 5,
            Chain::Unichain => 6,
        }
    }
}

/// No two chains share a name, so a name read back gives the chain that it was written for.
pub proof fn law_chain_names_are_distinct(left: Chain, right: Chain)
    ensures
        left.text() == right.text() <==> left == right,
{
    reveal_strlit("ethereum");
    reveal_strlit("starknet");
    reveal_strlit("zksync");
    reveal_strlit("arbitrum");
    reveal_strlit("base");
    reveal_strlit("bsc");
    reveal_strlit("unichain");
    if left.text() == right.text() {
        assert(left.text()[0] == right.text()[0]);
        assert(left.text().len() == right.text().len());
        if left.text().len() == 8 {
            assert(left.text()[1] == right.text()[1]);
        }
    }
}

/// Each chain has the name under which it is stored, and a number of its own.
pub proof fn law_chains_are_told_apart(left: Chain, right: Chain)
    ensures
        Chain::Ethereum.text() == "ethereum"@,
        Chain::Starknet.text() == "starknet"@,
        Chain::ZkSync.text() == "zksync"@,
        Chain::Arbitrum.text() == "arbitrum"@,
        Chain::Base.text() == "base"@,
        Chain::Bsc.text() == "bsc"@,
        Chain::Unichain.text() == "unichain"@,
        left.number() == right.number() <==> left == right,
{
}

} // verus!
