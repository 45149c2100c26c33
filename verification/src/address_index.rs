//! Finds a token by its address.

use crate::bitmap::strictly_increasing;
use crate::token::{digest_of, Address};
use std::collections::HashMap;
use vstd::prelude::*;

verus! {

broadcast use vstd::std_specs::hash::group_hash_axioms;

/// The positions of tokens, by the digest of their address. Addresses that share a digest share
/// an entry.
pub(crate) struct AddressIndex {
    positions: HashMap<u64, Vec<u32>>,
}

impl AddressIndex {
    /// The positions that are entered under a digest.
    pub(crate) closed spec fn entry(self, digest: u64) -> Seq<u32> {
        if self.positions@.contains_key(digest) {
            self.positions@[digest]@
        } else {
            Seq::empty()
        }
    }

    /// The index covers tokens whose addresses are `addresses`, by position: the entry of a digest
    /// holds exactly the positions with that digest, in ascending order.
    pub(crate) open spec fn covers(self, addresses: Seq<Seq<u8>>) -> bool {
        &&& forall|d: u64, i: int|
            #![trigger self.entry(d)[i]]
            0 <= i < self.entry(d).len() ==> self.entry(d)[i] < addresses.len() && digest_of(
                addresses[self.entry(d)[i] as int],
            ) == d
        &&& forall|d: u64| #[trigger] strictly_increasing(self.entry(d))
        &&& forall|p: int|
            #![trigger addresses[p]]
            0 <= p < addresses.len() ==> self.entry(digest_of(addresses[p])).contains(p as u32)
    }

    /// An index of no tokens.
    pub(crate) fn new() -> (index: AddressIndex)
        ensures
            index.covers(Seq::empty()),
    {
        AddressIndex { positions: HashMap::new() }
    }

    /// The positions at which the token with this address can be.
    pub(crate) fn candidates(&self, address: &Address) -> (candidates: Option<&Vec<u32>>)
        ensures
            candidates matches Some(positions) ==> positions@ == self.entry(digest_of(address@)),
            candidates is None ==> self.entry(digest_of(address@)).len() == 0,
    {
        self.positions.get(&address.digest())
    }

    /// Enters a new token behind the tokens that are indexed.
    pub(crate) fn push(&mut self, address: &Address, position: u32)
        ensures
            forall|addresses: Seq<Seq<u8>>|
                #![trigger old(self).covers(addresses)]
                old(self).covers(addresses) && addresses.len() == position ==> final(self).covers(
                    addresses.push(address@),
                ),
    {
        let digest: u64 = address.digest();
        let mut entry = match self.positions.remove(&digest) {
            Some(entry) => entry,
            None => Vec::new(),
        };
        entry.push(position);
        self.positions.insert(digest, entry);
        assert forall|d: u64| #[trigger] self.entry(d) == (if d == digest {
            old(self).entry(d).push(position)
        } else {
            old(self).entry(d)
        }) by {}
        assert forall|addresses: Seq<Seq<u8>>|
            #![trigger old(self).covers(addresses)]
            old(self).covers(addresses) && addresses.len() == position implies self.covers(
            addresses.push(address@),
        ) by {
            let now = addresses.push(address@);
            assert forall|d: u64, i: int|
                #![trigger self.entry(d)[i]]
                0 <= i < self.entry(d).len() implies self.entry(d)[i] < now.len() && digest_of(
                now[self.entry(d)[i] as int],
            ) == d by {
                let was = old(self).entry(d);
                if i < was.len() {
                    assert(self.entry(d)[i] == was[i]);
                    assert(now[was[i] as int] == addresses[was[i] as int]);
                }
            }
            assert forall|d: u64| #[trigger] strictly_increasing(self.entry(d)) by {
                let was = old(self).entry(d);
                assert(strictly_increasing(was));
                assert forall|i: int, j: int| 0 <= i < j < self.entry(d).len() implies self.entry(
                    d,
                )[i] < self.entry(d)[j] by {
                    assert(self.entry(d)[i] == was[i]);
                    if j < was.len() {
                        assert(self.entry(d)[j] == was[j]);
                    }
                }
            }
            assert forall|p: int| #![trigger now[p]] 0 <= p < now.len() implies self.entry(
                digest_of(now[p]),
            ).contains(p as u32) by {
                let d = digest_of(now[p]);
                if p < addresses.len() {
                    assert(now[p] == addresses[p]);
                    let i = choose|i: int|
                        0 <= i < old(self).entry(d).len() && old(self).entry(d)[i] == p as u32;
                    assert(self.entry(d)[i] == p as u32);
                } else {
                    assert(self.entry(d)[self.entry(d).len() - 1] == p as u32);
                }
            }
        }
    }

    /// Takes out the last token that is indexed.
    pub(crate) fn pop(&mut self, address: &Address)
        ensures
            forall|addresses: Seq<Seq<u8>>|
                #![trigger old(self).covers(addresses.push(address@))]
                old(self).covers(addresses.push(address@)) && addresses.len() <= u32::MAX
                    ==> final(self).covers(addresses),
    {
        let digest: u64 = address.digest();
        if let Some(taken) = self.positions.remove(&digest) {
            let mut entry = taken;
            entry.pop();
            self.positions.insert(digest, entry);
        }
        assert forall|d: u64| #[trigger] self.entry(d) == (if d == digest && old(self).entry(
            d,
        ).len() > 0 {
            old(self).entry(d).drop_last()
        } else {
            old(self).entry(d)
        }) by {}
        assert forall|addresses: Seq<Seq<u8>>|
            #![trigger old(self).covers(addresses.push(address@))]
            old(self).covers(addresses.push(address@)) && addresses.len() <= u32::MAX implies self.covers(
            addresses,
        ) by {
            let before = addresses.push(address@);
            let n = addresses.len() as int;
            let own = old(self).entry(digest);
            assert(before[n] == address@);
            assert(own.contains(n as u32));
            let last = choose|i: int| 0 <= i < own.len() && own[i] == n as u32;
            assert(strictly_increasing(own));
            assert(own[own.len() - 1] < before.len());
            assert(last == own.len() - 1);
            assert forall|d: u64, i: int|
                #![trigger self.entry(d)[i]]
                0 <= i < self.entry(d).len() implies self.entry(d)[i] < addresses.len()
                && digest_of(addresses[self.entry(d)[i] as int]) == d by {
                let was = old(self).entry(d);
                assert(self.entry(d)[i] == was[i]);
                assert(was[i] < before.len() && digest_of(before[was[i] as int]) == d);
                if d == digest {
                    assert(was[i] < was[was.len() - 1]);
                }
                assert(before[was[i] as int] == addresses[was[i] as int]);
            }
            assert forall|d: u64| #[trigger] strictly_increasing(self.entry(d)) by {
                assert(strictly_increasing(old(self).entry(d)));
            }
            assert forall|p: int| #![trigger addresses[p]] 0 <= p < addresses.len() implies self.entry(
                digest_of(addresses[p]),
            ).contains(p as u32) by {
                let d = digest_of(addresses[p]);
                assert(before[p] == addresses[p]);
                let was = old(self).entry(d);
                assert(was.contains(p as u32));
                let i = choose|i: int| 0 <= i < was.len() && was[i] == p as u32;
                assert(self.entry(d)[i] == p as u32);
            }
        }
    }
}

} // verus!
