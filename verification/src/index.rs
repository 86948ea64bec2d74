//! The address index: a hash map from an account's public address to its
//! assigned identifier, giving amortized constant-time lookups.

use vstd::prelude::*;
use std::collections::HashMap;

verus! {

broadcast use vstd::std_specs::hash::group_hash_axioms;

/// Maps each bound public address to the identifier it resolves to.
pub struct AddressIndex {
    pub map: HashMap<u64, u32>,
}

impl View for AddressIndex {
    type V = Map<u64, u32>;

    open spec fn view(&self) -> Map<u64, u32> {
        self.map@
    }
}

impl AddressIndex {
    /// Creates an index with no address bound.
    pub fn new() -> (r: AddressIndex)
        ensures
            r@ == Map::<u64, u32>::empty(),
    {
        AddressIndex { map: HashMap::new() }
    }

    /// Looks up the identifier an address is bound to.
    pub fn resolve(&self, address: u64) -> (r: Option<u32>)
        ensures
            match r {
                Some(id) => self@.contains_key(address) && self@[address] == id,
                None => !self@.contains_key(address),
            },
    {
        match self.map.get(&address) {
            Some(id) => Some(*id),
            None => None,
        }
    }

    /// Binds an address to an identifier, replacing any previous binding.
    pub fn bind(&mut self, address: u64, id: u32)
        ensures
            final(self)@ == old(self)@.insert(address, id),
    {
        self.map.insert(address, id);
    }

    /// Removes the binding of an address.
    pub fn unbind(&mut self, address: u64)
        ensures
            final(self)@ == old(self)@.remove(address),
    {
        self.map.remove(&address);
    }
}

} // verus!
