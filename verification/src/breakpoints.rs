//! The debugger's breakpoint table: each breakpoint address with the byte
//! that the trap instruction displaced there.

use std::collections::HashMap;
use vstd::prelude::*;
use vstd::std_specs::iter::IteratorSpec;

verus! {

broadcast use vstd::std_specs::hash::group_hash_axioms;

/// The machine code of the one-byte trap instruction (`int3`).
pub const TRAP_BYTE: u8 = 0xcc;

/// Breakpoint addresses mapped to the original byte stored at each.
pub struct BreakpointTable {
    map: HashMap<usize, u8>,
}

impl View for BreakpointTable {
    type V = Map<usize, u8>;

    closed spec fn view(&self) -> Map<usize, u8> {
        self.map@
    }
}

impl BreakpointTable {
    /// A table with no breakpoint.
    pub fn new() -> (t: BreakpointTable)
        ensures
            t@ == Map::<usize, u8>::empty(),
    {
        BreakpointTable { map: HashMap::new() }
    }

    /// Number of breakpoints.
    pub fn len(&self) -> (n: usize)
        ensures
            n == self@.len(),
    {
        proof {
            vstd::std_specs::hash::axiom_hashmap_view_finite_dom(self.map);
        }
        self.map.len()
    }

    /// The byte displaced at `addr`, if `addr` holds a breakpoint.
    pub fn get(&self, addr: usize) -> (res: Option<u8>)
        ensures
            res == (if self@.contains_key(addr) {
                Some(self@[addr])
            } else {
                None
            }),
    {
        match self.map.get(&addr) {
            Some(b) => Some(*b),
            None => None,
        }
    }

    /// Records that `addr` holds a breakpoint over the byte `orig`.
    pub fn insert(&mut self, addr: usize, orig: u8)
        ensures
            final(self)@ == old(self)@.insert(addr, orig),
    {
        self.map.insert(addr, orig);
    }

    /// Every breakpoint address, once each, in the table's own order.
    pub fn addresses(&self) -> (v: Vec<usize>)
        ensures
            v@.no_duplicates(),
            v@.to_set() == self@.dom(),
            v@.len() == self@.dom().len(),
    {
        let mut v: Vec<usize> = Vec::new();
        let ghost keys = vstd::std_specs::hash::spec_keys_iter(&self.map).remaining().unref();
        for k in it: self.map.keys()
            invariant
                it.seq() == vstd::std_specs::hash::spec_keys_iter(&self.map).remaining(),
                keys == it.seq().unref(),
                v@ == keys.take(it.index() as int),
        {
            v.push(*k);
            assert(keys.take(it.index() + 1) =~= v@);
        }
        assert(keys.take(keys.len() as int) =~= keys);
        assert(v@ =~= keys);
        v
    }
}

} // verus!
