//! The state arena: a bump-style region that owns every aggregate state of
//! one table.
//!
//! Allocation appends a run of freshly initialized slots and returns its
//! base address in constant amortized time; nothing is ever freed slot by
//! slot, the whole region is released with the table. A state address is an
//! index into this region, which is what the payload rows store in place of
//! a raw pointer.

use vstd::prelude::*;

use crate::aggregate::AggState;
use crate::aggregate::agg_init;
use crate::aggregate::spec_agg_init;

verus! {

pub struct Arena {
    pub slots: Vec<AggState>,
}

impl Arena {
    /// The region's contents, in allocation order.
    pub open spec fn view(self) -> Seq<AggState> {
        self.slots@
    }

    pub fn new() -> (r: Self)
        ensures
            r@.len() == 0,
    {
        Arena { slots: Vec::new() }
    }

    pub fn len(&self) -> (n: usize)
        ensures
            n == self@.len(),
    {
        self.slots.len()
    }

    /// Allocate `n` slots, each holding the initial state, and return the
    /// address of the first.
    pub fn reserve_states(&mut self, n: usize) -> (addr: usize)
        requires
            old(self)@.len() + n <= usize::MAX,
        ensures
            addr == old(self)@.len(),
            final(self)@ == old(self)@ + Seq::new(n as nat, |i: int| spec_agg_init()),
    {
        let addr = self.slots.len();
        let mut k: usize = 0;
        while k < n
            invariant
                k <= n,
                addr == old(self)@.len(),
                old(self)@.len() + n <= usize::MAX,
                self.slots@ == old(self)@ + Seq::new(k as nat, |i: int| spec_agg_init()),
            decreases n - k,
        {
            self.slots.push(agg_init());
            proof {
                assert(self.slots@ =~= old(self)@ + Seq::new(
                    (k + 1) as nat,
                    |i: int| spec_agg_init(),
                ));
            }
            k += 1;
        }
        addr
    }

    pub fn get(&self, addr: usize) -> (s: AggState)
        requires
            addr < self@.len(),
        ensures
            s == self@[addr as int],
    {
        self.slots[addr]
    }

    pub fn set(&mut self, addr: usize, s: AggState)
        requires
            addr < old(self)@.len(),
        ensures
            final(self)@ == old(self)@.update(addr as int, s),
    {
        self.slots.set(addr, s);
    }
}

} // verus!
