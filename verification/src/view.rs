//! A unit's view: its range, and the set of identifiers of the other units
//! it currently sees. The set is mutated only by the map's visibility pass;
//! the view itself performs no scanning.

use vstd::prelude::*;
use vstd::seq_lib::group_seq_properties;

verus! {

broadcast use group_seq_properties;

/// A view range together with the identifiers currently visible.
#[derive(Clone)]
pub struct UnitView {
    range: u32,
    visible: Vec<u32>,
}

impl UnitView {
    /// The view range.
    pub closed spec fn spec_range(self) -> int {
        self.range as int
    }

    /// The visible identifiers, in insertion order.
    pub closed spec fn visible_seq(self) -> Seq<u32> {
        self.visible@
    }

    /// Whether `id` is currently visible.
    pub open spec fn sees(self, id: u32) -> bool {
        self.visible_seq().contains(id)
    }

    /// The visible identifiers hold no duplicates.
    pub open spec fn wf(self) -> bool {
        self.visible_seq().no_duplicates()
    }

    /// A view of range `range` with nothing visible yet.
    pub fn new(range: u32) -> (v: UnitView)
        ensures
            v.spec_range() == range,
            v.visible_seq() == Seq::<u32>::empty(),
            v.wf(),
    {
        UnitView { range, visible: Vec::new() }
    }

    /// The view range.
    pub fn range(&self) -> (r: u32)
        ensures
            r == self.spec_range(),
    {
        self.range
    }

    /// Whether `id` is currently visible.
    pub fn contains(&self, id: u32) -> (b: bool)
        ensures
            b == self.sees(id),
    {
        let n: usize = self.visible.len();
        let mut i: usize = 0;
        while i < n
            invariant
                0 <= i <= n,
                n == self.visible_seq().len(),
                forall|j: int| 0 <= j < i ==> self.visible_seq()[j] != id,
            decreases n - i,
        {
            if self.visible[i] == id {
                return true;
            }
            i += 1;
        }
        false
    }

    /// A copy of the visible identifiers.
    pub fn ids(&self) -> (r: Vec<u32>)
        ensures
            r@ == self.visible_seq(),
    {
        self.visible.clone()
    }

    /// How many identifiers are visible.
    pub fn count(&self) -> (n: usize)
        ensures
            n == self.visible_seq().len(),
    {
        self.visible.len()
    }

    /// Inserts `id`, reporting whether it was newly added.
    pub(crate) fn insert(&mut self, id: u32) -> (added: bool)
        requires
            old(self).wf(),
        ensures
            final(self).wf(),
            final(self).spec_range() == old(self).spec_range(),
            added == !old(self).sees(id),
            forall|x: u32| final(self).sees(x) <==> (old(self).sees(x) || x == id),
    {
        if self.contains(id) {
            false
        } else {
            self.visible.push(id);
            true
        }
    }

    /// Removes `id`, reporting whether it was present.
    pub(crate) fn remove(&mut self, id: u32) -> (removed: bool)
        requires
            old(self).wf(),
        ensures
            final(self).wf(),
            final(self).spec_range() == old(self).spec_range(),
            removed == old(self).sees(id),
            forall|x: u32| final(self).sees(x) <==> (old(self).sees(x) && x != id),
    {
        let n: usize = self.visible.len();
        let mut i: usize = 0;
        while i < n
            invariant
                0 <= i <= n,
                n == self.visible_seq().len(),
                *self == *old(self),
                old(self).wf(),
                forall|j: int| 0 <= j < i ==> self.visible_seq()[j] != id,
            decreases n - i,
        {
            if self.visible[i] == id {
                self.visible.remove(i);
                proof {
                    crate::seqs::lemma_remove_unique(old(self).visible_seq(), i as int);
                }
                return true;
            }
            i += 1;
        }
        false
    }
}

} // verus!
