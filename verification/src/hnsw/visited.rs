//! Sets of the node ids that a search has met.
use std::collections::HashSet;

use vstd::prelude::*;

verus! {

broadcast use vstd::std_specs::hash::group_hash_axioms;

/// A set of node ids that a search starts with empty and adds to.
pub trait Met {
    /// The ids in the set.
    spec fn met(&self) -> Set<int>;

    /// Whether the ids of `n` nodes can be put in.
    spec fn takes(&self, n: nat) -> bool;

    /// A set that takes the ids of `n` nodes takes those of fewer.
    proof fn takes_fewer(&self, n: nat, m: nat)
        requires
            self.takes(n),
            m <= n,
        ensures
            self.takes(m),
    ;

    /// Empties the set.
    fn start_over(&mut self)
        requires
            old(self).takes(0),
        ensures
            final(self).met() == Set::<int>::empty(),
            forall|n: nat| #[trigger] old(self).takes(n) ==> final(self).takes(n),
    ;

    /// Puts an id into the set; says whether it is new there.
    fn meet(&mut self, id: u32) -> (new: bool)
        requires
            old(self).takes(id as nat + 1),
        ensures
            new == !old(self).met().contains(id as int),
            final(self).met() == old(self).met().insert(id as int),
            forall|n: nat| #[trigger] old(self).takes(n) ==> final(self).takes(n),
    ;
}

/// What building a graph keeps from search to search.
pub struct BuildBufs {
    pub visited: HashSet<u32>,
}

impl BuildBufs {
    /// Nothing met yet.
    pub fn new() -> (b: BuildBufs)
        ensures
            b.visited@ == Set::<u32>::empty(),
    {
        BuildBufs { visited: HashSet::new() }
    }
}

impl Met for BuildBufs {
    open spec fn met(&self) -> Set<int> {
        Set::new(|id: int| 0 <= id <= u32::MAX && self.visited@.contains(id as u32))
    }

    open spec fn takes(&self, n: nat) -> bool {
        true
    }

    proof fn takes_fewer(&self, n: nat, m: nat) {
    }

    fn start_over(&mut self) {
        self.visited.clear();
        assert(self.met() =~= Set::empty());
    }

    fn meet(&mut self, id: u32) -> (new: bool) {
        let ghost before = self.visited@;
        let new = self.visited.insert(id);
        assert(self.met() =~= old(self).met().insert(id as int)) by {
            assert forall|x: int| self.met().contains(x) == old(self).met().insert(
                id as int,
            ).contains(x) by {
                if 0 <= x <= u32::MAX && x != id {
                    assert(x as u32 != id);
                }
            }
        }
        new
    }
}

impl Met for VisitedTable {
    open spec fn met(&self) -> Set<int> {
        self@
    }

    open spec fn takes(&self, n: nat) -> bool {
        self.wf() && self.room() >= n
    }

    proof fn takes_fewer(&self, n: nat, m: nat) {
    }

    fn start_over(&mut self) {
        self.reset();
    }

    fn meet(&mut self, id: u32) -> (new: bool) {
        self.visit(id)
    }
}

/// A mark per node. A node is in the set while its mark is the current
/// generation.
pub struct VisitedTable {
    pub marks: Vec<u32>,
    pub generation: u32,
}

impl View for VisitedTable {
    type V = Set<int>;

    open spec fn view(&self) -> Set<int> {
        Set::new(
            |id: int| 0 <= id < self.marks@.len() && self.marks@[id] == self.generation,
        )
    }
}

impl VisitedTable {
    /// No mark is ahead of the generation, which is never zero.
    pub open spec fn wf(self) -> bool {
        &&& self.generation > 0
        &&& forall|i: int|
            0 <= i < self.marks@.len() ==> #[trigger] self.marks@[i] <= self.generation
    }

    /// How many nodes the table has room for.
    pub open spec fn room(self) -> nat {
        self.marks@.len()
    }

    /// An empty set with room for `n` nodes.
    pub fn new(n: usize) -> (r: VisitedTable)
        ensures
            r.wf(),
            r.room() == n,
            r@ == Set::<int>::empty(),
    {
        let mut r = VisitedTable { marks: Vec::new(), generation: 1 };
        r.ensure_capacity(n);
        assert(r@ =~= Set::empty());
        r
    }

    /// Makes room for `n` nodes.
    pub fn ensure_capacity(&mut self, n: usize)
        requires
            old(self).wf(),
        ensures
            final(self).wf(),
            final(self).room() == if old(self).room() < n {
                n as nat
            } else {
                old(self).room()
            },
            final(self)@ == old(self)@,
    {
        let ghost before = self@;
        while self.marks.len() < n
            invariant
                self.wf(),
                self@ == before,
                self.marks@.len() == old(self).room() || (old(self).room() < self.marks@.len()
                    <= n),
            decreases n - self.marks@.len(),
        {
            let ghost prev = self.marks@;
            self.marks.push(0);
            assert(forall|i: int| 0 <= i < prev.len() ==> #[trigger] self.marks@[i] == prev[i]);
            assert(self@ =~= before);
        }
    }

    /// Empties the set: a new generation starts. Where there is none left, all
    /// marks go back to zero and the generations start over.
    pub fn reset(&mut self)
        requires
            old(self).wf(),
        ensures
            final(self).wf(),
            final(self).room() == old(self).room(),
            final(self)@ == Set::<int>::empty(),
            old(self).generation < u32::MAX ==> final(self).generation == old(self).generation + 1
                && final(self).marks == old(self).marks,
            old(self).generation == u32::MAX ==> final(self).generation == 1 && forall|i: int|
                0 <= i < final(self).marks@.len() ==> #[trigger] final(self).marks@[i] == 0,
    {
        if self.generation == u32::MAX {
            let n: usize = self.marks.len();
            let mut i: usize = 0;
            while i < n
                invariant
                    i <= n,
                    n == self.marks@.len(),
                    n == old(self).room(),
                    forall|j: int| 0 <= j < i ==> #[trigger] self.marks@[j] == 0,
                decreases n - i,
            {
                self.marks.set(i, 0);
                i = i + 1;
            }
            self.generation = 1;
        } else {
            self.generation = self.generation + 1;
        }
        assert(self@ =~= Set::empty());
    }

    /// Puts a node into the set; says whether it is new there.
    pub fn visit(&mut self, id: u32) -> (new: bool)
        requires
            old(self).wf(),
            id < old(self).room(),
        ensures
            final(self).wf(),
            final(self).room() == old(self).room(),
            new == !old(self)@.contains(id as int),
            final(self)@ == old(self)@.insert(id as int),
    {
        let ghost before = self@;
        let at: usize = id as usize;
        if self.marks[at] == self.generation {
            assert(self@ =~= before.insert(id as int));
            return false;
        }
        let generation = self.generation;
        self.marks.set(at, generation);
        assert(self@ =~= before.insert(id as int));
        true
    }
}

} // verus!
