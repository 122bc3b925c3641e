//! Checking that a graph that was read can be searched.
use vstd::prelude::*;
use vstd::set_lib::lemma_subset_equality;

use crate::hnsw::codec::{keys_below, lemma_keys_below, plain_upper};
use crate::hnsw::index::{base_links, StaticHNSW};
use crate::hnsw::search::closed_under;

verus! {

broadcast use vstd::std_specs::hash::group_hash_axioms;

/// All ids on upper layers lie below `n` exactly if there are as many of them
/// as there are in all.
proof fn lemma_all_below(idx: StaticHNSW)
    requires
        idx.vectors@.len() <= u32::MAX,
    ensures
        ({
            let n = idx.vectors@.len();
            keys_below(plain_upper(idx.upper@), n).len() == idx.upper@.len() <==> (forall|key: u32|
                #[trigger] idx.upper@.contains_key(key) ==> key < n)
        }),
{
    let n = idx.vectors@.len();
    let upper = plain_upper(idx.upper@);
    let keys = keys_below(upper, n);
    let dom = idx.upper@.dom();
    lemma_keys_below(upper, n);
    keys.unique_seq_to_set();
    let set = keys.to_set();
    assert forall|key: u32| set.contains(key) implies dom.contains(key) && key < n by {
        let i = choose|i: int| 0 <= i < keys.len() && keys[i] == key;
        assert(upper.contains_key(keys[i]));
    }
    if keys.len() == idx.upper@.len() {
        lemma_subset_equality(set, dom);
        assert forall|key: u32| #[trigger] idx.upper@.contains_key(key) implies key < n by {
            assert(set.contains(key));
        }
    }
    if forall|key: u32| #[trigger] idx.upper@.contains_key(key) ==> key < n {
        assert forall|key: u32| dom.contains(key) implies set.contains(key) by {
            assert(idx.upper@.contains_key(key));
            assert(upper.contains_key(key));
            assert(keys.contains(key));
        }
        assert(set =~= dom);
    }
}

/// Whether all ids lie below `n`.
fn all_below(ids: &[u32], n: usize) -> (yes: bool)
    ensures
        yes == (forall|i: int| 0 <= i < ids@.len() ==> #[trigger] ids@[i] < n),
{
    let mut i: usize = 0;
    while i < ids.len()
        invariant
            i <= ids@.len(),
            forall|j: int| 0 <= j < i ==> #[trigger] ids@[j] < n,
        decreases ids@.len() - i,
    {
        if ids[i] as usize >= n {
            assert(!(ids@[i as int] < n));
            return false;
        }
        i = i + 1;
    }
    true
}

/// Whether all ids of several lists lie below `n`.
fn lists_below(lists: &Vec<Vec<u32>>, n: usize) -> (yes: bool)
    ensures
        yes == (forall|l: int, i: int|
            0 <= l < lists@.len() && 0 <= i < lists@[l]@.len() ==> #[trigger] lists@[l]@[i] < n),
{
    let mut l: usize = 0;
    while l < lists.len()
        invariant
            l <= lists@.len(),
            forall|j: int, i: int|
                0 <= j < l && 0 <= i < lists@[j]@.len() ==> #[trigger] lists@[j]@[i] < n,
        decreases lists@.len() - l,
    {
        if !all_below(lists[l].as_slice(), n) {
            proof {
                let i = choose|i: int|
                    0 <= i < lists@[l as int]@.len() && !(#[trigger] lists@[l as int]@[i] < n);
                assert(!(lists@[l as int]@[i] < n));
            }
            return false;
        }
        l = l + 1;
    }
    true
}

impl StaticHNSW {
    /// Whether the links of the lowest layer stay among the nodes.
    fn base_is_closed(&self) -> (yes: bool)
        requires
            self.vectors@.len() <= u32::MAX,
            self.links0@.len() == self.vectors@.len() * self.m_max0,
        ensures
            yes == closed_under(base_links(*self), self.vectors@.len()),
    {
        let n: usize = self.vectors.len();
        let ghost links = base_links(*self);
        let mut id: usize = 0;
        while id < n
            invariant
                id <= n,
                n == self.vectors@.len(),
                n <= u32::MAX,
                self.links0@.len() == n * self.m_max0,
                links == base_links(*self),
                forall|j: int, i: int|
                    0 <= j < id && 0 <= i < links(j).len() ==> #[trigger] links(j)[i] < n,
            decreases n - id,
        {
            let row = self.links0_row(id as u32);
            assert(row@ == links(id as int));
            if !all_below(row, n) {
                proof {
                    let i = choose|i: int| 0 <= i < row@.len() && !(#[trigger] row@[i] < n);
                    assert(!(links(id as int)[i] < n));
                }
                return false;
            }
            id = id + 1;
        }
        true
    }

    /// Whether the links of the upper layers stay among the nodes.
    fn upper_is_closed(&self) -> (yes: bool)
        requires
            self.vectors@.len() <= u32::MAX,
        ensures
            yes == {
                let n = self.vectors@.len();
                &&& forall|key: u32| #[trigger] self.upper@.contains_key(key) ==> key < n
                &&& forall|key: u32, l: int, i: int|
                    self.upper@.contains_key(key) && 0 <= l < self.upper@[key]@.len() && 0 <= i
                        < self.upper@[key]@[l]@.len() ==> #[trigger] self.upper@[key]@[l]@[i] < n
            },
    {
        let n: usize = self.vectors.len();
        let keys = self.upper_keys();
        proof {
            lemma_all_below(*self);
            lemma_keys_below(plain_upper(self.upper@), n as nat);
        }
        if keys.len() != self.upper.len() {
            return false;
        }
        let mut k: usize = 0;
        while k < keys.len()
            invariant
                k <= keys@.len(),
                n == self.vectors@.len(),
                forall|j: int|
                    0 <= j < keys@.len() ==> self.upper@.contains_key(#[trigger] keys@[j]),
                forall|j: int, l: int, i: int|
                    0 <= j < k && 0 <= l < self.upper@[keys@[j]]@.len() && 0 <= i
                        < self.upper@[keys@[j]]@[l]@.len() ==> #[trigger] self.upper@[keys@[j]]@[l]@[i]
                        < n,
            decreases keys@.len() - k,
        {
            let key: u32 = keys[k];
            assert(self.upper@.contains_key(keys@[k as int]));
            match self.upper.get(&key) {
                Some(lists) => {
                    if !lists_below(lists, n) {
                        proof {
                            let (l, i) = choose|l: int, i: int|
                                0 <= l < lists@.len() && 0 <= i < lists@[l]@.len() && !(
                                #[trigger] lists@[l]@[i] < n);
                            assert(!(self.upper@[key]@[l]@[i] < n));
                        }
                        return false;
                    }
                },
                None => {},
            }
            k = k + 1;
        }
        proof {
            assert forall|key: u32, l: int, i: int|
                self.upper@.contains_key(key) && 0 <= l < self.upper@[key]@.len() && 0 <= i
                    < self.upper@[key]@[l]@.len() implies #[trigger] self.upper@[key]@[l]@[i]
                < n by {
                assert(plain_upper(self.upper@).contains_key(key));
                assert(keys@.contains(key));
                let j = choose|j: int| 0 <= j < keys@.len() && keys@[j] == key;
                assert(self.upper@[keys@[j]]@[l]@[i] < n);
            }
        }
        true
    }

    /// Whether the graph is well formed.
    pub fn is_valid(&self) -> (yes: bool)
        ensures
            yes == self.wf(),
    {
        let n: usize = self.vectors.len();
        if n as u64 > 0xffff_ffff || self.labels.len() != n {
            return false;
        }
        proof {
            assert(0 <= n * self.m_max0 <= 0xffff_ffff * usize::MAX) by (nonlinear_arith)
                requires
                    0 <= n <= 0xffff_ffff,
                    0 <= self.m_max0 <= usize::MAX,
            ;
            assert(usize::MAX <= 0xffff_ffff_ffff_ffff);
        }
        if self.links0.len() as u128 != n as u128 * self.m_max0 as u128 {
            return false;
        }
        if n > 0 && self.entry as usize >= n {
            return false;
        }
        self.base_is_closed() && self.upper_is_closed()
    }
}

} // verus!
