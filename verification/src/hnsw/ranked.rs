//! A list of nodes ordered by distance, nodes at one distance by id.
use vstd::prelude::*;

verus! {

/// Whether one entry comes before another.
pub open spec fn before(a: (int, int), b: (int, int)) -> bool {
    a.0 < b.0 || (a.0 == b.0 && a.1 < b.1)
}

/// Whether the entries are in order.
pub open spec fn in_order(s: Seq<(int, int)>) -> bool {
    forall|i: int, j: int| 0 <= i < j < s.len() ==> before(s[i], s[j]) || s[i] == s[j]
}

/// The list with an entry put in its place.
pub open spec fn ranked_in(s: Seq<(int, int)>, h: (int, int)) -> Seq<(int, int)>
    decreases s.len(),
{
    if s.len() == 0 || !before(h, s.last()) {
        s.push(h)
    } else {
        ranked_in(s.drop_last(), h).push(s.last())
    }
}

/// All entries, each put in its place.
pub open spec fn ranked_all(s: Seq<(int, int)>) -> Seq<(int, int)>
    decreases s.len(),
{
    if s.len() == 0 {
        Seq::empty()
    } else {
        ranked_in(ranked_all(s.drop_last()), s.last())
    }
}

/// The place of an entry.
pub open spec fn place(s: Seq<(int, int)>, h: (int, int)) -> int
    decreases s.len(),
{
    if s.len() == 0 || !before(h, s.last()) {
        s.len() as int
    } else {
        place(s.drop_last(), h)
    }
}

pub proof fn lemma_place(s: Seq<(int, int)>, h: (int, int))
    ensures
        0 <= place(s, h) <= s.len(),
        ranked_in(s, h) == s.insert(place(s, h), h),
        forall|i: int| place(s, h) <= i < s.len() ==> before(h, #[trigger] s[i]),
        place(s, h) > 0 ==> !before(h, s[place(s, h) - 1]),
    decreases s.len(),
{
    if s.len() == 0 || !before(h, s.last()) {
        assert(s.insert(s.len() as int, h) =~= s.push(h));
    } else {
        let init = s.drop_last();
        lemma_place(init, h);
        assert(init.insert(place(init, h), h).push(s.last()) =~= s.insert(place(s, h), h));
        assert forall|i: int| place(s, h) <= i < s.len() implies before(h, #[trigger] s[i]) by {
            if i < init.len() {
                assert(init[i] == s[i]);
            }
        }
        if place(s, h) > 0 {
            assert(init[place(s, h) - 1] == s[place(s, h) - 1]);
        }
    }
}

/// A list stays in order.
pub proof fn lemma_ranked_in_order(s: Seq<(int, int)>, h: (int, int))
    requires
        in_order(s),
    ensures
        in_order(ranked_in(s, h)),
        ranked_in(s, h).len() == s.len() + 1,
{
    lemma_place(s, h);
    let p = place(s, h);
    let t = s.insert(p, h);
    assert forall|i: int, j: int| 0 <= i < j < t.len() implies before(t[i], t[j]) || t[i]
        == t[j] by {
        if p > 0 {
            assert(before(s[p - 1], h) || s[p - 1] == h);
        }
        if i == p {
            assert(before(h, s[j - 1]));
        } else if j == p {
            if i < p - 1 {
                assert(before(s[i], s[p - 1]) || s[i] == s[p - 1]);
            }
        } else if i < p && j < p {
            assert(before(s[i], s[j]) || s[i] == s[j]);
        } else if i < p {
            assert(before(s[i], s[j - 1]) || s[i] == s[j - 1]);
        } else {
            assert(before(s[i - 1], s[j - 1]) || s[i - 1] == s[j - 1]);
        }
    }
}

/// Whatever order entries come in, the list of them is in order and holds
/// them all.
pub proof fn ranked_all_is_sorted(s: Seq<(int, int)>)
    ensures
        in_order(ranked_all(s)),
        ranked_all(s).to_multiset() == s.to_multiset(),
        ranked_all(s).len() == s.len(),
    decreases s.len(),
{
    broadcast use vstd::seq_lib::group_to_multiset_ensures;

    if s.len() > 0 {
        let init = s.drop_last();
        ranked_all_is_sorted(init);
        lemma_ranked_in_order(ranked_all(init), s.last());
        lemma_place(ranked_all(init), s.last());
        assert(init.push(s.last()) =~= s);
        assert(s.to_multiset() =~= init.to_multiset().insert(s.last()));
    } else {
        assert(s =~= Seq::empty());
    }
}

/// A list of entries in order.
pub struct Ranked {
    pub items: Vec<(u32, u32)>,
}

impl View for Ranked {
    type V = Seq<(int, int)>;

    open spec fn view(&self) -> Seq<(int, int)> {
        self.items@.map_values(|h: (u32, u32)| (h.0 as int, h.1 as int))
    }
}

impl Ranked {
    /// An empty list.
    pub fn new() -> (r: Ranked)
        ensures
            r@ == Seq::<(int, int)>::empty(),
    {
        let r = Ranked { items: Vec::new() };
        assert(r@ =~= Seq::empty());
        r
    }

    /// How many entries there are.
    pub fn len(&self) -> (n: usize)
        ensures
            n == self@.len(),
    {
        self.items.len()
    }

    /// Puts an entry in its place.
    pub fn put(&mut self, dist: u32, id: u32)
        ensures
            final(self)@ == ranked_in(old(self)@, (dist as int, id as int)),
    {
        let ghost s = self@;
        let ghost h = (dist as int, id as int);
        let mut i: usize = self.items.len();
        assert(s.take(s.len() as int) =~= s);
        while i > 0 && (dist < self.items[i - 1].0 || (dist == self.items[i - 1].0 && id
            < self.items[i - 1].1))
            invariant
                i <= self.items@.len(),
                self.items@ == old(self).items@,
                s == self@,
                h == (dist as int, id as int),
                place(s, h) == place(s.take(i as int), h),
            decreases i,
        {
            assert(s.take(i as int).drop_last() =~= s.take(i - 1));
            assert(s[i - 1] == (self.items@[i - 1].0 as int, self.items@[i - 1].1 as int));
            i = i - 1;
        }
        proof {
            if i > 0 {
                assert(s[i - 1] == (self.items@[i - 1].0 as int, self.items@[i - 1].1 as int));
            }
            lemma_place(s, h);
        }
        self.items.insert(i, (dist, id));
        assert(self@ =~= s.insert(i as int, h));
    }

    /// Takes the first entry out.
    pub fn pop_first(&mut self) -> (h: (u32, u32))
        requires
            old(self)@.len() > 0,
        ensures
            (h.0 as int, h.1 as int) == old(self)@[0],
            final(self)@ == old(self)@.remove(0),
    {
        let h = self.items.remove(0);
        assert(self@ =~= old(self)@.remove(0));
        h
    }

    /// Takes the last entry out.
    pub fn pop_last(&mut self)
        requires
            old(self)@.len() > 0,
        ensures
            final(self)@ == old(self)@.drop_last(),
    {
        let _ = self.items.pop();
        assert(self@ =~= old(self)@.drop_last());
    }

    /// Keeps the first `n` entries at most.
    pub fn keep(&mut self, n: usize)
        ensures
            final(self)@ == if old(self)@.len() <= n {
                old(self)@
            } else {
                old(self)@.take(n as int)
            },
    {
        if self.items.len() > n {
            self.items.truncate(n);
            assert(self@ =~= old(self)@.take(n as int));
        }
    }
}

} // verus!
