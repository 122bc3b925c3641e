//! A bounded, unordered list of the nearest hits of a stream.
//!
//! Hits are kept as they come while there is room. After that, one that is
//! closer than the furthest kept takes its place.
use vstd::multiset::Multiset;
use vstd::prelude::*;

use crate::nearest::{
    flagged, lemma_nearest_keep, lemma_nearest_of_none, lemma_nearest_replace, lemma_nearest_skip,
    nearest,
};

verus! {

/// The first position of the largest distance.
pub open spec fn furthest(s: Seq<(int, int)>) -> int
    decreases s.len(),
{
    if s.len() <= 1 {
        0
    } else {
        let w = furthest(s.drop_last());
        if s.last().0 > s[w].0 {
            s.len() - 1
        } else {
            w
        }
    }
}

/// The list after a hit was offered.
pub open spec fn offered(s: Seq<(int, int)>, cap: nat, hit: (int, int)) -> Seq<(int, int)> {
    if s.len() < cap {
        s.push(hit)
    } else if cap > 0 && hit.0 < s[furthest(s)].0 {
        s.update(furthest(s), hit)
    } else {
        s
    }
}

/// The list after all hits of a stream were offered.
pub open spec fn kept(stream: Seq<(int, int)>, cap: nat) -> Seq<(int, int)>
    decreases stream.len(),
{
    if stream.len() == 0 {
        Seq::empty()
    } else {
        offered(kept(stream.drop_last(), cap), cap, stream.last())
    }
}

/// How many hits carry a tag other than zero.
pub open spec fn tagged(s: Seq<(int, int)>) -> nat
    decreases s.len(),
{
    if s.len() == 0 {
        0
    } else {
        tagged(s.drop_last()) + if s.last().1 != 0 {
            1nat
        } else {
            0nat
        }
    }
}

proof fn lemma_furthest(s: Seq<(int, int)>)
    requires
        s.len() > 0,
    ensures
        0 <= furthest(s) < s.len(),
        forall|i: int| 0 <= i < s.len() ==> (#[trigger] s[i]).0 <= s[furthest(s)].0,
        forall|i: int| 0 <= i < furthest(s) ==> (#[trigger] s[i]).0 < s[furthest(s)].0,
    decreases s.len(),
{
    if s.len() > 1 {
        let init = s.drop_last();
        lemma_furthest(init);
        assert forall|i: int| 0 <= i < s.len() implies (#[trigger] s[i]).0 <= s[furthest(s)].0 by {
            if i < init.len() {
                assert(init[i] == s[i]);
            }
        }
        assert forall|i: int| 0 <= i < furthest(s) implies (#[trigger] s[i]).0 < s[furthest(s)].0 by {
            assert(init[i] == s[i]);
        }
    }
}

/// The first position of the largest distance is the only one.
proof fn lemma_furthest_is(s: Seq<(int, int)>, w: int)
    requires
        0 <= w < s.len(),
        forall|i: int| 0 <= i < s.len() ==> (#[trigger] s[i]).0 <= s[w].0,
        forall|i: int| 0 <= i < w ==> (#[trigger] s[i]).0 < s[w].0,
    ensures
        furthest(s) == w,
{
    lemma_furthest(s);
    let f = furthest(s);
    if f < w {
        assert(s[f].0 < s[w].0);
    } else if w < f {
        assert(s[w].0 < s[f].0);
    }
}

/// A list is never longer than its capacity.
pub proof fn lemma_kept_len(stream: Seq<(int, int)>, cap: nat)
    ensures
        kept(stream, cap).len() <= cap,
    decreases stream.len(),
{
    if stream.len() > 0 {
        let before = kept(stream.drop_last(), cap);
        lemma_kept_len(stream.drop_last(), cap);
        if before.len() > 0 {
            lemma_furthest(before);
        }
    }
}

/// A list that is long enough keeps everything.
pub proof fn lemma_kept_all(stream: Seq<(int, int)>, cap: nat)
    requires
        stream.len() <= cap,
    ensures
        kept(stream, cap) == stream,
    decreases stream.len(),
{
    if stream.len() > 0 {
        lemma_kept_all(stream.drop_last(), cap);
        assert(stream.drop_last().push(stream.last()) =~= stream);
    } else {
        assert(stream =~= Seq::empty());
    }
}

/// What is kept came from the stream.
pub proof fn lemma_kept_from(stream: Seq<(int, int)>, cap: nat)
    ensures
        forall|i: int|
            0 <= i < kept(stream, cap).len() ==> stream.contains(#[trigger] kept(stream, cap)[i]),
    decreases stream.len(),
{
    if stream.len() > 0 {
        let init = stream.drop_last();
        let before = kept(init, cap);
        lemma_kept_from(init, cap);
        lemma_kept_len(init, cap);
        if before.len() > 0 {
            lemma_furthest(before);
        }
        assert forall|i: int| 0 <= i < kept(stream, cap).len() implies stream.contains(
            #[trigger] kept(stream, cap)[i],
        ) by {
            let x = kept(stream, cap)[i];
            if x != stream.last() {
                assert(before[i] == x);
                let j = choose|j: int| 0 <= j < init.len() && init[j] == x;
                assert(stream[j] == x);
            } else {
                assert(stream[stream.len() - 1] == x);
            }
        }
    }
}

/// The hits that are kept are the nearest of the stream.
pub proof fn kept_are_nearest(stream: Seq<(int, int)>, cap: nat)
    ensures
        nearest(stream.to_multiset(), cap, kept(stream, cap).to_multiset()),
    decreases stream.len(),
{
    broadcast use vstd::seq_lib::group_to_multiset_ensures;

    if stream.len() == 0 {
        lemma_nearest_of_none(cap);
        assert(stream.to_multiset() =~= Multiset::empty());
        assert(Seq::<(int, int)>::empty().to_multiset() =~= Multiset::empty());
    } else {
        let init = stream.drop_last();
        let hit = stream.last();
        let s = kept(init, cap);
        kept_are_nearest(init, cap);
        lemma_kept_len(init, cap);
        assert(init.push(hit) =~= stream);
        assert(stream.to_multiset() =~= init.to_multiset().insert(hit));
        if s.len() < cap {
            lemma_nearest_keep(init.to_multiset(), cap, s.to_multiset(), hit);
        } else if cap > 0 && hit.0 < s[furthest(s)].0 {
            lemma_furthest(s);
            let w = furthest(s);
            let worst = s[w];
            assert(s.contains(worst));
            assert forall|c: (int, int)| #[trigger]
                s.to_multiset().contains(c) implies c.0 <= worst.0 by {
                assert(s.contains(c));
            }
            lemma_nearest_replace(init.to_multiset(), cap, s.to_multiset(), worst, hit);
            assert(s.update(w, hit).to_multiset() =~= s.to_multiset().insert(hit).remove(worst));
            assert(s.to_multiset().insert(hit).remove(worst) =~= s.to_multiset().remove(
                worst,
            ).insert(hit));
        } else {
            let one = Multiset::singleton(hit);
            assert forall|c: (int, int), o: (int, int)|
                #![trigger s.to_multiset().contains(c), one.contains(o)]
                s.to_multiset().contains(c) && one.contains(o) implies c.0 <= o.0 by {
                assert(s.contains(c));
                lemma_furthest(s);
            }
            lemma_nearest_skip(init.to_multiset(), cap, s.to_multiset(), one);
            assert(init.to_multiset().add(one) =~= init.to_multiset().insert(hit));
        }
    }
}

/// Counting the tags of a list is counting those of its hits.
pub proof fn tagged_is_flagged(s: Seq<(int, int)>)
    ensures
        tagged(s) == flagged(s.to_multiset()),
    decreases s.len(),
{
    broadcast use vstd::seq_lib::group_to_multiset_ensures;

    let p = |h: (int, int)| h.1 != 0;
    if s.len() == 0 {
        assert(s.to_multiset() =~= Multiset::empty());
        assert(s.to_multiset().filter(p) =~= Multiset::empty());
    } else {
        let init = s.drop_last();
        tagged_is_flagged(init);
        assert(init.push(s.last()) =~= s);
        assert(s.to_multiset() =~= init.to_multiset().insert(s.last()));
        if s.last().1 != 0 {
            assert(s.to_multiset().filter(p) =~= init.to_multiset().filter(p).insert(s.last()));
        } else {
            assert(s.to_multiset().filter(p) =~= init.to_multiset().filter(p));
        }
    }
}

/// No more hits are tagged than there are.
pub proof fn lemma_tagged_len(s: Seq<(int, int)>)
    ensures
        tagged(s) <= s.len(),
    decreases s.len(),
{
    if s.len() > 0 {
        lemma_tagged_len(s.drop_last());
    }
}

/// A list of at most `cap` hits.
pub struct TopList {
    pub hits: Vec<(u32, usize)>,
    pub cap: usize,
    pub worst: usize,
}

impl View for TopList {
    type V = Seq<(int, int)>;

    open spec fn view(&self) -> Seq<(int, int)> {
        self.hits@.map_values(|h: (u32, usize)| (h.0 as int, h.1 as int))
    }
}

impl TopList {
    /// The furthest hit is known once the list is full.
    pub open spec fn wf(self) -> bool {
        &&& self@.len() <= self.cap
        &&& self@.len() == self.cap && self.cap > 0 ==> self.worst == furthest(self@)
            && self.worst < self.cap
    }

    /// An empty list.
    pub fn new(cap: usize) -> (r: TopList)
        ensures
            r.wf(),
            r.cap == cap,
            r@ == Seq::<(int, int)>::empty(),
    {
        let r = TopList { hits: Vec::new(), cap, worst: 0 };
        assert(r@ =~= Seq::empty());
        r
    }

    /// Finds the furthest hit.
    fn find_worst(&mut self)
        requires
            old(self)@.len() == old(self).cap,
            old(self).cap > 0,
        ensures
            final(self).wf(),
            final(self).cap == old(self).cap,
            final(self)@ == old(self)@,
    {
        let ghost s = self@;
        let mut w: usize = 0;
        let mut i: usize = 1;
        while i < self.hits.len()
            invariant
                s == self@,
                s.len() == self.hits@.len(),
                w < i <= s.len(),
                self.cap == s.len(),
                self.cap == old(self).cap,
                self.hits@ == old(self).hits@,
                forall|j: int| 0 <= j < i ==> (#[trigger] s[j]).0 <= s[w as int].0,
                forall|j: int| 0 <= j < w ==> (#[trigger] s[j]).0 < s[w as int].0,
            decreases s.len() - i,
        {
            assert(s[i as int].0 == self.hits@[i as int].0);
            assert(s[w as int].0 == self.hits@[w as int].0);
            if self.hits[i].0 > self.hits[w].0 {
                w = i;
            }
            i = i + 1;
        }
        proof {
            lemma_furthest_is(s, w as int);
        }
        self.worst = w;
    }

    /// Offers a hit.
    pub fn offer(&mut self, dist: u32, tag: usize)
        requires
            old(self).wf(),
        ensures
            final(self).wf(),
            final(self).cap == old(self).cap,
            final(self)@ == offered(
                old(self)@,
                old(self).cap as nat,
                (dist as int, tag as int),
            ),
    {
        let ghost s = self@;
        let ghost hit = (dist as int, tag as int);
        if self.hits.len() < self.cap {
            self.hits.push((dist, tag));
            assert(self@ =~= s.push(hit));
            if self.hits.len() == self.cap {
                self.find_worst();
            }
        } else if self.cap > 0 {
            let w: usize = self.worst;
            assert(s[w as int].0 == self.hits@[w as int].0);
            if dist < self.hits[w].0 {
                self.hits.set(w, (dist, tag));
                assert(self@ =~= s.update(w as int, hit));
                self.find_worst();
            }
        }
    }

    /// How many hits carry a tag other than zero.
    pub fn count_tagged(&self) -> (n: usize)
        ensures
            n == tagged(self@),
    {
        let ghost s = self@;
        let mut n: usize = 0;
        let mut i: usize = 0;
        while i < self.hits.len()
            invariant
                s == self@,
                i <= s.len(),
                s.len() == self.hits@.len(),
                n == tagged(s.take(i as int)),
                n <= i,
            decreases s.len() - i,
        {
            assert(s.take(i + 1).drop_last() =~= s.take(i as int));
            assert(s[i as int].1 == self.hits@[i as int].1);
            if self.hits[i].1 != 0 {
                n = n + 1;
            }
            i = i + 1;
        }
        assert(s.take(s.len() as int) =~= s);
        n
    }
}

/// A full list turns a hit away that is no closer than all of its own; one that
/// is closer takes the place of the furthest, the first of several, and nothing
/// else changes. While there is room, hits are kept as they come.
pub proof fn closer_hits_take_the_furthest_place(
    stream: Seq<(int, int)>,
    cap: nat,
    hit: (int, int),
)
    ensures
        ({
            let s = kept(stream, cap);
            let t = kept(stream.push(hit), cap);
            &&& stream.len() < cap ==> t == stream.push(hit)
            &&& stream.len() >= cap && (forall|i: int|
                0 <= i < s.len() ==> (#[trigger] s[i]).0 <= hit.0) ==> t == s
            &&& forall|w: int|
                stream.len() >= cap && 0 <= w < s.len() && hit.0 < (#[trigger] s[w]).0 && (forall|
                    i: int,
                |
                    0 <= i < s.len() ==> (#[trigger] s[i]).0 <= s[w].0) && (forall|i: int|
                    0 <= i < w ==> (#[trigger] s[i]).0 < s[w].0) ==> t == s.update(w, hit)
        }),
{
    broadcast use vstd::seq_lib::group_to_multiset_ensures;

    let s = kept(stream, cap);
    let t = kept(stream.push(hit), cap);
    assert(stream.push(hit).drop_last() =~= stream);
    kept_are_nearest(stream, cap);
    lemma_kept_len(stream, cap);
    if stream.len() < cap {
        lemma_kept_all(stream.push(hit), cap);
    } else {
        assert(s.len() == cap);
        if s.len() > 0 {
            lemma_furthest(s);
        }
        assert forall|w: int|
            0 <= w < s.len() && hit.0 < (#[trigger] s[w]).0 && (forall|i: int|
                0 <= i < s.len() ==> (#[trigger] s[i]).0 <= s[w].0) && (forall|i: int|
                0 <= i < w ==> (#[trigger] s[i]).0 < s[w].0) implies t == s.update(w, hit) by {
            lemma_furthest_is(s, w);
        }
    }
}

} // verus!
