//! Finding one byte sequence in another.
use vstd::prelude::*;

verus! {

/// Whether `needle` stands in `hay` at `i`.
pub open spec fn occurs_at(hay: Seq<u8>, needle: Seq<u8>, i: int) -> bool {
    0 <= i && i + needle.len() <= hay.len() && hay.subrange(i, i + needle.len()) == needle
}

/// Where `needle` first stands in `hay`.
#[verifier::opaque]
pub open spec fn first_in(hay: Seq<u8>, needle: Seq<u8>) -> Option<int> {
    if exists|i: int| #[trigger] occurs_at(hay, needle, i) {
        Some(
            choose|i: int| #[trigger]
                occurs_at(hay, needle, i) && forall|j: int| j < i ==> !#[trigger] occurs_at(
                    hay,
                    needle,
                    j,
                ),
        )
    } else {
        None
    }
}

/// An occurrence with none before it is the first.
pub proof fn lemma_first_in(hay: Seq<u8>, needle: Seq<u8>, i: int)
    requires
        occurs_at(hay, needle, i),
        forall|j: int| j < i ==> !#[trigger] occurs_at(hay, needle, j),
    ensures
        first_in(hay, needle) == Some(i),
{
    reveal(first_in);
    let k = choose|k: int| #[trigger]
        occurs_at(hay, needle, k) && forall|j: int| j < k ==> !#[trigger] occurs_at(
            hay,
            needle,
            j,
        );
    if k < i {
        assert(!occurs_at(hay, needle, k));
    } else if i < k {
        assert(!occurs_at(hay, needle, i));
    }
}

/// Where something occurs there is a first occurrence.
proof fn lemma_some_first(hay: Seq<u8>, needle: Seq<u8>, i: int) -> (f: int)
    requires
        occurs_at(hay, needle, i),
    ensures
        f <= i,
        occurs_at(hay, needle, f),
        forall|j: int| j < f ==> !#[trigger] occurs_at(hay, needle, j),
    decreases i,
{
    if exists|j: int| j < i && #[trigger] occurs_at(hay, needle, j) {
        let j = choose|j: int| j < i && #[trigger] occurs_at(hay, needle, j);
        lemma_some_first(hay, needle, j)
    } else {
        i
    }
}

/// What is found in a sequence is found in a longer one, at the same place.
pub proof fn lemma_first_in_longer(hay: Seq<u8>, more: Seq<u8>, needle: Seq<u8>)
    requires
        first_in(hay, needle) is Some,
    ensures
        first_in(hay + more, needle) == first_in(hay, needle),
        first_in(hay, needle) matches Some(i) ==> 0 <= i && i + needle.len() <= hay.len(),
{
    reveal(first_in);
    let all = hay + more;
    let k = choose|k: int| #[trigger] occurs_at(hay, needle, k);
    let i = lemma_some_first(hay, needle, k);
    lemma_first_in(hay, needle, i);
    assert(all.subrange(i, i + needle.len()) =~= hay.subrange(i, i + needle.len()));
    assert(occurs_at(all, needle, i));
    assert forall|j: int| j < i implies !#[trigger] occurs_at(all, needle, j) by {
        if occurs_at(all, needle, j) {
            assert(all.subrange(j, j + needle.len()) =~= hay.subrange(j, j + needle.len()));
            assert(occurs_at(hay, needle, j));
        }
    }
    lemma_first_in(all, needle, i);
}

/// Where `needle` first stands in `hay`.
///
/// Trusted: `memchr::memmem::find` gives the index of the first occurrence, or
/// nothing where there is none.
#[verifier::external_body]
pub(crate) fn find(hay: &[u8], needle: &[u8]) -> (r: Option<usize>)
    ensures
        r matches Some(i) ==> occurs_at(hay@, needle@, i as int),
        r matches Some(i) ==> forall|j: int| j < i ==> !#[trigger] occurs_at(hay@, needle@, j),
        r is None ==> forall|j: int| !#[trigger] occurs_at(hay@, needle@, j),
{
    memchr::memmem::find(hay, needle)
}

/// Where `needle` first stands in `hay`.
pub fn find_first(hay: &[u8], needle: &[u8]) -> (r: Option<usize>)
    ensures
        first_in(hay@, needle@) == match r {
            Some(i) => Some(i as int),
            None => None,
        },
        r matches Some(i) ==> i + needle@.len() <= hay@.len(),
{
    let r = find(hay, needle);
    proof {
        reveal(first_in);
        match r {
            Some(i) => {
                lemma_first_in(hay@, needle@, i as int);
            },
            None => {},
        }
    }
    r
}

} // verus!
