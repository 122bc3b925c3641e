//! From the body of a request to its score.
use vstd::prelude::*;

use crate::input::payload::{parse_payload, request_in};
use crate::input::section::{numbers_of, reads_numbers, Numbers};
use crate::normalizer::{features_of, has_times, DataNormalizer, Features};
use crate::tree::index::{answer, key_of, Point, TreeIndex, NUM_PARTS};
use crate::tree::kernel::{QVec, K};

verus! {

/// A timestamp of a request cannot be worked with.
#[derive(Clone, Copy, PartialEq, Eq, Structural, Debug)]
pub struct BadTime;

/// What `quantise` makes of features.
pub open spec fn vectors_of<Q: Fn(Features) -> QVec>(quantise: Q) -> spec_fn(Features) -> QVec {
    |f: Features| choose|q: QVec| #[trigger] quantise.ensures((f,), q)
}

/// Whether `quantise` can be asked for any features, and always gives the same
/// answer.
pub open spec fn quantises<Q: Fn(Features) -> QVec>(quantise: Q) -> bool {
    &&& forall|f: Features| #[trigger] quantise.requires((f,))
    &&& forall|f: Features, a: QVec, b: QVec|
        #[trigger] quantise.ensures((f,), a) && #[trigger] quantise.ensures((f,), b) ==> a == b
}

/// The point of features that are quantised as `q`.
pub open spec fn point_at(f: Features, q: QVec) -> Point {
    Point {
        q,
        card_present: f.card_present,
        is_online: f.is_online,
        has_last_tx: f.minutes_since_last is Some,
    }
}

/// The point of features that are quantised as `q`.
pub fn place(f: &Features, q: QVec) -> (p: Point)
    ensures
        p == point_at(*f, q),
{
    Point {
        q,
        card_present: f.card_present,
        is_online: f.is_online,
        has_last_tx: f.minutes_since_last.is_some(),
    }
}

/// Scores the body of a request: what the index answers for the point of its
/// features, or nothing where it is no request. `number_at` reads the number
/// with a fraction that starts at a position of the body, and `quantise` scales
/// and quantises features.
pub fn score<R: Fn(usize) -> Option<(u32, usize)>, Q: Fn(Features) -> QVec>(
    body: &[u8],
    number_at: &R,
    quantise: &Q,
    idx: &TreeIndex,
) -> (r: Result<Option<usize>, BadTime>)
    requires
        idx.wf(),
        reads_numbers(*number_at, body@.len()),
        quantises(*quantise),
    ensures
        match request_in(body@, numbers_of(*number_at)) {
            None => r == Ok::<Option<usize>, BadTime>(None),
            Some(req) => if has_times(req) {
                let f = features_of(req);
                r matches Ok(Some(n)) && n <= K && n == answer(
                    *idx,
                    point_at(f, vectors_of(*quantise)(f)),
                )
            } else {
                r is Err
            },
        },
{
    match parse_payload(body, number_at) {
        None => Ok(None),
        Some(data) => {
            if !DataNormalizer.accepts(&data) {
                return Err(BadTime);
            }
            let features = DataNormalizer.normalize(&data);
            let q = quantise(features);
            assert(quantise.ensures((features,), q));
            let point = place(&features, q);
            Ok(Some(idx.predict(&point)))
        },
    }
}

/// One for what holds, zero for what does not.
pub open spec fn bit(b: bool) -> int {
    if b {
        1
    } else {
        0
    }
}

/// A request is looked up in the partition of its card, its terminal and its
/// last transaction, however its features are quantised: one bit each for a
/// card that is present, a terminal that is online, and a last transaction.
pub proof fn requests_go_to_their_partition(s: Seq<u8>, nums: Numbers, q: QVec)
    requires
        request_in(s, nums) is Some,
    ensures
        ({
            let r = request_in(s, nums).unwrap();
            let key = key_of(point_at(features_of(r), q));
            &&& key == bit(r.card_present) + 2 * bit(r.is_online) + 4 * bit(
                r.last_timestamp is Some,
            )
            &&& 0 <= key < NUM_PARTS
            &&& r.last_timestamp is Some <==> r.last_km is Some
        }),
{
}

} // verus!
