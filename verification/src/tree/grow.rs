//! Building the tree of one partition.
use vstd::prelude::*;

use crate::tree::kernel::{
    in_box, lane_vec, sq_dist, sq_dist_to, QVec, BLOCK, DIMS, LANES,
};
use crate::tree::model::{
    blocks, box_ok, children_ok, ends, entries, height, leaf_entries, leaf_entry, lemma_ends_join,
    nested, node_ok, Entry, Node,
};

verus! {

/// A quantised record: its vector and its label.
pub type Row = (QVec, u8);

/// A record as an entry: its vector without the padding, and its label.
pub open spec fn plain(row: Row) -> Entry {
    (row.0@.take(DIMS as int), row.1)
}

/// Records as entries.
pub open spec fn plain_all(rows: Seq<Row>) -> Seq<Entry> {
    rows.map_values(|r: Row| plain(r))
}

/// The least value of feature `d` over the first `n` records.
pub open spec fn low(rows: Seq<Row>, n: nat, d: int) -> i16
    decreases n,
{
    if n == 0 {
        i16::MAX
    } else {
        let rest = low(rows, (n - 1) as nat, d);
        if rows[n - 1].0[d] < rest {
            rows[n - 1].0[d]
        } else {
            rest
        }
    }
}

/// The greatest value of feature `d` over the first `n` records.
pub open spec fn high(rows: Seq<Row>, n: nat, d: int) -> i16
    decreases n,
{
    if n == 0 {
        i16::MIN
    } else {
        let rest = high(rows, (n - 1) as nat, d);
        if rows[n - 1].0[d] > rest {
            rows[n - 1].0[d]
        } else {
            rest
        }
    }
}

/// Whether `min` and `max` are the corners of the smallest box around the
/// records. The padding stays zero.
pub open spec fn is_bbox(rows: Seq<Row>, min: QVec, max: QVec) -> bool {
    &&& forall|d: int| 0 <= d < DIMS ==> #[trigger] min[d] == low(rows, rows.len(), d)
    &&& forall|d: int| 0 <= d < DIMS ==> #[trigger] max[d] == high(rows, rows.len(), d)
    &&& forall|d: int| DIMS <= d < 16 ==> #[trigger] min[d] == 0
    &&& forall|d: int| DIMS <= d < 16 ==> #[trigger] max[d] == 0
}

/// The corners are reached by some record and passed by none.
pub proof fn lemma_corners(rows: Seq<Row>, n: nat, d: int)
    requires
        n <= rows.len(),
        0 <= d < DIMS,
    ensures
        forall|i: int|
            0 <= i < n ==> low(rows, n, d) <= (#[trigger] rows[i]).0[d] <= high(rows, n, d),
        n > 0 ==> exists|i: int| 0 <= i < n && (#[trigger] rows[i]).0[d] == low(rows, n, d),
        n > 0 ==> exists|i: int| 0 <= i < n && (#[trigger] rows[i]).0[d] == high(rows, n, d),
    decreases n,
{
    if n > 0 {
        lemma_corners(rows, (n - 1) as nat, d);
        if n == 1 {
            assert(low(rows, 0, d) == i16::MAX);
            assert(high(rows, 0, d) == i16::MIN);
            assert(rows[0].0[d] == low(rows, n, d));
            assert(rows[0].0[d] == high(rows, n, d));
        }
    }
}

/// The smallest box around the records of `slice`.
pub fn compute_bbox(slice: &[Row]) -> (corners: (QVec, QVec))
    ensures
        is_bbox(slice@, corners.0, corners.1),
{
    let mut mn: QVec = [i16::MAX;16];
    let mut mx: QVec = [i16::MIN;16];
    let mut i: usize = 0;
    while i < slice.len()
        invariant
            i <= slice@.len(),
            forall|d: int| 0 <= d < DIMS ==> #[trigger] mn[d] == low(slice@, i as nat, d),
            forall|d: int| 0 <= d < DIMS ==> #[trigger] mx[d] == high(slice@, i as nat, d),
        decreases slice@.len() - i,
    {
        let mut d: usize = 0;
        while d < DIMS
            invariant
                i < slice@.len(),
                d <= DIMS,
                forall|e: int|
                    0 <= e < DIMS ==> #[trigger] mn[e] == low(
                        slice@,
                        if e < d {
                            (i + 1) as nat
                        } else {
                            i as nat
                        },
                        e,
                    ),
                forall|e: int|
                    0 <= e < DIMS ==> #[trigger] mx[e] == high(
                        slice@,
                        if e < d {
                            (i + 1) as nat
                        } else {
                            i as nat
                        },
                        e,
                    ),
            decreases DIMS - d,
        {
            let v = slice[i].0[d];
            if v < mn[d] {
                mn[d] = v;
            }
            if v > mx[d] {
                mx[d] = v;
            }
            d = d + 1;
        }
        i = i + 1;
    }
    mn[14] = 0;
    mn[15] = 0;
    mx[14] = 0;
    mx[15] = 0;
    (mn, mx)
}

/// The sum of feature `d` over the first `n` records.
pub open spec fn total(rows: Seq<Row>, n: nat, d: int) -> int
    decreases n,
{
    if n == 0 {
        0
    } else {
        total(rows, (n - 1) as nat, d) + rows[n - 1].0[d]
    }
}

/// The sum of the squares of feature `d` over the first `n` records.
pub open spec fn total_sq(rows: Seq<Row>, n: nat, d: int) -> int
    decreases n,
{
    if n == 0 {
        0
    } else {
        total_sq(rows, (n - 1) as nat, d) + rows[n - 1].0[d] * rows[n - 1].0[d]
    }
}

/// The variance of feature `d`, times the square of the number of records:
/// `n` times the sum of squares, less the square of the sum.
pub open spec fn spread(rows: Seq<Row>, d: int) -> int {
    rows.len() * total_sq(rows, rows.len(), d) - total(rows, rows.len(), d) * total(
        rows,
        rows.len(),
        d,
    )
}

proof fn lemma_i16_square(x: int)
    by (nonlinear_arith)
    requires
        -32768 <= x <= 32767,
    ensures
        0 <= x * x <= 1073741824,
{
}

proof fn lemma_spread_fits(n: int, sum: int, sq: int)
    by (nonlinear_arith)
    requires
        0 <= n <= 0xffff_ffff,
        -32768 * n <= sum <= 32768 * n,
        0 <= sq <= 1073741824 * n,
    ensures
        0 <= n * sq <= 0x4000_0000_0000_0000_0000_0000,
        0 <= sum * sum <= 0x4000_0000_0000_0000_0000_0000,
{
}

/// The spread of feature `d`.
fn spread_of(slice: &[Row], d: usize) -> (s: i128)
    requires
        slice@.len() <= u32::MAX,
        d < DIMS,
    ensures
        s == spread(slice@, d as int),
{
    let n: usize = slice.len();
    let mut sum: i64 = 0;
    let mut sq: i64 = 0;
    let mut i: usize = 0;
    while i < n
        invariant
            n == slice@.len(),
            n <= u32::MAX,
            d < DIMS,
            i <= n,
            sum == total(slice@, i as nat, d as int),
            sq == total_sq(slice@, i as nat, d as int),
            -32768 * i <= sum <= 32768 * i,
            0 <= sq <= 1073741824 * i,
        decreases n - i,
    {
        let x = slice[i].0[d] as i64;
        proof {
            lemma_i16_square(x as int);
        }
        sum = sum + x;
        sq = sq + x * x;
        i = i + 1;
    }
    proof {
        lemma_spread_fits(n as int, sum as int, sq as int);
    }
    (n as i128) * (sq as i128) - (sum as i128) * (sum as i128)
}

/// The feature with the highest variance over `slice`; the first of several.
pub fn max_variance_dim(slice: &[Row]) -> (best: usize)
    requires
        slice@.len() <= u32::MAX,
    ensures
        best < DIMS,
        widest(slice@, best as int),
{
    let mut best: usize = 0;
    let mut top: i128 = spread_of(slice, 0);
    let mut d: usize = 1;
    while d < DIMS
        invariant
            slice@.len() <= u32::MAX,
            1 <= d <= DIMS,
            best < d,
            top == spread(slice@, best as int),
            forall|e: int| 0 <= e < d ==> spread(slice@, e) <= top,
            forall|e: int| 0 <= e < best ==> spread(slice@, e) < top,
        decreases DIMS - d,
    {
        let var = spread_of(slice, d);
        if var > top {
            best = d;
            top = var;
        }
        d = d + 1;
    }
    best
}

/// The value at `k` of the packed blocks: block after block, feature after
/// feature, lane after lane. Lanes past the last record are zero.
pub open spec fn packed_value(rows: Seq<Row>, k: int) -> i16 {
    let d = k % BLOCK as int / LANES as int;
    let i = k / BLOCK as int * LANES + k % LANES as int;
    if i < rows.len() {
        rows[i].0[d]
    } else {
        0
    }
}

/// The records packed into blocks.
pub open spec fn packed(rows: Seq<Row>) -> Seq<i16> {
    Seq::new((blocks(rows.len() as int) * BLOCK) as nat, |k: int| packed_value(rows, k))
}

/// The labels packed into blocks. Lanes past the last record are zero.
pub open spec fn packed_labels(rows: Seq<Row>) -> Seq<u8> {
    Seq::new(
        (blocks(rows.len() as int) * LANES) as nat,
        |i: int|
            if i < rows.len() {
                rows[i].1
            } else {
                0
            },
    )
}

/// Where the values of a record lie in the packed blocks.
proof fn lemma_packed_at(rows: Seq<Row>, b: int, d: int, lane: int)
    requires
        0 <= b < blocks(rows.len() as int),
        0 <= d < DIMS,
        0 <= lane < LANES,
    ensures
        ({
            let k = b * BLOCK + d * LANES + lane;
            let i = b * LANES + lane;
            &&& 0 <= k < packed(rows).len()
            &&& packed(rows)[k] == if i < rows.len() {
                rows[i].0[d]
            } else {
                0
            }
        }),
{
    let k = b * 112 + d * 8 + lane;
    assert(k / 112 == b);
    assert(k % 112 == d * 8 + lane);
    assert((d * 8 + lane) / 8 == d);
    assert(k == 8 * (14 * b + d) + lane);
    assert(k % 8 == lane);
    assert(packed(rows)[k] == packed_value(rows, k));
}

/// The lanes of packed blocks are the records, without their padding, so that
/// the distances to a block are those to its records.
pub proof fn lanes_are_the_records(rows: Seq<Row>, b: int, lane: int)
    requires
        0 <= b,
        0 <= lane < LANES,
        b * LANES + lane < rows.len(),
    ensures
        (b + 1) * BLOCK <= packed(rows).len(),
        lane_vec(packed(rows), b * BLOCK, lane) == rows[b * LANES + lane].0@.take(DIMS as int),
        forall|q: Seq<i16>| #[trigger]
            sq_dist(q, lane_vec(packed(rows), b * BLOCK, lane)) == sq_dist(
                q,
                rows[b * LANES + lane].0@,
            ),
{
    let got = lane_vec(packed(rows), b * BLOCK, lane);
    let want = rows[b * LANES + lane].0@.take(DIMS as int);
    assert(b < blocks(rows.len() as int));
    assert forall|d: int| 0 <= d < DIMS implies got[d] == want[d] by {
        lemma_packed_at(rows, b, d, lane);
    }
    assert(got =~= want);
    assert forall|q: Seq<i16>| #[trigger] sq_dist(q, got) == sq_dist(
        q,
        rows[b * LANES + lane].0@,
    ) by {
        lemma_dist_of_part(q, rows[b * LANES + lane].0@, DIMS as nat);
    }
}

/// A distance goes by the features alone.
proof fn lemma_dist_of_part(q: Seq<i16>, v: Seq<i16>, n: nat)
    requires
        n <= DIMS <= v.len(),
    ensures
        sq_dist_to(q, v.take(DIMS as int), n) == sq_dist_to(q, v, n),
    decreases n,
{
    if n > 0 {
        lemma_dist_of_part(q, v, (n - 1) as nat);
    }
}

/// Packs `slice` into blocks and appends them to `vectors` and `labels`.
pub fn pack_soa(slice: &[Row], vectors: &mut Vec<i16>, labels: &mut Vec<u8>)
    ensures
        final(vectors)@ == old(vectors)@ + packed(slice@),
        final(labels)@ == old(labels)@ + packed_labels(slice@),
{
    let n: usize = slice.len();
    let num_blocks: usize = if n % LANES == 0 {
        n / LANES
    } else {
        n / LANES + 1
    };
    let ghost v0 = vectors@;
    let ghost l0 = labels@;
    let ghost pv = packed(slice@);
    let ghost pl = packed_labels(slice@);
    assert(num_blocks == blocks(n as int));
    let mut b: usize = 0;
    assert(vectors@ =~= v0 + pv.take(0));
    assert(labels@ =~= l0 + pl.take(0));
    while b < num_blocks
        invariant
            n == slice@.len(),
            b <= num_blocks,
            num_blocks == blocks(n as int),
            pv == packed(slice@),
            pl == packed_labels(slice@),
            vectors@ == v0 + pv.take(b * BLOCK),
            labels@ == l0 + pl.take(b * LANES),
        decreases num_blocks - b,
    {
        let mut d: usize = 0;
        while d < DIMS
            invariant
                n == slice@.len(),
                b < num_blocks,
                num_blocks == blocks(n as int),
                d <= DIMS,
                pv == packed(slice@),
                vectors@ == v0 + pv.take(b * BLOCK + d * LANES),
            decreases DIMS - d,
        {
            let mut lane: usize = 0;
            while lane < LANES
                invariant
                    n == slice@.len(),
                    b < num_blocks,
                    num_blocks == blocks(n as int),
                    d < DIMS,
                    lane <= LANES,
                    pv == packed(slice@),
                    vectors@ == v0 + pv.take(b * BLOCK + d * LANES + lane),
                decreases LANES - lane,
            {
                let base = b * LANES;
                let ghost k = b * BLOCK + d * LANES + lane;
                let v: i16 = if lane < n - base {
                    slice[base + lane].0[d]
                } else {
                    0
                };
                vectors.push(v);
                proof {
                    lemma_packed_at(slice@, b as int, d as int, lane as int);
                    assert(pv.take(k + 1) =~= pv.take(k).push(v));
                }
                lane = lane + 1;
            }
            d = d + 1;
        }
        let mut lane: usize = 0;
        while lane < LANES
            invariant
                n == slice@.len(),
                b < num_blocks,
                num_blocks == blocks(n as int),
                lane <= LANES,
                pl == packed_labels(slice@),
                labels@ == l0 + pl.take(b * LANES + lane),
            decreases LANES - lane,
        {
            let base = b * LANES;
            let ghost idx = b * LANES + lane;
            let v: u8 = if lane < n - base {
                slice[base + lane].1
            } else {
                0
            };
            labels.push(v);
            assert(pl[idx] == v);
            assert(pl.take(idx + 1) =~= pl.take(idx).push(v));
            lane = lane + 1;
        }
        b = b + 1;
    }
    assert(pv.take(b * BLOCK) =~= pv);
    assert(pl.take(b * LANES) =~= pl);
}

/// The most records that a leaf holds.
pub const LEAF_SIZE: usize = 64;

/// Levels below the node that `n` records grow into.
pub open spec fn levels(n: int) -> nat
    decreases n,
{
    if n <= LEAF_SIZE {
        0
    } else {
        1 + levels(n - n / 2)
    }
}

/// The most nodes that `n` records grow into: a split leaves at least half a
/// leaf on either side.
pub open spec fn node_cap(n: int) -> int {
    if n < 32 {
        1
    } else {
        n / 16 - 1
    }
}

/// Nodes that `n` records grow into.
pub open spec fn node_count(n: int) -> int
    decreases n,
{
    if n <= LEAF_SIZE {
        1
    } else {
        1 + node_count(n / 2) + node_count(n - n / 2)
    }
}

/// Blocks that `n` records take up in the leaves they grow into.
pub open spec fn block_count(n: int) -> int
    decreases n,
{
    if n <= LEAF_SIZE {
        blocks(n)
    } else {
        block_count(n / 2) + block_count(n - n / 2)
    }
}

/// Whether feature `d` has the highest variance; of several it is the first.
pub open spec fn widest(rows: Seq<Row>, d: int) -> bool {
    &&& 0 <= d < DIMS
    &&& forall|e: int| 0 <= e < DIMS ==> #[trigger] spread(rows, e) <= spread(rows, d)
    &&& forall|e: int| 0 <= e < d ==> #[trigger] spread(rows, e) < spread(rows, d)
}

/// Whether feature `d` of the first `mid` records is nowhere above that of the
/// others.
pub open spec fn parted(rows: Seq<Row>, mid: int, d: int) -> bool {
    forall|i: int, j: int|
        0 <= i < mid <= j < rows.len() ==> (#[trigger] rows[i]).0[d] <= (#[trigger] rows[j]).0[d]
}

/// Whether node `at` is the root of the tree of `rows`, which stand in the order
/// of its leaves. The blocks of the leaves follow each other from `block` on, and
/// the nodes of a subtree follow its root, those on the left first. Each node has
/// the smallest box around its records. Up to `LEAF_SIZE` records make a leaf;
/// more are halved by the feature that varies most.
pub open spec fn shaped(rows: Seq<Row>, nodes: Seq<Node>, at: int, block: int) -> bool
    decreases rows.len(),
{
    let n = rows.len() as int;
    let mid = n / 2;
    &&& 0 <= at < nodes.len()
    &&& is_bbox(rows, nodes[at].min, nodes[at].max)
    &&& if n <= LEAF_SIZE {
        &&& nodes[at].left == -1
        &&& nodes[at].right == -1
        &&& nodes[at].start == block
        &&& nodes[at].count == n
    } else {
        &&& nodes[at].left == at + 1
        &&& nodes[at].right == at + 1 + node_count(mid)
        &&& nodes[at].start == 0
        &&& nodes[at].count == 0
        &&& exists|d: int| #[trigger] widest(rows, d) && parted(rows, mid, d)
        &&& shaped(rows.take(mid), nodes, at + 1, block)
        &&& shaped(
            rows.skip(mid),
            nodes,
            at + 1 + node_count(mid),
            block + block_count(mid),
        )
    }
}

/// The packed blocks of the leaves that records grow into, in order.
pub open spec fn laid(rows: Seq<Row>) -> Seq<i16>
    decreases rows.len(),
{
    if rows.len() <= LEAF_SIZE {
        packed(rows)
    } else {
        laid(rows.take(rows.len() as int / 2)) + laid(rows.skip(rows.len() as int / 2))
    }
}

/// The packed labels of the leaves that records grow into, in order.
pub open spec fn laid_labels(rows: Seq<Row>) -> Seq<u8>
    decreases rows.len(),
{
    if rows.len() <= LEAF_SIZE {
        packed_labels(rows)
    } else {
        laid_labels(rows.take(rows.len() as int / 2)) + laid_labels(
            rows.skip(rows.len() as int / 2),
        )
    }
}

/// The records that the leaves among the nodes from `a` to `b` own.
pub open spec fn leaf_sum(nodes: Seq<Node>, a: int, b: int) -> int
    decreases b - a,
{
    if b <= a {
        0
    } else {
        leaf_sum(nodes, a, b - 1) + if nodes[b - 1].left < 0 {
            nodes[b - 1].count as int
        } else {
            0
        }
    }
}

pub proof fn lemma_leaf_sum_split(nodes: Seq<Node>, a: int, m: int, b: int)
    requires
        a <= m <= b,
    ensures
        leaf_sum(nodes, a, b) == leaf_sum(nodes, a, m) + leaf_sum(nodes, m, b),
    decreases b - m,
{
    if m < b {
        lemma_leaf_sum_split(nodes, a, m, b - 1);
    }
}

pub proof fn lemma_node_count(n: int)
    ensures
        node_count(n) >= 1,
    decreases n,
{
    if n > LEAF_SIZE {
        lemma_node_count(n / 2);
        lemma_node_count(n - n / 2);
    }
}

/// The leaves of a tree own its records, no more and no less.
pub proof fn lemma_leaves_own_the_records(rows: Seq<Row>, nodes: Seq<Node>, at: int, block: int)
    requires
        shaped(rows, nodes, at, block),
    ensures
        leaf_sum(nodes, at, at + node_count(rows.len() as int)) == rows.len(),
    decreases rows.len(),
{
    let n = rows.len() as int;
    if n <= LEAF_SIZE {
        assert(leaf_sum(nodes, at, at) == 0);
    } else {
        let mid = n / 2;
        let r = at + 1 + node_count(mid);
        lemma_node_count(mid);
        lemma_node_count(n - mid);
        lemma_leaves_own_the_records(rows.take(mid), nodes, at + 1, block);
        lemma_leaves_own_the_records(rows.skip(mid), nodes, r, block + block_count(mid));
        lemma_leaf_sum_split(nodes, at, at + 1, r);
        lemma_leaf_sum_split(nodes, at, r, r + node_count(n - mid));
        assert(leaf_sum(nodes, at, at) == 0);
        assert(leaf_sum(nodes, at, at + 1) == 0);
    }
}

/// What is laid out takes whole blocks.
pub proof fn lemma_laid_len(rows: Seq<Row>)
    ensures
        laid(rows).len() == block_count(rows.len() as int) * BLOCK,
        laid_labels(rows).len() == block_count(rows.len() as int) * LANES,
        block_count(rows.len() as int) >= 0,
    decreases rows.len(),
{
    if rows.len() > LEAF_SIZE {
        let mid = rows.len() as int / 2;
        lemma_laid_len(rows.take(mid));
        lemma_laid_len(rows.skip(mid));
    }
}

/// A tree stays what it is as long as its nodes do.
proof fn lemma_shaped_same(rows: Seq<Row>, a: Seq<Node>, b: Seq<Node>, at: int, block: int)
    requires
        shaped(rows, a, at, block),
        at + node_count(rows.len() as int) <= b.len(),
        forall|i: int| at <= i < at + node_count(rows.len() as int) ==> a[i] == #[trigger] b[i],
    ensures
        shaped(rows, b, at, block),
    decreases rows.len(),
{
    let n = rows.len() as int;
    lemma_node_count(n);
    assert(a[at] == b[at]);
    if n > LEAF_SIZE {
        let mid = n / 2;
        lemma_node_count(mid);
        lemma_node_count(n - mid);
        lemma_shaped_same(rows.take(mid), a, b, at + 1, block);
        lemma_shaped_same(
            rows.skip(mid),
            a,
            b,
            at + 1 + node_count(mid),
            block + block_count(mid),
        );
    }
}

/// Sums do not depend on the order of the records.
proof fn lemma_totals_without(rows: Seq<Row>, j: int, d: int)
    requires
        0 <= j < rows.len(),
    ensures
        total(rows, rows.len(), d) == total(rows.remove(j), (rows.len() - 1) as nat, d)
            + rows[j].0[d],
        total_sq(rows, rows.len(), d) == total_sq(rows.remove(j), (rows.len() - 1) as nat, d)
            + rows[j].0[d] * rows[j].0[d],
    decreases rows.len(),
{
    let n = rows.len();
    lemma_totals_of_front(rows, rows.drop_last(), (n - 1) as nat, d);
    if j < n - 1 {
        lemma_totals_without(rows.drop_last(), j, d);
        let less = rows.remove(j);
        assert(less.drop_last() =~= rows.drop_last().remove(j));
        lemma_totals_of_front(less, less.drop_last(), (n - 2) as nat, d);
        assert(less[n - 2] == rows[n - 1]);
    } else {
        assert(rows.remove(j) =~= rows.drop_last());
    }
}

proof fn lemma_totals_of_front(a: Seq<Row>, b: Seq<Row>, n: nat, d: int)
    requires
        n <= a.len(),
        n <= b.len(),
        forall|i: int| 0 <= i < n ==> a[i] == #[trigger] b[i],
    ensures
        total(a, n, d) == total(b, n, d),
        total_sq(a, n, d) == total_sq(b, n, d),
    decreases n,
{
    if n > 0 {
        lemma_totals_of_front(a, b, (n - 1) as nat, d);
        assert(a[n - 1] == b[n - 1]);
    }
}

proof fn lemma_totals_permuted(a: Seq<Row>, b: Seq<Row>, d: int)
    requires
        a.to_multiset() == b.to_multiset(),
    ensures
        a.len() == b.len(),
        total(a, a.len(), d) == total(b, b.len(), d),
        total_sq(a, a.len(), d) == total_sq(b, b.len(), d),
    decreases a.len(),
{
    broadcast use vstd::seq_lib::group_to_multiset_ensures;

    assert(a.to_multiset().len() == a.len());
    assert(b.to_multiset().len() == b.len());
    if a.len() > 0 {
        let r = a.last();
        assert(a.contains(r));
        assert(b.to_multiset().count(r) > 0);
        let j = choose|j: int| 0 <= j < b.len() && b[j] == r;
        lemma_totals_permuted(a.remove(a.len() - 1), b.remove(j), d);
        lemma_totals_without(a, a.len() - 1, d);
        lemma_totals_without(b, j, d);
    }
}

/// Which feature varies most does not depend on the order of the records.
proof fn lemma_widest_permuted(a: Seq<Row>, b: Seq<Row>, d: int)
    requires
        a.to_multiset() == b.to_multiset(),
        widest(a, d),
    ensures
        widest(b, d),
{
    assert forall|e: int| #[trigger] spread(b, e) == spread(a, e) by {
        lemma_totals_permuted(a, b, e);
    }
}

/// The smallest box does not depend on the order of the records.
proof fn lemma_bbox_permuted(a: Seq<Row>, b: Seq<Row>, min: QVec, max: QVec)
    requires
        a.to_multiset() == b.to_multiset(),
        is_bbox(a, min, max),
    ensures
        is_bbox(b, min, max),
{
    broadcast use vstd::seq_lib::group_to_multiset_ensures;

    assert(a.to_multiset().len() == a.len());
    assert(b.to_multiset().len() == b.len());
    assert forall|d: int| 0 <= d < DIMS implies low(b, b.len(), d) == low(a, a.len(), d) && high(
        b,
        b.len(),
        d,
    ) == high(a, a.len(), d) by {
        lemma_corners(a, a.len(), d);
        lemma_corners(b, b.len(), d);
        if a.len() > 0 {
            lemma_corner_held(a, b, d);
            lemma_corner_held(b, a, d);
        }
    }
    assert forall|d: int| 0 <= d < DIMS implies #[trigger] min[d] == low(b, b.len(), d) by {
        assert(min[d] == low(a, a.len(), d));
    }
    assert forall|d: int| 0 <= d < DIMS implies #[trigger] max[d] == high(b, b.len(), d) by {
        assert(max[d] == high(a, a.len(), d));
    }
}

proof fn lemma_corner_held(a: Seq<Row>, b: Seq<Row>, d: int)
    requires
        a.to_multiset() == b.to_multiset(),
        a.len() > 0,
        0 <= d < DIMS,
    ensures
        low(b, b.len(), d) <= low(a, a.len(), d),
        high(a, a.len(), d) <= high(b, b.len(), d),
{
    broadcast use vstd::seq_lib::group_to_multiset_ensures;

    lemma_corners(a, a.len(), d);
    lemma_corners(b, b.len(), d);
    let i = choose|i: int| 0 <= i < a.len() && (#[trigger] a[i]).0[d] == low(a, a.len(), d);
    assert(a.contains(a[i]));
    assert(b.to_multiset().count(a[i]) > 0);
    assert(b.contains(a[i]));
    let k = choose|k: int| 0 <= k < a.len() && (#[trigger] a[k]).0[d] == high(a, a.len(), d);
    assert(a.contains(a[k]));
    assert(b.to_multiset().count(a[k]) > 0);
    assert(b.contains(a[k]));
}

/// Halves that are each reordered are still parted.
proof fn lemma_parted_permuted(rows: Seq<Row>, lo: Seq<Row>, hi: Seq<Row>, mid: int, d: int)
    requires
        0 <= mid < rows.len(),
        split_at(rows, mid, d),
        lo.to_multiset() == rows.take(mid).to_multiset(),
        hi.to_multiset() == rows.skip(mid).to_multiset(),
        lo.len() == mid,
    ensures
        parted(lo + hi, mid, d),
{
    broadcast use vstd::seq_lib::group_to_multiset_ensures;

    let all = lo + hi;
    assert forall|i: int, j: int| 0 <= i < mid <= j < all.len() implies (#[trigger] all[i]).0[d]
        <= (#[trigger] all[j]).0[d] by {
        assert(lo.contains(lo[i]));
        assert(rows.take(mid).to_multiset().count(lo[i]) > 0);
        assert(rows.take(mid).contains(lo[i]));
        let a = choose|a: int| 0 <= a < mid && rows.take(mid)[a] == lo[i];
        assert(rows[a] == lo[i]);
        assert(hi.contains(hi[j - mid]));
        assert(rows.skip(mid).to_multiset().count(hi[j - mid]) > 0);
        assert(rows.skip(mid).contains(hi[j - mid]));
        let b = choose|b: int|
            0 <= b < rows.skip(mid).len() && rows.skip(mid)[b] == hi[j - mid];
        assert(rows[mid + b] == hi[j - mid]);
    }
}

/// Whether the children of an inner node lie behind it.
pub open spec fn behind(nodes: Seq<Node>, i: int) -> bool {
    nodes[i].left >= 0 ==> i < nodes[i].left < nodes.len() && i < nodes[i].right < nodes.len()
}

/// Whether every node from `from` on points only at what is there and behind it,
/// and has a box that holds what lies below it.
pub open spec fn sound_from(
    nodes: Seq<Node>,
    vectors: Seq<i16>,
    labels: Seq<u8>,
    from: int,
) -> bool {
    &&& forall|i: int|
        from <= i < nodes.len() ==> #[trigger] node_ok(nodes, vectors.len(), labels.len(), i)
    &&& forall|i: int|
        from <= i < nodes.len() ==> #[trigger] box_ok(nodes, vectors, labels, i)
    &&& forall|i: int| from <= i < nodes.len() ==> #[trigger] behind(nodes, i)
}

/// Whether `b` starts with `a`.
pub open spec fn extends<T>(a: Seq<T>, b: Seq<T>) -> bool {
    &&& a.len() <= b.len()
    &&& forall|i: int| 0 <= i < a.len() ==> a[i] == #[trigger] b[i]
}

proof fn lemma_packed_entry(
    v0: Seq<i16>,
    l0: Seq<u8>,
    rows: Seq<Row>,
    start: int,
    i: int,
)
    requires
        0 <= start,
        v0.len() == start * BLOCK,
        l0.len() == start * LANES,
        0 <= i < rows.len(),
    ensures
        leaf_entry(v0 + packed(rows), l0 + packed_labels(rows), start, i) == plain(rows[i]),
{
    let v = v0 + packed(rows);
    let b = i / LANES as int;
    let lane = i % LANES as int;
    let got = lane_vec(v, (start + b) * BLOCK, lane);
    let want = rows[i].0@.take(DIMS as int);
    assert(b + 1 <= blocks(rows.len() as int));
    assert forall|d: int| 0 <= d < DIMS implies got[d] == want[d] by {
        let k = b * BLOCK + d * LANES + lane;
        assert((start + b) * BLOCK + d * LANES + lane == v0.len() + k);
        assert(k < packed(rows).len());
        assert(k / BLOCK as int == b);
        assert(k % BLOCK as int == d * LANES + lane);
        assert(k % LANES as int == lane);
        assert(packed(rows)[k] == rows[i].0[d]);
    }
    assert(got =~= want);
    assert(i < packed_labels(rows).len());
}

proof fn lemma_row_in_bbox(rows: Seq<Row>, min: QVec, max: QVec, i: int)
    requires
        is_bbox(rows, min, max),
        0 <= i < rows.len(),
    ensures
        in_box(plain(rows[i]).0, min@, max@),
{
    assert forall|d: int| 0 <= d < DIMS implies min@[d] <= #[trigger] plain(rows[i]).0[d]
        <= max@[d] by {
        lemma_corners(rows, rows.len(), d);
        assert(min[d] == low(rows, rows.len(), d));
        assert(max[d] == high(rows, rows.len(), d));
        assert(rows[i].0[d] == plain(rows[i]).0[d]);
    }
}

/// The smallest box around some of the records lies in the box around all.
proof fn lemma_bbox_nested(outer: Node, rows: Seq<Row>, inner: Node, some: Seq<Row>)
    requires
        is_bbox(rows, outer.min, outer.max),
        is_bbox(some, inner.min, inner.max),
        some.len() > 0,
        forall|i: int| 0 <= i < some.len() ==> rows.contains(#[trigger] some[i]),
    ensures
        nested(outer, inner),
{
    assert forall|d: int| 0 <= d < DIMS implies #[trigger] outer.min[d] <= inner.min[d]
        && inner.max[d] <= outer.max[d] by {
        lemma_corners(rows, rows.len(), d);
        lemma_corners(some, some.len(), d);
        assert(outer.max[d] == high(rows, rows.len(), d));
        assert(inner.min[d] == low(some, some.len(), d));
        assert(inner.max[d] == high(some, some.len(), d));
        let a = choose|i: int|
            0 <= i < some.len() && (#[trigger] some[i]).0[d] == low(some, some.len(), d);
        let b = choose|i: int|
            0 <= i < some.len() && (#[trigger] some[i]).0[d] == high(some, some.len(), d);
        assert(rows.contains(some[a]));
        assert(rows.contains(some[b]));
        let a2 = choose|i: int| 0 <= i < rows.len() && rows[i] == some[a];
        let b2 = choose|i: int| 0 <= i < rows.len() && rows[i] == some[b];
        assert(rows[a2].0[d] == inner.min[d]);
        assert(rows[b2].0[d] == inner.max[d]);
    }
}

/// A subtree stays what it is when nodes, blocks and labels are appended.
proof fn lemma_extended(
    n0: Seq<Node>,
    v0: Seq<i16>,
    l0: Seq<u8>,
    n1: Seq<Node>,
    v1: Seq<i16>,
    l1: Seq<u8>,
    from: int,
    i: int,
)
    requires
        0 <= from <= i < n0.len() <= n1.len(),
        sound_from(n0, v0, l0, from),
        forall|j: int| from <= j < n0.len() ==> n0[j] == #[trigger] n1[j],
        extends(v0, v1),
        extends(l0, l1),
    ensures
        entries(n1, v1, l1, i) == entries(n0, v0, l0, i),
        height(n1, i) == height(n0, i),
        node_ok(n1, v1.len(), l1.len(), i),
        box_ok(n1, v1, l1, i),
        behind(n1, i),
        ends(n1, i),
    decreases n0.len() - i,
{
    assert(node_ok(n0, v0.len(), l0.len(), i));
    assert(box_ok(n0, v0, l0, i));
    assert(behind(n0, i));
    assert(n0[i] == n1[i]);
    if n0[i].left < 0 {
        let start = n0[i].start as int;
        let count = n0[i].count as int;
        assert forall|j: int| 0 <= j < count implies #[trigger] leaf_entry(v1, l1, start, j)
            == leaf_entry(v0, l0, start, j) by {
            assert(j / LANES as int + 1 <= blocks(count));
            let base = (start + j / LANES as int) * BLOCK;
            assert(base + BLOCK <= v0.len());
            assert(start * LANES + j < l0.len());
            let lane = j % LANES as int;
            assert forall|d: int| 0 <= d < DIMS implies #[trigger] lane_vec(v1, base, lane)[d]
                == lane_vec(v0, base, lane)[d] by {
                assert(v0[base + d * LANES + lane] == v1[base + d * LANES + lane]);
            }
            assert(lane_vec(v1, base, lane) =~= lane_vec(v0, base, lane));
            assert(l1[start * LANES + j] == l0[start * LANES + j]);
        }
        assert(entries(n1, v1, l1, i) =~= entries(n0, v0, l0, i));
        lemma_ends_join(n1, i);
    } else {
        let l = n0[i].left as int;
        let r = n0[i].right as int;
        lemma_extended(n0, v0, l0, n1, v1, l1, from, l);
        lemma_extended(n0, v0, l0, n1, v1, l1, from, r);
        lemma_ends_join(n1, i);
        assert(children_ok(n0, i) && children_ok(n1, i));
        assert(n1[l] == n0[l] && n1[r] == n0[r]);
    }
}

/// Whether the record at `mid` parts the others by feature `dim`.
pub open spec fn split_at(rows: Seq<Row>, mid: int, dim: int) -> bool {
    &&& forall|i: int| 0 <= i < mid ==> (#[trigger] rows[i]).0[dim] <= rows[mid].0[dim]
    &&& forall|i: int|
        mid <= i < rows.len() ==> rows[mid].0[dim] <= (#[trigger] rows[i]).0[dim]
}

/// Reorders `data` so that the element at `mid` is where a sort by feature
/// `dim` would put it.
///
/// Trusted: `<[T]>::select_nth_unstable_by_key` reorders the slice in place,
/// with nothing before the chosen index above it and nothing behind it below.
/// Which of several orders it settles on is not stated.
#[verifier::external_body]
fn select_nth(data: &mut [Row], mid: usize, dim: usize)
    requires
        mid < old(data)@.len(),
        dim < DIMS,
    ensures
        final(data)@.to_multiset() == old(data)@.to_multiset(),
        split_at(final(data)@, mid as int, dim as int),
{
    data.select_nth_unstable_by_key(mid, |row| row.0[dim]);
}

/// What growing a subtree from `rows` leaves behind: nodes, blocks and labels
/// are appended, the new node `at` comes first, everything new is sound, and the
/// entries below it are the records.
pub open spec fn grown(
    rows: Seq<Row>,
    n0: Seq<Node>,
    v0: Seq<i16>,
    l0: Seq<u8>,
    n1: Seq<Node>,
    v1: Seq<i16>,
    l1: Seq<u8>,
    at: int,
) -> bool {
    &&& at == n0.len() < n1.len()
    &&& n1.len() <= n0.len() + node_cap(rows.len() as int)
    &&& extends(n0, n1)
    &&& extends(v0, v1)
    &&& extends(l0, l1)
    &&& v1.len() % BLOCK as nat == 0
    &&& v1.len() == l1.len() * DIMS
    &&& v1.len() / BLOCK as nat <= v0.len() / BLOCK as nat + rows.len()
    &&& sound_from(n1, v1, l1, at)
    &&& is_bbox(rows, n1[at].min, n1[at].max)
    &&& height(n1, at) == levels(rows.len() as int)
    &&& entries(n1, v1, l1, at).to_multiset() == plain_all(rows).to_multiset()
}

/// A permutation of the records gives a permutation of the entries.
proof fn lemma_plain_permuted(a: Seq<Row>, b: Seq<Row>)
    requires
        a.to_multiset() == b.to_multiset(),
    ensures
        plain_all(a).to_multiset() == plain_all(b).to_multiset(),
    decreases a.len(),
{
    broadcast use vstd::seq_lib::group_to_multiset_ensures;

    assert(a.to_multiset().len() == a.len());
    assert(b.to_multiset().len() == b.len());
    if a.len() == 0 {
        assert(a =~= b);
    } else {
        let r = a.last();
        assert(a.contains(r));
        assert(b.to_multiset().count(r) > 0);
        let j = choose|j: int| 0 <= j < b.len() && b[j] == r;
        assert(a.drop_last() =~= a.remove(a.len() - 1));
        lemma_plain_permuted(a.drop_last(), b.remove(j));
        assert(plain_all(a) =~= plain_all(a.drop_last()).push(plain(r)));
        assert(plain_all(b.remove(j)) =~= plain_all(b).remove(j));
        assert(plain_all(b)[j] == plain(r));
        assert(plain_all(b).contains(plain(r)));
        assert(plain_all(b).to_multiset() =~= plain_all(b.remove(j)).to_multiset().insert(
            plain(r),
        ));
    }
}

/// Grows the subtree of `data`: a leaf when it fits, else a split at the median
/// of the feature with the highest variance.
pub(crate) fn build_recursive(
    data: &mut [Row],
    nodes: &mut Vec<Node>,
    vectors: &mut Vec<i16>,
    labels: &mut Vec<u8>,
) -> (idx: usize)
    requires
        old(data)@.len() <= u32::MAX,
        old(vectors)@.len() % BLOCK as nat == 0,
        old(vectors)@.len() == old(labels)@.len() * DIMS,
        old(nodes)@.len() + node_cap(old(data)@.len() as int) <= i32::MAX,
        old(vectors)@.len() / BLOCK as nat + old(data)@.len() <= u32::MAX,
    ensures
        final(data)@.to_multiset() == old(data)@.to_multiset(),
        grown(
            old(data)@,
            old(nodes)@,
            old(vectors)@,
            old(labels)@,
            final(nodes)@,
            final(vectors)@,
            final(labels)@,
            idx as int,
        ),
        shaped(
            final(data)@,
            final(nodes)@,
            idx as int,
            (old(vectors)@.len() / BLOCK as nat) as int,
        ),
        final(nodes)@.len() == old(nodes)@.len() + node_count(old(data)@.len() as int),
        final(vectors)@ == old(vectors)@ + laid(final(data)@),
        final(labels)@ == old(labels)@ + laid_labels(final(data)@),
    decreases old(data)@.len(),
{
    let ghost rows = data@;
    let ghost n0 = nodes@;
    let ghost v0 = vectors@;
    let ghost l0 = labels@;
    let n: usize = data.len();
    let (mn, mx) = compute_bbox(data);
    if n <= LEAF_SIZE {
        let first_block: usize = vectors.len() / BLOCK;
        pack_soa(data, vectors, labels);
        let idx: usize = nodes.len();
        nodes.push(
            Node {
                left: -1,
                right: -1,
                start: first_block as u32,
                count: n as u32,
                min: mn,
                max: mx,
            },
        );
        proof {
            lemma_leaf_is_grown(rows, n0, v0, l0, nodes@);
        }
        return idx;
    }
    let dim = max_variance_dim(data);
    let mid: usize = n / 2;
    select_nth(data, mid, dim);
    let ghost mixed = data@;
    proof {
        lemma_same_len(mixed, rows);
    }
    let idx: usize = nodes.len();
    nodes.push(Node { left: 0, right: 0, start: 0, count: 0, min: [0i16;16], max: [0i16;16] });
    let ghost na = nodes@;
    let (below, above) = data.split_at_mut(mid);
    let ghost lo = below@;
    let ghost hi = above@;
    let left = build_recursive(below, nodes, vectors, labels);
    let ghost n1 = nodes@;
    let ghost v1 = vectors@;
    let ghost l1 = labels@;
    let right = build_recursive(above, nodes, vectors, labels);
    let ghost n2 = nodes@;
    let ghost v2 = vectors@;
    let ghost l2 = labels@;
    let ghost lo2 = below@;
    let ghost hi2 = above@;
    nodes.set(
        idx,
        Node { left: left as i32, right: right as i32, start: 0, count: 0, min: mn, max: mx },
    );
    proof {
        let n3 = nodes@;
        let at = idx as int;
        let block = (v0.len() / BLOCK as nat) as int;
        assert(lo =~= mixed.take(mid as int));
        assert(hi =~= mixed.skip(mid as int));
        lemma_same_len(lo2, lo);
        lemma_same_len(hi2, hi);
        lemma_laid_split(lo2, hi2, v0, v1, v2, l0, l1, l2);
        assert(left == at + 1 && right == at + 1 + node_count(mid as int));
        lemma_split_is_grown(rows, mixed, n0, v0, l0, na, n1, v1, l1, n2, v2, l2, n3);
        lemma_split_is_shaped(rows, mixed, lo2, hi2, dim as int, n1, n2, n3, at, block);
        assert(data@ =~= lo2 + hi2);
    }
    idx
}

proof fn lemma_same_len(a: Seq<Row>, b: Seq<Row>)
    requires
        a.to_multiset() == b.to_multiset(),
    ensures
        a.len() == b.len(),
{
    broadcast use vstd::seq_lib::group_to_multiset_ensures;

    assert(a.to_multiset().len() == a.len());
    assert(b.to_multiset().len() == b.len());
}

/// What two subtrees lay out, one behind the other, is what their records lay
/// out together.
proof fn lemma_laid_split(
    lo: Seq<Row>,
    hi: Seq<Row>,
    v0: Seq<i16>,
    v1: Seq<i16>,
    v2: Seq<i16>,
    l0: Seq<u8>,
    l1: Seq<u8>,
    l2: Seq<u8>,
)
    requires
        lo.len() + hi.len() > LEAF_SIZE,
        lo.len() == (lo.len() + hi.len()) / 2,
        v0.len() % BLOCK as nat == 0,
        v1 == v0 + laid(lo),
        v2 == v1 + laid(hi),
        l1 == l0 + laid_labels(lo),
        l2 == l1 + laid_labels(hi),
    ensures
        v2 == v0 + laid(lo + hi),
        l2 == l0 + laid_labels(lo + hi),
        v1.len() / BLOCK as nat == v0.len() / BLOCK as nat + block_count(lo.len() as int),
{
    let all = lo + hi;
    let mid = lo.len() as int;
    assert(all.take(mid) =~= lo);
    assert(all.skip(mid) =~= hi);
    assert(v2 =~= v0 + laid(all));
    assert(l2 =~= l0 + laid_labels(all));
    lemma_laid_len(lo);
    assert(v1.len() == v0.len() + block_count(mid) * 112);
}

/// A leaf is the tree of few records.
proof fn lemma_leaf_is_grown(
    rows: Seq<Row>,
    n0: Seq<Node>,
    v0: Seq<i16>,
    l0: Seq<u8>,
    n1: Seq<Node>,
)
    requires
        rows.len() <= LEAF_SIZE,
        v0.len() % BLOCK as nat == 0,
        v0.len() == l0.len() * DIMS,
        n1.len() == n0.len() + 1,
        extends(n0, n1),
        n1.last().left == -1,
        n1.last().right == -1,
        n1.last().start == v0.len() / BLOCK as nat,
        n1.last().count == rows.len(),
        is_bbox(rows, n1.last().min, n1.last().max),
    ensures
        grown(
            rows,
            n0,
            v0,
            l0,
            n1,
            v0 + packed(rows),
            l0 + packed_labels(rows),
            n0.len() as int,
        ),
{
    let v1 = v0 + packed(rows);
    let l1 = l0 + packed_labels(rows);
    let at = n0.len() as int;
    let node = n1[at];
    let start = node.start as int;
    let es = leaf_entries(v1, l1, start, rows.len());
    assert forall|i: int| 0 <= i < rows.len() implies #[trigger] leaf_entry(v1, l1, start, i)
        == plain(rows[i]) && in_box(plain(rows[i]).0, node.min@, node.max@) by {
        lemma_packed_entry(v0, l0, rows, start, i);
        lemma_row_in_bbox(rows, node.min, node.max, i);
    }
    assert(es =~= plain_all(rows));
    assert(entries(n1, v1, l1, at) == es);
    assert(node_ok(n1, v1.len(), l1.len(), at));
    assert(box_ok(n1, v1, l1, at));
}

/// Two subtrees and a node above them are what their records grow into.
proof fn lemma_split_is_grown(
    rows: Seq<Row>,
    mixed: Seq<Row>,
    n0: Seq<Node>,
    v0: Seq<i16>,
    l0: Seq<u8>,
    na: Seq<Node>,
    n1: Seq<Node>,
    v1: Seq<i16>,
    l1: Seq<u8>,
    n2: Seq<Node>,
    v2: Seq<i16>,
    l2: Seq<u8>,
    n3: Seq<Node>,
)
    requires
        rows.len() > LEAF_SIZE,
        mixed.to_multiset() == rows.to_multiset(),
        mixed.len() == rows.len(),
        extends(n0, na),
        na.len() == n0.len() + 1,
        grown(mixed.take(rows.len() as int / 2), na, v0, l0, n1, v1, l1, na.len() as int),
        grown(mixed.skip(rows.len() as int / 2), n1, v1, l1, n2, v2, l2, n1.len() as int),
        n3.len() == n2.len(),
        forall|i: int| 0 <= i < n3.len() && i != n0.len() ==> n2[i] == #[trigger] n3[i],
        n3[n0.len() as int].left == na.len(),
        n3[n0.len() as int].right == n1.len(),
        is_bbox(rows, n3[n0.len() as int].min, n3[n0.len() as int].max),
    ensures
        grown(rows, n0, v0, l0, n3, v2, l2, n0.len() as int),
{
    broadcast use vstd::seq_lib::group_to_multiset_ensures;

    let n = rows.len() as int;
    let mid = n / 2;
    let lo = mixed.take(mid);
    let hi = mixed.skip(mid);
    let idx = n0.len() as int;
    let left = na.len() as int;
    let right = n1.len() as int;
    assert(lo + hi =~= mixed);
    vstd::seq_lib::lemma_multiset_commutative(lo, hi);
    lemma_plain_permuted(rows, mixed);
    assert(plain_all(mixed) =~= plain_all(lo) + plain_all(hi));
    vstd::seq_lib::lemma_multiset_commutative(plain_all(lo), plain_all(hi));
    assert forall|j: int| left <= j < n1.len() implies n1[j] == #[trigger] n3[j] by {
        assert(n1[j] == n2[j]);
    }
    assert forall|i: int| left <= i < n3.len() implies #[trigger] node_ok(
        n3,
        v2.len(),
        l2.len(),
        i,
    ) && box_ok(n3, v2, l2, i) && behind(n3, i) by {
        if i < right {
            lemma_extended(n1, v1, l1, n3, v2, l2, left, i);
        } else {
            lemma_extended(n2, v2, l2, n3, v2, l2, right, i);
        }
    }
    lemma_extended(n1, v1, l1, n3, v2, l2, left, left);
    lemma_extended(n2, v2, l2, n3, v2, l2, right, right);
    let le = entries(n3, v2, l2, left);
    let re = entries(n3, v2, l2, right);
    lemma_ends_join(n3, idx);
    assert(children_ok(n3, idx));
    assert(entries(n3, v2, l2, idx) == le + re);
    vstd::seq_lib::lemma_multiset_commutative(le, re);
    assert forall|i: int| 0 <= i < lo.len() implies rows.contains(#[trigger] lo[i]) by {
        assert(mixed[i] == lo[i]);
        assert(mixed.contains(lo[i]));
        assert(rows.to_multiset().count(lo[i]) > 0);
    }
    assert forall|i: int| 0 <= i < hi.len() implies rows.contains(#[trigger] hi[i]) by {
        assert(mixed[mid + i] == hi[i]);
        assert(mixed.contains(hi[i]));
        assert(rows.to_multiset().count(hi[i]) > 0);
    }
    assert(n3[left] == n1[left] && n3[right] == n2[right]);
    lemma_bbox_nested(n3[idx], rows, n3[left], lo);
    lemma_bbox_nested(n3[idx], rows, n3[right], hi);
    lemma_levels_mono(mid, n - mid);
    assert(box_ok(n3, v2, l2, idx));
    assert(node_ok(n3, v2.len(), l2.len(), idx));
    assert forall|i: int| idx <= i < n3.len() implies #[trigger] box_ok(n3, v2, l2, i) by {
        assert(node_ok(n3, v2.len(), l2.len(), i));
    }
    assert forall|i: int| idx <= i < n3.len() implies #[trigger] behind(n3, i) by {
        assert(node_ok(n3, v2.len(), l2.len(), i));
    }
    assert forall|i: int| 0 <= i < n0.len() implies n0[i] == #[trigger] n3[i] by {
        assert(n0[i] == na[i] && na[i] == n1[i] && n1[i] == n2[i]);
    }
    assert forall|i: int| 0 <= i < v0.len() implies v0[i] == #[trigger] v2[i] by {
        assert(v0[i] == v1[i]);
    }
    assert forall|i: int| 0 <= i < l0.len() implies l0[i] == #[trigger] l2[i] by {
        assert(l0[i] == l1[i]);
    }
}

/// Two subtrees and a node above them make the tree of their records.
proof fn lemma_split_is_shaped(
    rows: Seq<Row>,
    mixed: Seq<Row>,
    lo: Seq<Row>,
    hi: Seq<Row>,
    dim: int,
    n1: Seq<Node>,
    n2: Seq<Node>,
    n3: Seq<Node>,
    at: int,
    block: int,
)
    requires
        rows.len() > LEAF_SIZE,
        widest(rows, dim),
        mixed.to_multiset() == rows.to_multiset(),
        mixed.len() == rows.len(),
        split_at(mixed, rows.len() as int / 2, dim),
        lo.to_multiset() == mixed.take(rows.len() as int / 2).to_multiset(),
        hi.to_multiset() == mixed.skip(rows.len() as int / 2).to_multiset(),
        0 <= at < n3.len(),
        n1.len() == at + 1 + node_count(rows.len() as int / 2),
        n2.len() == n1.len() + node_count(rows.len() - rows.len() as int / 2),
        n3.len() == n2.len(),
        extends(n1, n2),
        forall|i: int| at < i < n3.len() ==> n2[i] == #[trigger] n3[i],
        shaped(lo, n1, at + 1, block),
        shaped(
            hi,
            n2,
            at + 1 + node_count(rows.len() as int / 2),
            block + block_count(rows.len() as int / 2),
        ),
        is_bbox(rows, n3[at].min, n3[at].max),
        n3[at].left == at + 1,
        n3[at].right == at + 1 + node_count(rows.len() as int / 2),
        n3[at].start == 0,
        n3[at].count == 0,
    ensures
        shaped(lo + hi, n3, at, block),
        (lo + hi).to_multiset() == rows.to_multiset(),
{
    broadcast use vstd::seq_lib::group_to_multiset_ensures;

    let n = rows.len() as int;
    let mid = n / 2;
    let all = lo + hi;
    let a = mixed.take(mid);
    let b = mixed.skip(mid);
    assert(lo.len() == lo.to_multiset().len() == a.to_multiset().len() == mid);
    assert(hi.len() == hi.to_multiset().len() == b.to_multiset().len() == n - mid);
    assert(a + b =~= mixed);
    vstd::seq_lib::lemma_multiset_commutative(a, b);
    vstd::seq_lib::lemma_multiset_commutative(lo, hi);
    assert(all.to_multiset() =~= rows.to_multiset());
    lemma_bbox_permuted(rows, all, n3[at].min, n3[at].max);
    lemma_widest_permuted(rows, all, dim);
    lemma_parted_permuted(mixed, lo, hi, mid, dim);
    assert(widest(all, dim) && parted(all, mid, dim));
    assert(all.take(mid) =~= lo);
    assert(all.skip(mid) =~= hi);
    lemma_node_count(mid);
    lemma_node_count(n - mid);
    assert forall|i: int| at + 1 <= i < at + 1 + node_count(mid) implies n1[i]
        == #[trigger] n3[i] by {
        assert(n1[i] == n2[i]);
    }
    lemma_shaped_same(lo, n1, n3, at + 1, block);
    lemma_shaped_same(hi, n2, n3, at + 1 + node_count(mid), block + block_count(mid));
}

proof fn lemma_levels_mono(a: int, b: int)
    requires
        a <= b,
    ensures
        levels(a) <= levels(b),
    decreases b,
{
    if b > LEAF_SIZE && a > LEAF_SIZE {
        lemma_levels_mono(a - a / 2, b - b / 2);
    }
}

} // verus!
