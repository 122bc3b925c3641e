//! The index: the trees of all partitions, side by side.
use vstd::multiset::Multiset;
use vstd::prelude::*;

use crate::nearest::{flagged, lemma_nearest_of_none, nearest};
use crate::tree::best::{held, pairs};
use crate::tree::check::nodes_hold;
use crate::tree::grow::{
    build_recursive, grown, laid, laid_labels, leaf_sum, lemma_leaf_sum_split,
    lemma_leaves_own_the_records, levels, node_count, plain_all, shaped, Row, LEAF_SIZE,
};
use crate::tree::kernel::{QVec, DIMS, K};
use crate::tree::model::{entries, hits, lemma_hits_permuted, structured, Entry, Node};
use crate::tree::search::search;
use crate::tree::walk::{best_of, searchable, walked, walks_find_the_nearest, Best};
use crate::types::RawData;

verus! {

/// Partitions of an index.
pub const NUM_PARTS: usize = 8;

/// What the index reads of a feature vector: its quantised values and the
/// three yes-or-no features that pick its partition.
#[derive(Clone, Copy)]
pub struct Point {
    pub q: QVec,
    pub card_present: bool,
    pub is_online: bool,
    pub has_last_tx: bool,
}

/// The partition of a point.
pub open spec fn key_of(p: Point) -> int {
    (if p.card_present {
        1int
    } else {
        0
    }) + (if p.is_online {
        2int
    } else {
        0
    }) + (if p.has_last_tx {
        4int
    } else {
        0
    })
}

/// The partition of a point: one bit for each yes-or-no feature.
pub fn partition_key(p: &Point) -> (key: usize)
    ensures
        key == key_of(*p),
        key < NUM_PARTS,
{
    let mut key: usize = 0;
    if p.card_present {
        key = key + 1;
    }
    if p.is_online {
        key = key + 2;
    }
    if p.has_last_tx {
        key = key + 4;
    }
    key
}

/// The index. Partition `p` owns the nodes from `node_off[p]` up to
/// `node_off[p + 1]`, and likewise its vectors and labels. `roots[p]` is the
/// root's index within the partition's nodes, or -1 for an empty partition.
pub struct TreeIndex {
    pub nodes: Vec<Node>,
    pub node_off: [usize; 9],
    pub roots: [i32; 8],
    pub vectors: Vec<i16>,
    pub vec_off: [usize; 9],
    pub labels: Vec<u8>,
    pub lbl_off: [usize; 9],
}

/// Whether the offsets run from zero to `len` without stepping back.
pub open spec fn offsets_ok(off: Seq<usize>, len: nat) -> bool {
    &&& off.len() == NUM_PARTS + 1
    &&& off[0] == 0
    &&& off[NUM_PARTS as int] == len
    &&& forall|p: int| 0 <= p < NUM_PARTS ==> #[trigger] off[p] <= off[p + 1]
}

impl TreeIndex {
    /// The nodes of partition `p`.
    pub open spec fn part_nodes(&self, p: int) -> Seq<Node> {
        self.nodes@.subrange(self.node_off[p] as int, self.node_off[p + 1] as int)
    }

    /// The packed vectors of partition `p`.
    pub open spec fn part_vectors(&self, p: int) -> Seq<i16> {
        self.vectors@.subrange(self.vec_off[p] as int, self.vec_off[p + 1] as int)
    }

    /// The packed labels of partition `p`.
    pub open spec fn part_labels(&self, p: int) -> Seq<u8> {
        self.labels@.subrange(self.lbl_off[p] as int, self.lbl_off[p + 1] as int)
    }

    /// Whether the arrays are divided among the partitions.
    pub open spec fn divided(&self) -> bool {
        &&& offsets_ok(self.node_off@, self.nodes@.len())
        &&& offsets_ok(self.vec_off@, self.vectors@.len())
        &&& offsets_ok(self.lbl_off@, self.labels@.len())
    }

    /// Whether partition `p` points only at what is there.
    pub open spec fn part_ok(&self, p: int) -> bool {
        &&& self.roots[p] >= 0 ==> self.roots[p] < self.part_nodes(p).len()
        &&& structured(
            self.part_nodes(p),
            self.part_vectors(p).len(),
            self.part_labels(p).len(),
        )
    }

    /// Whether the index points only at what is there.
    pub open spec fn wf(&self) -> bool {
        &&& self.divided()
        &&& forall|p: int| 0 <= p < NUM_PARTS ==> #[trigger] self.part_ok(p)
    }

    /// The entries of partition `p`.
    pub open spec fn part_entries(&self, p: int) -> Seq<Entry> {
        if self.roots[p] < 0 {
            Seq::empty()
        } else {
            entries(
                self.part_nodes(p),
                self.part_vectors(p),
                self.part_labels(p),
                self.roots[p] as int,
            )
        }
    }

    /// Whether a search of partition `p` misses nothing.
    pub open spec fn part_searchable(&self, p: int) -> bool {
        self.roots[p] < 0 || searchable(
            self.part_nodes(p),
            self.part_vectors(p),
            self.part_labels(p),
            self.roots[p] as int,
        )
    }
}

/// The records that belong to partition `p`, in order, among the first `n`.
pub open spec fn routed(data: Seq<RawData<Point>>, n: nat, p: int) -> Seq<Row>
    decreases n,
{
    if n == 0 {
        Seq::empty()
    } else {
        let rest = routed(data, (n - 1) as nat, p);
        let rec = data[n - 1];
        if key_of(rec.vector) == p {
            rest.push(
                (
                    rec.vector.q,
                    if rec.fraud() {
                        1u8
                    } else {
                        0u8
                    },
                ),
            )
        } else {
            rest
        }
    }
}

/// Whether a partition's arrays are those of the tree of `rows`, whose leaves
/// hold them in the order of `order`.
pub open spec fn part_laid(
    order: Seq<Row>,
    rows: Seq<Row>,
    nodes: Seq<Node>,
    vectors: Seq<i16>,
    labels: Seq<u8>,
) -> bool {
    &&& order.to_multiset() == rows.to_multiset()
    &&& nodes.len() == node_count(rows.len() as int)
    &&& shaped(order, nodes, 0, 0)
    &&& vectors == laid(order)
    &&& labels == laid_labels(order)
}

/// Whether a partition's arrays and root hold the tree of `rows` and nothing
/// else.
pub open spec fn part_built(
    rows: Seq<Row>,
    nodes: Seq<Node>,
    vectors: Seq<i16>,
    labels: Seq<u8>,
    root: int,
) -> bool {
    &&& structured(nodes, vectors.len(), labels.len())
    &&& vectors.len() == DIMS * labels.len()
    &&& leaf_sum(nodes, 0, nodes.len() as int) == rows.len()
    &&& if rows.len() == 0 {
        &&& root == -1
        &&& nodes.len() == 0
        &&& vectors.len() == 0
        &&& labels.len() == 0
    } else {
        &&& root == 0
        &&& nodes.len() > 0
        &&& exists|order: Seq<Row>| #[trigger] part_laid(order, rows, nodes, vectors, labels)
        &&& searchable(nodes, vectors, labels, root)
        &&& entries(nodes, vectors, labels, root).to_multiset() == plain_all(rows).to_multiset()
    }
}

/// Whether an index holds exactly the records of `data`, each in its partition.
pub open spec fn built_from(idx: TreeIndex, data: Seq<RawData<Point>>) -> bool {
    &&& idx.divided()
    &&& forall|p: int|
        0 <= p < NUM_PARTS ==> #[trigger] part_built(
            routed(data, data.len(), p),
            idx.part_nodes(p),
            idx.part_vectors(p),
            idx.part_labels(p),
            idx.roots[p] as int,
        )
}

proof fn lemma_levels_bound(n: int, h: nat)
    requires
        n <= LEAF_SIZE * vstd::arithmetic::power2::pow2(h),
    ensures
        levels(n) <= h,
    decreases h,
{
    if n > LEAF_SIZE {
        if h == 0 {
            vstd::arithmetic::power2::lemma2_to64();
        } else {
            vstd::arithmetic::power2::lemma_pow2_unfold(h);
            lemma_levels_bound(n - n / 2, (h - 1) as nat);
        }
    }
}

proof fn lemma_routed_len(data: Seq<RawData<Point>>, n: nat, p: int)
    ensures
        routed(data, n, p).len() <= n,
    decreases n,
{
    if n > 0 {
        lemma_routed_len(data, (n - 1) as nat, p);
    }
}

/// Quantised records, routed to their partitions.
fn route(data: &Vec<RawData<Point>>) -> (parts: Vec<Vec<Row>>)
    ensures
        parts@.len() == NUM_PARTS,
        forall|p: int|
            0 <= p < NUM_PARTS ==> (#[trigger] parts@[p])@ == routed(data@, data@.len(), p),
{
    let mut parts: Vec<Vec<Row>> = Vec::new();
    let mut p: usize = 0;
    while p < NUM_PARTS
        invariant
            p <= NUM_PARTS,
            parts@.len() == p,
            forall|j: int| 0 <= j < p ==> (#[trigger] parts@[j])@ == routed(data@, 0, j),
        decreases NUM_PARTS - p,
    {
        parts.push(Vec::new());
        assert(parts@[p as int]@ =~= routed(data@, 0, p as int));
        p = p + 1;
    }
    let mut i: usize = 0;
    while i < data.len()
        invariant
            i <= data@.len(),
            parts@.len() == NUM_PARTS,
            forall|j: int|
                0 <= j < NUM_PARTS ==> (#[trigger] parts@[j])@ == routed(data@, i as nat, j),
        decreases data@.len() - i,
    {
        let rec = &data[i];
        let key = partition_key(&rec.vector);
        let label: u8 = if rec.is_fraud() {
            1
        } else {
            0
        };
        let ghost before = parts@;
        parts[key].push((rec.vector.q, label));
        assert forall|j: int| 0 <= j < NUM_PARTS implies (#[trigger] parts@[j])@ == routed(
            data@,
            (i + 1) as nat,
            j,
        ) by {
            assert(before[j]@ == routed(data@, i as nat, j));
        }
        i = i + 1;
    }
    parts
}

/// Part of a sequence is the same after something is appended.
proof fn lemma_subrange_of_longer<T>(a: Seq<T>, b: Seq<T>, i: int, j: int)
    requires
        0 <= i <= j <= a.len(),
    ensures
        (a + b).subrange(i, j) == a.subrange(i, j),
{
    assert((a + b).subrange(i, j) =~= a.subrange(i, j));
}

/// What grows from nothing is the tree of a partition.
proof fn lemma_part_is_built(
    rows: Seq<Row>,
    order: Seq<Row>,
    nodes: Seq<Node>,
    vectors: Seq<i16>,
    labels: Seq<u8>,
)
    requires
        rows.len() > 0,
        levels(rows.len() as int) <= 26,
        grown(rows, Seq::empty(), Seq::empty(), Seq::empty(), nodes, vectors, labels, 0),
        order.to_multiset() == rows.to_multiset(),
        nodes.len() == node_count(rows.len() as int),
        shaped(order, nodes, 0, 0),
        vectors == laid(order),
        labels == laid_labels(order),
    ensures
        part_built(rows, nodes, vectors, labels, 0),
{
    broadcast use vstd::seq_lib::group_to_multiset_ensures;

    assert(order.len() == order.to_multiset().len() == rows.to_multiset().len() == rows.len());
    lemma_leaves_own_the_records(order, nodes, 0, 0);
    assert(part_laid(order, rows, nodes, vectors, labels));
}

/// Builds an index from training records.
pub fn build(data: Vec<RawData<Point>>) -> (idx: TreeIndex)
    requires
        data@.len() <= u32::MAX,
    ensures
        idx.wf(),
        built_from(idx, data@),
{
    let mut parts = route(&data);
    let mut all_nodes: Vec<Node> = Vec::new();
    let mut all_vectors: Vec<i16> = Vec::new();
    let mut all_labels: Vec<u8> = Vec::new();
    let mut node_off: [usize; 9] = [0usize;9];
    let mut vec_off: [usize; 9] = [0usize;9];
    let mut lbl_off: [usize; 9] = [0usize;9];
    let mut roots: [i32; 8] = [-1i32;8];
    let mut p: usize = 0;
    while p < NUM_PARTS
        invariant
            data@.len() <= u32::MAX,
            p <= NUM_PARTS,
            parts@.len() == NUM_PARTS,
            forall|j: int|
                p <= j < NUM_PARTS ==> (#[trigger] parts@[j])@ == routed(data@, data@.len(), j),
            node_off@[0] == 0,
            vec_off@[0] == 0,
            lbl_off@[0] == 0,
            node_off@[p as int] == all_nodes@.len(),
            vec_off@[p as int] == all_vectors@.len(),
            lbl_off@[p as int] == all_labels@.len(),
            forall|j: int|
                0 <= j < p ==> #[trigger] node_off@[j] <= node_off@[j + 1] <= all_nodes@.len(),
            forall|j: int|
                0 <= j < p ==> #[trigger] vec_off@[j] <= vec_off@[j + 1] <= all_vectors@.len(),
            forall|j: int|
                0 <= j < p ==> #[trigger] lbl_off@[j] <= lbl_off@[j + 1] <= all_labels@.len(),
            forall|j: int|
                0 <= j < p ==> part_built(
                    routed(data@, data@.len(), j),
                    all_nodes@.subrange(node_off@[j] as int, node_off@[j + 1] as int),
                    all_vectors@.subrange(vec_off@[j] as int, vec_off@[j + 1] as int),
                    all_labels@.subrange(lbl_off@[j] as int, lbl_off@[j + 1] as int),
                    #[trigger] roots@[j] as int,
                ),
        decreases NUM_PARTS - p,
    {
        let ghost rows = routed(data@, data@.len(), p as int);
        let ghost n0 = all_nodes@;
        let ghost v0 = all_vectors@;
        let ghost l0 = all_labels@;
        let ghost no0 = node_off@;
        let ghost vo0 = vec_off@;
        let ghost lo0 = lbl_off@;
        let ghost roots0 = roots@;
        let mut nodes: Vec<Node> = Vec::new();
        let mut vectors: Vec<i16> = Vec::new();
        let mut labels: Vec<u8> = Vec::new();
        let mut root: i32 = -1;
        assert(parts@[p as int]@ == rows);
        if parts[p].len() > 0 {
            proof {
                lemma_routed_len(data@, data@.len(), p as int);
            }
            let r = build_recursive(
                parts[p].as_mut_slice(),
                &mut nodes,
                &mut vectors,
                &mut labels,
            );
            root = r as i32;
            proof {
                let order = parts@[p as int]@;
                vstd::arithmetic::power2::lemma2_to64();
                lemma_levels_bound(rows.len() as int, 26);
                assert(vectors@ =~= laid(order));
                assert(labels@ =~= laid_labels(order));
                assert(grown(
                    rows,
                    Seq::empty(),
                    Seq::empty(),
                    Seq::empty(),
                    nodes@,
                    vectors@,
                    labels@,
                    0,
                ));
                lemma_part_is_built(rows, order, nodes@, vectors@, labels@);
            }
        }
        let ghost nodes1 = nodes@;
        let ghost vectors1 = vectors@;
        let ghost labels1 = labels@;
        assert(part_built(rows, nodes1, vectors1, labels1, root as int));
        roots[p] = root;
        all_nodes.append(&mut nodes);
        all_vectors.append(&mut vectors);
        all_labels.append(&mut labels);
        node_off[p + 1] = all_nodes.len();
        vec_off[p + 1] = all_vectors.len();
        lbl_off[p + 1] = all_labels.len();
        proof {
            assert forall|j: int| 0 <= j < p + 1 implies part_built(
                routed(data@, data@.len(), j),
                all_nodes@.subrange(node_off@[j] as int, node_off@[j + 1] as int),
                all_vectors@.subrange(vec_off@[j] as int, vec_off@[j + 1] as int),
                all_labels@.subrange(lbl_off@[j] as int, lbl_off@[j + 1] as int),
                #[trigger] roots@[j] as int,
            ) by {
                if j < p {
                    assert(roots0[j] == roots@[j]);
                    assert(no0[j] <= no0[j + 1] <= n0.len());
                    assert(vo0[j] <= vo0[j + 1] <= v0.len());
                    assert(lo0[j] <= lo0[j + 1] <= l0.len());
                    lemma_subrange_of_longer(n0, nodes1, no0[j] as int, no0[j + 1] as int);
                    lemma_subrange_of_longer(v0, vectors1, vo0[j] as int, vo0[j + 1] as int);
                    lemma_subrange_of_longer(l0, labels1, lo0[j] as int, lo0[j + 1] as int);
                } else {
                    assert((n0 + nodes1).subrange(n0.len() as int, (n0 + nodes1).len() as int)
                        =~= nodes1);
                    assert((v0 + vectors1).subrange(
                        v0.len() as int,
                        (v0 + vectors1).len() as int,
                    ) =~= vectors1);
                    assert((l0 + labels1).subrange(l0.len() as int, (l0 + labels1).len() as int)
                        =~= labels1);
                }
            }
            assert forall|j: int| 0 <= j < p + 1 implies #[trigger] node_off@[j] <= node_off@[j
                + 1] <= all_nodes@.len() by {
                assert(j < p ==> no0[j] <= no0[j + 1]);
            }
            assert forall|j: int| 0 <= j < p + 1 implies #[trigger] vec_off@[j] <= vec_off@[j + 1]
                <= all_vectors@.len() by {
                assert(j < p ==> vo0[j] <= vo0[j + 1]);
            }
            assert forall|j: int| 0 <= j < p + 1 implies #[trigger] lbl_off@[j] <= lbl_off@[j + 1]
                <= all_labels@.len() by {
                assert(j < p ==> lo0[j] <= lo0[j + 1]);
            }
        }
        p = p + 1;
    }
    let idx = TreeIndex {
        nodes: all_nodes,
        node_off,
        roots,
        vectors: all_vectors,
        vec_off,
        labels: all_labels,
        lbl_off,
    };
    proof {
        assert forall|p: int| 0 <= p < NUM_PARTS implies #[trigger] part_built(
            routed(data@, data@.len(), p),
            idx.part_nodes(p),
            idx.part_vectors(p),
            idx.part_labels(p),
            idx.roots[p] as int,
        ) by {
            assert(roots@[p] == idx.roots[p]);
        }
        assert forall|p: int| 0 <= p < NUM_PARTS implies #[trigger] idx.part_ok(p) by {
            assert(part_built(
                routed(data@, data@.len(), p),
                idx.part_nodes(p),
                idx.part_vectors(p),
                idx.part_labels(p),
                idx.roots[p] as int,
            ));
        }
    }
    idx
}

/// The list that a search starts with: every slot is empty.
pub open spec fn no_best() -> Best {
    (Seq::new(K as nat, |i: int| i64::MAX), Seq::new(K as nat, |i: int| 0u8))
}

/// What a search for a point ends with.
pub open spec fn found(idx: TreeIndex, v: Point) -> Best {
    let p = key_of(v);
    if idx.roots[p] < 0 {
        no_best()
    } else {
        walked(
            idx.part_nodes(p),
            idx.part_vectors(p),
            idx.part_labels(p),
            v.q@,
            no_best(),
            idx.roots[p] as int,
            Seq::empty(),
        )
    }
}

/// What an index answers for a point: how many of those that a search ends with
/// are labelled as fraud.
pub open spec fn answer(idx: TreeIndex, v: Point) -> nat {
    votes_to(found(idx, v).0, found(idx, v).1, K as nat)
}

/// The occupied slots with a label other than zero, among the first `n`.
pub open spec fn votes_to(dists: Seq<i64>, labels: Seq<u8>, n: nat) -> nat
    decreases n,
{
    if n == 0 {
        0
    } else {
        votes_to(dists, labels, (n - 1) as nat) + if dists[n - 1] != i64::MAX && labels[n - 1]
            != 0 {
            1nat
        } else {
            0nat
        }
    }
}

proof fn lemma_votes(dists: Seq<i64>, labels: Seq<u8>, n: nat)
    requires
        n <= dists.len(),
    ensures
        flagged(
            pairs(dists, labels).take(n as int).to_multiset().filter(
                |h: (int, int)| h.0 != i64::MAX,
            ),
        ) == votes_to(dists, labels, n),
    decreases n,
{
    broadcast use vstd::seq_lib::group_to_multiset_ensures;

    let ps = pairs(dists, labels);
    let occupied = |h: (int, int)| h.0 != i64::MAX;
    let yes = |h: (int, int)| h.1 != 0;
    if n == 0 {
        assert(ps.take(0).to_multiset().filter(occupied).filter(yes) =~= Multiset::empty());
    } else {
        lemma_votes(dists, labels, (n - 1) as nat);
        let last = ps[n - 1];
        assert(ps.take(n as int) =~= ps.take(n - 1).push(last));
        let before = ps.take(n - 1).to_multiset().filter(occupied).filter(yes);
        let after = ps.take(n as int).to_multiset().filter(occupied).filter(yes);
        if last.0 != i64::MAX && last.1 != 0 {
            assert(after =~= before.insert(last));
        } else {
            assert(after =~= before);
        }
    }
}

impl TreeIndex {
    /// How many of the `K` entries of the query's partition that are nearest
    /// to it are labelled as fraud.
    pub fn predict(&self, v: &Point) -> (fraud: usize)
        requires
            self.wf(),
        ensures
            fraud == answer(*self, *v),
            fraud <= K,
            self.roots[key_of(*v)] < 0 ==> fraud == 0,
            self.part_searchable(key_of(*v)) ==> exists|chosen: Multiset<(int, int)>| #[trigger]
                nearest(hits(v.q@, self.part_entries(key_of(*v))), K as nat, chosen) && fraud
                    == flagged(chosen),
    {
        let q = v.q;
        let key = partition_key(v);
        proof {
            if self.part_searchable(key as int) {
                answers_go_by_the_nearest(*self, *v);
            }
            assert(self.part_ok(key as int));
        }
        if self.roots[key] < 0 {
            proof {
                lemma_no_votes(K as nat);
            }
            return 0;
        }
        let root: usize = self.roots[key] as usize;
        assert(self.node_off[key as int] <= self.node_off[key + 1]);
        assert(self.vec_off[key as int] <= self.vec_off[key + 1]);
        assert(self.lbl_off[key as int] <= self.lbl_off[key + 1]);
        proof {
            lemma_offsets(self.node_off@, self.nodes@.len(), key + 1);
            lemma_offsets(self.vec_off@, self.vectors@.len(), key + 1);
            lemma_offsets(self.lbl_off@, self.labels@.len(), key + 1);
        }
        let nodes = vstd::slice::slice_subrange(
            self.nodes.as_slice(),
            self.node_off[key],
            self.node_off[key + 1],
        );
        let vectors = vstd::slice::slice_subrange(
            self.vectors.as_slice(),
            self.vec_off[key],
            self.vec_off[key + 1],
        );
        let labels = vstd::slice::slice_subrange(
            self.labels.as_slice(),
            self.lbl_off[key],
            self.lbl_off[key + 1],
        );
        let mut best_dists: [i64; 5] = [i64::MAX;5];
        let mut best_labels: [u8; 5] = [0u8;5];
        assert(best_dists@ =~= no_best().0);
        assert(best_labels@ =~= no_best().1);
        search(root, nodes, vectors, labels, &q, &mut best_dists, &mut best_labels);
        let mut fraud: usize = 0;
        let mut i: usize = 0;
        while i < K
            invariant
                i <= K,
                fraud <= i,
                fraud == votes_to(best_dists@, best_labels@, i as nat),
            decreases K - i,
        {
            if best_dists[i] != i64::MAX && best_labels[i] != 0 {
                fraud = fraud + 1;
            }
            i = i + 1;
        }
        fraud
    }
}

proof fn lemma_no_votes(n: nat)
    requires
        n <= K,
    ensures
        votes_to(no_best().0, no_best().1, n) == 0,
    decreases n,
{
    if n > 0 {
        lemma_no_votes((n - 1) as nat);
    }
}

/// The empty list is the nearest of nothing.
proof fn lemma_no_best()
    ensures
        best_of(Multiset::empty(), no_best()),
        held(no_best().0, no_best().1) == Multiset::<(int, int)>::empty(),
{
    broadcast use vstd::seq_lib::group_to_multiset_ensures;

    let b = no_best();
    let none = Multiset::<(int, int)>::empty();
    let ps = pairs(b.0, b.1);
    assert forall|h: (int, int)| held(b.0, b.1).count(h) == 0 by {
        if ps.to_multiset().count(h) > 0 {
            assert(ps.contains(h));
            let i = choose|i: int| 0 <= i < ps.len() && ps[i] == h;
            assert(b.0[i] == i64::MAX);
        }
    }
    assert(held(b.0, b.1) =~= none);
    lemma_nearest_of_none(K as nat);
}

/// The answer of an index whose search misses nothing is how many of the
/// nearest entries are labelled as fraud.
pub proof fn answers_go_by_the_nearest(idx: TreeIndex, v: Point)
    requires
        idx.wf(),
        idx.part_searchable(key_of(v)),
    ensures
        exists|chosen: Multiset<(int, int)>| #[trigger]
            nearest(hits(v.q@, idx.part_entries(key_of(v))), K as nat, chosen) && answer(idx, v)
                == flagged(chosen),
{
    let p = key_of(v);
    let b = found(idx, v);
    let all = hits(v.q@, idx.part_entries(p));
    let none = Multiset::<(int, int)>::empty();
    assert(idx.part_ok(p));
    lemma_no_best();
    if idx.roots[p] < 0 {
        broadcast use vstd::seq_lib::group_to_multiset_ensures;

        assert(all =~= none);
    } else {
        walks_find_the_nearest(
            idx.part_nodes(p),
            idx.part_vectors(p),
            idx.part_labels(p),
            v.q@,
            no_best(),
            idx.roots[p] as int,
            none,
        );
        assert(none.add(all) =~= all);
    }
    let chosen = held(b.0, b.1);
    lemma_votes(b.0, b.1, K as nat);
    assert(pairs(b.0, b.1).take(K as int) =~= pairs(b.0, b.1));
    assert(nearest(all, K as nat, chosen) && answer(idx, v) == flagged(chosen));
}

/// An index built from records answers with how many of the nearest records of
/// the point's partition are fraud.
pub proof fn built_index_answers_from_the_records(
    idx: TreeIndex,
    data: Seq<RawData<Point>>,
    v: Point,
)
    requires
        idx.wf(),
        built_from(idx, data),
    ensures
        exists|chosen: Multiset<(int, int)>| #[trigger]
            nearest(
                hits(v.q@, plain_all(routed(data, data.len(), key_of(v)))),
                K as nat,
                chosen,
            ) && answer(idx, v) == flagged(chosen),
{
    built_index_holds_the_records(idx, data, v.q@, key_of(v));
    answers_go_by_the_nearest(idx, v);
}

pub proof fn lemma_offsets(off: Seq<usize>, len: nat, p: int)
    requires
        offsets_ok(off, len),
        0 <= p <= NUM_PARTS,
    ensures
        off[p] <= len,
    decreases NUM_PARTS - p,
{
    if p < NUM_PARTS {
        lemma_offsets(off, len, p + 1);
        assert(off[p] <= off[p + 1]);
    }
}

/// Decides `offsets_ok`.
fn offsets_hold(off: &[usize; 9], len: usize) -> (ok: bool)
    ensures
        ok == offsets_ok(off@, len as nat),
{
    if off[0] != 0 || off[8] != len {
        return false;
    }
    let mut p: usize = 0;
    while p < NUM_PARTS
        invariant
            p <= NUM_PARTS,
            forall|j: int| 0 <= j < p ==> #[trigger] off@[j] <= off@[j + 1],
        decreases NUM_PARTS - p,
    {
        if off[p] > off[p + 1] {
            assert(off@[p as int] > off@[p + 1]);
            return false;
        }
        p = p + 1;
    }
    true
}

impl TreeIndex {
    /// Whether the index points only at what is there, so that it can be
    /// queried. An index that was built always does; one that was read from a
    /// file need not.
    pub fn is_valid(&self) -> (ok: bool)
        ensures
            ok == self.wf(),
    {
        if !offsets_hold(&self.node_off, self.nodes.len()) || !offsets_hold(
            &self.vec_off,
            self.vectors.len(),
        ) || !offsets_hold(&self.lbl_off, self.labels.len()) {
            return false;
        }
        let mut p: usize = 0;
        while p < NUM_PARTS
            invariant
                p <= NUM_PARTS,
                self.divided(),
                forall|j: int| 0 <= j < p ==> #[trigger] self.part_ok(j),
            decreases NUM_PARTS - p,
        {
            proof {
                lemma_offsets(self.node_off@, self.nodes@.len(), p + 1);
                lemma_offsets(self.vec_off@, self.vectors@.len(), p + 1);
                lemma_offsets(self.lbl_off@, self.labels@.len(), p + 1);
                assert(self.node_off@[p as int] <= self.node_off@[p + 1]);
                assert(self.vec_off@[p as int] <= self.vec_off@[p + 1]);
                assert(self.lbl_off@[p as int] <= self.lbl_off@[p + 1]);
            }
            let nodes = vstd::slice::slice_subrange(
                self.nodes.as_slice(),
                self.node_off[p],
                self.node_off[p + 1],
            );
            let ok = nodes_hold(
                nodes,
                self.vec_off[p + 1] - self.vec_off[p],
                self.lbl_off[p + 1] - self.lbl_off[p],
            ) && (self.roots[p] < 0 || (self.roots[p] as usize) < nodes.len());
            assert(ok == self.part_ok(p as int));
            if !ok {
                return false;
            }
            p = p + 1;
        }
        true
    }

    /// Reads one value in every 256 of the vectors and one in every 4096 of the
    /// labels, so that the memory behind them is resident.
    pub fn pretouch(&self) {
        std::hint::black_box(self.touched());
    }

    /// The exclusive or of the values that `pretouch` reads.
    pub fn touched(&self) -> (acc: u8)
        ensures
            acc == touch_labels(self.labels@, 0, touch_vectors(self.vectors@, 0, 0)),
    {
        let mut acc: u8 = 0;
        let mut i: usize = 0;
        let nv: usize = self.vectors.len();
        while i < nv
            invariant
                nv == self.vectors@.len(),
                touch_vectors(self.vectors@, 0, 0) == touch_vectors(self.vectors@, i as int, acc),
            decreases nv - i,
        {
            acc = acc ^ #[verifier::truncate] (self.vectors[i] as u8);
            assert(i + 256 >= nv ==> touch_vectors(self.vectors@, i + 256, acc) == acc);
            i = if nv - i > 256 {
                i + 256
            } else {
                nv
            };
        }
        let mut j: usize = 0;
        let nl: usize = self.labels.len();
        let ghost seed = acc;
        while j < nl
            invariant
                nl == self.labels@.len(),
                touch_labels(self.labels@, 0, seed) == touch_labels(self.labels@, j as int, acc),
            decreases nl - j,
        {
            acc = acc ^ self.labels[j];
            assert(j + 4096 >= nl ==> touch_labels(self.labels@, j + 4096, acc) == acc);
            j = if nl - j > 4096 {
                j + 4096
            } else {
                nl
            };
        }
        acc
    }
}

/// The exclusive or of `acc` and the low byte of every 256th value from `i` on.
pub open spec fn touch_vectors(v: Seq<i16>, i: int, acc: u8) -> u8
    decreases
            (if i < v.len() {
                v.len() - i
            } else {
                0
            }),
{
    if i >= v.len() {
        acc
    } else {
        touch_vectors(v, i + 256, acc ^ (v[i] as u8))
    }
}

/// The exclusive or of `acc` and every 4096th label from `i` on.
pub open spec fn touch_labels(l: Seq<u8>, i: int, acc: u8) -> u8
    decreases
            (if i < l.len() {
                l.len() - i
            } else {
                0
            }),
{
    if i >= l.len() {
        acc
    } else {
        touch_labels(l, i + 4096, acc ^ l[i])
    }
}

/// Trusted: `std::hint::black_box` hands its argument back unchanged.
pub assume_specification<T>[ std::hint::black_box::<T> ](dummy: T) -> (same: T)
    ensures
        same == dummy,
;

/// There are eight partitions, one for each way the three features can be.
pub proof fn partitions_go_by_three_features(a: Point, b: Point)
    ensures
        0 <= key_of(a) < NUM_PARTS,
        key_of(a) == key_of(b) <==> a.card_present == b.card_present && a.is_online == b.is_online
            && a.has_last_tx == b.has_last_tx,
{
}

/// An index built from records answers a query from the records of its
/// partition: those are the entries that a prediction chooses the nearest of.
pub proof fn built_index_holds_the_records(
    idx: TreeIndex,
    data: Seq<RawData<Point>>,
    q: Seq<i16>,
    p: int,
)
    requires
        built_from(idx, data),
        0 <= p < NUM_PARTS,
    ensures
        idx.part_searchable(p),
        hits(q, idx.part_entries(p)) == hits(q, plain_all(routed(data, data.len(), p))),
{
    broadcast use vstd::seq_lib::group_to_multiset_ensures;

    let rows = routed(data, data.len(), p);
    assert(part_built(
        rows,
        idx.part_nodes(p),
        idx.part_vectors(p),
        idx.part_labels(p),
        idx.roots[p] as int,
    ));
    if rows.len() == 0 {
        assert(plain_all(rows) =~= idx.part_entries(p));
    } else {
        lemma_hits_permuted(q, idx.part_entries(p), plain_all(rows));
    }
}

/// The records of all partitions among the first `n`.
spec fn routed_total(data: Seq<RawData<Point>>, n: nat, parts: nat) -> int
    decreases parts,
{
    if parts == 0 {
        0
    } else {
        routed_total(data, n, (parts - 1) as nat) + routed(data, n, parts - 1).len()
    }
}

proof fn lemma_routed_one_more(data: Seq<RawData<Point>>, n: nat, parts: nat)
    requires
        n > 0,
    ensures
        routed_total(data, n, parts) == routed_total(data, (n - 1) as nat, parts) + if key_of(
            data[n - 1].vector,
        ) < parts {
            1int
        } else {
            0
        },
    decreases parts,
{
    if parts > 0 {
        lemma_routed_one_more(data, n, (parts - 1) as nat);
    }
}

proof fn lemma_routed_total(data: Seq<RawData<Point>>, n: nat)
    ensures
        routed_total(data, n, NUM_PARTS as nat) == n,
    decreases n,
{
    if n == 0 {
        lemma_routed_none(data, NUM_PARTS as nat);
    } else {
        lemma_routed_total(data, (n - 1) as nat);
        lemma_routed_one_more(data, n, NUM_PARTS as nat);
    }
}

proof fn lemma_routed_none(data: Seq<RawData<Point>>, parts: nat)
    ensures
        routed_total(data, 0, parts) == 0,
    decreases parts,
{
    if parts > 0 {
        lemma_routed_none(data, (parts - 1) as nat);
    }
}

proof fn lemma_leaf_sum_of_part(nodes: Seq<Node>, a: int, b: int, n: int)
    requires
        0 <= a <= b <= nodes.len(),
        0 <= n <= b - a,
    ensures
        leaf_sum(nodes.subrange(a, b), 0, n) == leaf_sum(nodes, a, a + n),
    decreases n,
{
    if n > 0 {
        lemma_leaf_sum_of_part(nodes, a, b, n - 1);
    }
}

proof fn lemma_parts_add_up(idx: TreeIndex, data: Seq<RawData<Point>>, p: nat)
    requires
        built_from(idx, data),
        p <= NUM_PARTS,
    ensures
        leaf_sum(idx.nodes@, 0, idx.node_off[p as int] as int) == routed_total(
            data,
            data.len(),
            p,
        ),
        idx.vec_off[p as int] == DIMS * idx.lbl_off[p as int],
    decreases p,
{
    if p > 0 {
        let k = p - 1;
        lemma_parts_add_up(idx, data, k as nat);
        assert(part_built(
            routed(data, data.len(), k),
            idx.part_nodes(k),
            idx.part_vectors(k),
            idx.part_labels(k),
            idx.roots[k] as int,
        ));
        let a = idx.node_off@[k] as int;
        let b = idx.node_off@[k + 1] as int;
        assert(a <= b);
        assert(idx.vec_off@[k] <= idx.vec_off@[k + 1]);
        assert(idx.lbl_off@[k] <= idx.lbl_off@[k + 1]);
        lemma_offsets(idx.node_off@, idx.nodes@.len(), k + 1);
        lemma_offsets(idx.vec_off@, idx.vectors@.len(), k + 1);
        lemma_offsets(idx.lbl_off@, idx.labels@.len(), k + 1);
        lemma_leaf_sum_of_part(idx.nodes@, a, b, b - a);
        lemma_leaf_sum_split(idx.nodes@, 0, a, b);
    }
}

/// In an index built from records the leaves own as many records as there are,
/// and each label goes with a vector.
pub proof fn every_record_is_in_a_leaf(idx: TreeIndex, data: Seq<RawData<Point>>)
    requires
        built_from(idx, data),
    ensures
        leaf_sum(idx.nodes@, 0, idx.nodes@.len() as int) == data.len(),
        forall|p: int|
            0 <= p <= NUM_PARTS ==> #[trigger] idx.vec_off@[p] == DIMS * idx.lbl_off@[p],
{
    lemma_routed_total(data, data.len());
    lemma_parts_add_up(idx, data, NUM_PARTS as nat);
    assert forall|p: int| 0 <= p <= NUM_PARTS implies #[trigger] idx.vec_off@[p] == DIMS
        * idx.lbl_off@[p] by {
        lemma_parts_add_up(idx, data, p as nat);
    }
}

/// An index of no records has nothing in it.
pub proof fn empty_index_is_empty(idx: TreeIndex)
    requires
        built_from(idx, Seq::empty()),
    ensures
        idx.nodes@.len() == 0,
        idx.vectors@.len() == 0,
        idx.labels@.len() == 0,
        forall|p: int| 0 <= p < NUM_PARTS ==> #[trigger] idx.roots[p] == -1,
{
    let none = Seq::<RawData<Point>>::empty();
    assert forall|p: int| 0 <= p < NUM_PARTS implies #[trigger] idx.roots[p] == -1
        && idx.node_off@[p + 1] == idx.node_off@[p] && idx.vec_off@[p + 1] == idx.vec_off@[p]
        && idx.lbl_off@[p + 1] == idx.lbl_off@[p] by {
        assert(part_built(
            routed(none, none.len(), p),
            idx.part_nodes(p),
            idx.part_vectors(p),
            idx.part_labels(p),
            idx.roots[p] as int,
        ));
        assert(idx.node_off@[p] <= idx.node_off@[p + 1]);
        assert(idx.vec_off@[p] <= idx.vec_off@[p + 1]);
        assert(idx.lbl_off@[p] <= idx.lbl_off@[p + 1]);
        lemma_offsets(idx.node_off@, idx.nodes@.len(), p + 1);
        lemma_offsets(idx.vec_off@, idx.vectors@.len(), p + 1);
        lemma_offsets(idx.lbl_off@, idx.labels@.len(), p + 1);
    }
    assert(idx.roots[0] == -1 && idx.roots[1] == -1 && idx.roots[2] == -1 && idx.roots[3] == -1
        && idx.roots[4] == -1 && idx.roots[5] == -1 && idx.roots[6] == -1 && idx.roots[7] == -1);
}

} // verus!
