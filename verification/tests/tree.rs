use fraud_index::tree::best::insert_best;
use fraud_index::tree::codec::LoadError;
use fraud_index::tree::grow::{compute_bbox, max_variance_dim, pack_soa, Row};
use fraud_index::tree::index::{build, partition_key, Point, TreeIndex};
use fraud_index::tree::kernel::{lower_bound_box, scan_block, QVec};
use fraud_index::types::RawData;

fn point(x: i16) -> Point {
    let mut q: QVec = [x; 16];
    q[14] = 0;
    q[15] = 0;
    Point { q, card_present: false, is_online: false, has_last_tx: false }
}

fn spread(n: usize) -> Vec<RawData<Point>> {
    let mut x: u32 = 5;
    (0..n)
        .map(|i| {
            let mut q: QVec = [0; 16];
            for d in 0..14 {
                x = x.wrapping_mul(1664525).wrapping_add(1013904223);
                q[d] = (x >> 17) as i16;
            }
            let p = Point {
                q,
                card_present: x & 1024 != 0,
                is_online: x & 4096 != 0,
                has_last_tx: x & 65536 != 0,
            };
            RawData { vector: p, label: if i % 3 == 0 { "fraud" } else { "legit" }.to_string() }
        })
        .collect()
}

fn copies(data: &[RawData<Point>]) -> Vec<RawData<Point>> {
    data.iter().map(|r| RawData { vector: r.vector, label: r.label.clone() }).collect()
}

fn sq(a: &QVec, b: &QVec) -> i64 {
    (0..14).map(|d| (a[d] as i64 - b[d] as i64) * (a[d] as i64 - b[d] as i64)).sum()
}

fn brute(data: &[RawData<Point>], p: &Point) -> usize {
    let key = partition_key(p);
    let mut all: Vec<(i64, bool)> = data
        .iter()
        .filter(|r| partition_key(&r.vector) == key)
        .map(|r| (sq(&r.vector.q, &p.q), r.label == "fraud"))
        .collect();
    all.sort();
    all.iter().take(5).filter(|h| h.1).count()
}

#[test]
fn partitions_go_by_three_features() {
    let mut seen = vec![];
    for bits in 0..8usize {
        let mut p = point(0);
        p.card_present = bits & 1 != 0;
        p.is_online = bits & 2 != 0;
        p.has_last_tx = bits & 4 != 0;
        assert_eq!(partition_key(&p), bits);
        seen.push(partition_key(&p));
    }
    assert_eq!(seen, vec![0, 1, 2, 3, 4, 5, 6, 7]);
}

#[test]
fn boxes_bound_distances() {
    let min: QVec = [10; 16];
    let max: QVec = [20; 16];
    assert_eq!(lower_bound_box(&[15; 16], &min, &max), 0);
    assert_eq!(lower_bound_box(&[7; 16], &min, &max), 14 * 9);
    assert_eq!(lower_bound_box(&[25; 16], &min, &max), 14 * 25);
    assert_eq!(
        lower_bound_box(&[i16::MIN; 16], &[i16::MAX; 16], &[i16::MAX; 16]),
        14 * 65535 * 65535
    );
}

#[test]
fn blocks_hold_eight_vectors() {
    let rows: Vec<Row> = (0..9).map(|i| (point(i as i16).q, (i % 2) as u8)).collect();
    let mut vectors = vec![];
    let mut labels = vec![];
    pack_soa(&rows, &mut vectors, &mut labels);
    assert_eq!(vectors.len(), 2 * 112);
    assert_eq!(labels, vec![0, 1, 0, 1, 0, 1, 0, 1, 0, 0, 0, 0, 0, 0, 0, 0]);
    assert_eq!(&vectors[..8], &[0, 1, 2, 3, 4, 5, 6, 7]);
    assert_eq!(&vectors[112..120], &[8, 0, 0, 0, 0, 0, 0, 0]);
    let dists = scan_block(&vectors, 0, &point(3).q);
    for i in 0..8 {
        assert_eq!(dists[i], 14 * (i as i64 - 3) * (i as i64 - 3));
    }
}

#[test]
fn corners_and_spread() {
    let mut a = point(0).q;
    let mut b = point(0).q;
    a[4] = -100;
    b[4] = 100;
    a[2] = -5;
    let rows: Vec<Row> = vec![(a, 0), (b, 1)];
    let (min, max) = compute_bbox(&rows);
    assert_eq!((min[4], max[4]), (-100, 100));
    assert_eq!((min[2], max[2]), (-5, 0));
    assert_eq!((min[14], max[14]), (0, 0));
    assert_eq!(max_variance_dim(&rows), 4);
    assert_eq!(max_variance_dim(&[(a, 0)]), 0);
}

#[test]
fn the_best_stay_sorted() {
    let mut dists = [i64::MAX; 5];
    let mut labels = [0u8; 5];
    for (d, l) in [(9, 1), (3, 2), (7, 3), (3, 4), (8, 5), (1, 6), (9, 7)] {
        insert_best(d, l, &mut dists, &mut labels);
    }
    assert_eq!(dists, [1, 3, 3, 7, 8]);
    assert_eq!(labels, [6, 2, 4, 3, 5]);
}

#[test]
fn predictions_match_a_full_scan() {
    let data = spread(3000);
    let idx = build(copies(&data));
    assert!(idx.is_valid());
    for r in data.iter().step_by(37) {
        let mut p = r.vector;
        p.q[0] = p.q[0].wrapping_add(11);
        assert_eq!(idx.predict(&p), brute(&data, &p));
    }
}

#[test]
fn labels_vote() {
    let mut data: Vec<RawData<Point>> =
        (0..100).map(|i| RawData { vector: point(i), label: "legit".to_string() }).collect();
    data.extend(
        (0..100).map(|i| RawData { vector: point(20000 + i), label: "fraud".to_string() }),
    );
    let idx = build(data);
    assert_eq!(idx.predict(&point(50)), 0);
    assert_eq!(idx.predict(&point(20050)), 5);
}

#[test]
fn an_empty_partition_flags_nothing() {
    let data = vec![RawData { vector: point(1), label: "fraud".to_string() }];
    let idx = build(data);
    assert_eq!(idx.predict(&point(1)), 1);
    let mut p = point(1);
    p.is_online = true;
    assert_eq!(idx.predict(&p), 0);
    let none = build(vec![]);
    assert!(none.is_valid());
    assert_eq!(none.predict(&p), 0);
}

#[test]
fn saved_tree_loads_the_same() {
    let data = spread(700);
    let idx = build(copies(&data));
    let bytes = idx.save();
    assert_eq!(&bytes[..8], b"KDTR0001");
    assert_eq!(
        bytes.len(),
        136 + 80 * idx.nodes.len() + 2 * idx.vectors.len() + idx.labels.len()
    );
    let back = TreeIndex::load(&bytes).ok().unwrap();
    assert!(back.is_valid());
    assert_eq!(back.roots, idx.roots);
    assert_eq!(back.node_off, idx.node_off);
    assert_eq!(back.vec_off, idx.vec_off);
    assert_eq!(back.lbl_off, idx.lbl_off);
    assert_eq!(back.vectors, idx.vectors);
    assert_eq!(back.labels, idx.labels);
    assert_eq!(back.nodes.len(), idx.nodes.len());
    for r in data.iter().step_by(29) {
        assert_eq!(back.predict(&r.vector), idx.predict(&r.vector));
    }
}

#[test]
fn bad_tree_files_are_refused() {
    let bytes = build(spread(20)).save();
    assert!(matches!(TreeIndex::load(&[]), Err(LoadError::Truncated)));
    assert!(matches!(TreeIndex::load(b"KDTR000"), Err(LoadError::Truncated)));
    assert!(matches!(TreeIndex::load(b"KDTR0002"), Err(LoadError::BadMagic)));
    for n in 8..bytes.len() {
        assert!(matches!(TreeIndex::load(&bytes[..n]), Err(LoadError::Truncated)));
    }
}

#[test]
fn stray_nodes_are_told() {
    let mut idx = build(spread(300));
    assert!(idx.is_valid());
    let p = (0..8).find(|p| idx.roots[*p] >= 0).unwrap();
    idx.roots[p] = 9999;
    assert!(!idx.is_valid());
    let mut idx = build(spread(300));
    let last = idx.nodes.len() - 1;
    idx.nodes[last].start = 1_000_000;
    assert!(!idx.is_valid());
    let mut idx = build(spread(300));
    idx.labels.pop();
    assert!(!idx.is_valid());
}

#[test]
fn nodes_may_stand_in_any_order() {
    let data = spread(3000);
    let idx = build(copies(&data));
    let mut turned = build(copies(&data));
    for p in 0..8 {
        let (a, b) = (turned.node_off[p], turned.node_off[p + 1]);
        let last = (b - a) as i32 - 1;
        turned.nodes[a..b].reverse();
        for node in &mut turned.nodes[a..b] {
            if node.left >= 0 {
                node.left = last - node.left;
                node.right = last - node.right;
            }
        }
        turned.roots[p] = if turned.roots[p] < 0 { -1 } else { last - turned.roots[p] };
    }
    assert!(turned.is_valid());
    for r in data.iter().step_by(31) {
        let mut p = r.vector;
        p.q[3] = p.q[3].wrapping_sub(7);
        assert_eq!(turned.predict(&p), brute(&data, &p));
        assert_eq!(turned.predict(&p), idx.predict(&p));
    }
}

#[test]
fn circles_of_nodes_are_told() {
    let whole = spread(3000);
    let inner = |idx: &TreeIndex| {
        let p = (0..8).find(|p| idx.nodes[idx.node_off[*p]].left >= 0).unwrap();
        idx.node_off[p]
    };
    let mut idx = build(copies(&whole));
    let i = inner(&idx);
    idx.nodes[i].left = 0;
    assert!(!idx.is_valid());
    let mut idx = build(copies(&whole));
    let i = inner(&idx);
    let child = idx.nodes[i].right as usize;
    idx.nodes[i + child].left = 0;
    idx.nodes[i + child].right = 0;
    assert!(!idx.is_valid());
    let mut idx = build(copies(&whole));
    let i = inner(&idx);
    idx.nodes[i].right = -1;
    assert!(!idx.is_valid());
    let mut idx = build(copies(&whole));
    let i = inner(&idx);
    idx.nodes[i].left = i32::MAX;
    assert!(!idx.is_valid());
    let mut idx = build(copies(&whole));
    let i = inner(&idx);
    idx.nodes[i].right = idx.nodes[i].left;
    assert!(idx.is_valid());
}

#[test]
fn packed_blocks_keep_every_distance() {
    let rows: Vec<Row> = spread(29).iter().map(|r| (r.vector.q, 0)).collect();
    let mut vectors = vec![];
    let mut labels = vec![];
    pack_soa(&rows, &mut vectors, &mut labels);
    let mut q: QVec = [-321; 16];
    q[14] = 9;
    q[15] = -9;
    for (i, row) in rows.iter().enumerate() {
        let want: i64 = (0..14).map(|d| (q[d] as i64 - row.0[d] as i64).pow(2)).sum();
        assert_eq!(scan_block(&vectors, i / 8 * 112, &q)[i % 8], want);
    }
}

#[test]
fn pretouch_reads_one_value_per_stride() {
    let mut idx = build(vec![]);
    idx.vectors = vec![0; 600];
    idx.vectors[0] = 0x1234;
    idx.vectors[256] = -1;
    idx.vectors[257] = 99;
    idx.labels = vec![0; 5000];
    idx.labels[4096] = 0x0f;
    assert_eq!(idx.touched(), 0x34 ^ 0xff ^ 0x0f);
    idx.pretouch();
}

#[test]
fn an_empty_index_has_a_bare_file() {
    let bytes = build(vec![]).save();
    assert_eq!(bytes.len(), 136);
    assert_eq!(&bytes[..8], b"KDTR0001");
    for p in 0..8 {
        let head = &bytes[8 + 16 * p..24 + 16 * p];
        assert_eq!(head, [0xff, 0xff, 0xff, 0xff, 0, 0, 0, 0, 0, 0, 0, 0, 0, 0, 0, 0]);
    }
}

#[test]
fn records_are_halved_into_leaves() {
    let data = (0..65)
        .map(|_| RawData { vector: point(0), label: "fraud".to_string() })
        .collect();
    let idx = build(data);
    assert_eq!(idx.roots[0], 0);
    assert_eq!(idx.nodes.len(), 3);
    assert_eq!((idx.nodes[0].left, idx.nodes[0].right), (1, 2));
    let leaf = |i: usize| {
        let n = &idx.nodes[i];
        (n.left, n.right, n.start, n.count)
    };
    assert_eq!(leaf(1), (-1, -1, 0, 32));
    assert_eq!(leaf(2), (-1, -1, 4, 33));
    assert_eq!(idx.vectors.len(), 1008);
    assert_eq!(idx.labels.len(), 72);
}

#[test]
fn splits_go_by_the_feature_that_varies_most() {
    let data: Vec<RawData<Point>> = (0..100i16)
        .map(|i| {
            let mut p = point(0);
            p.q[0] = i % 2;
            p.q[3] = (i * 37) % 100;
            RawData { vector: p, label: "legit".to_string() }
        })
        .collect();
    let idx = build(data);
    assert_eq!(idx.nodes.len(), 3);
    assert_eq!((idx.nodes[0].min[3], idx.nodes[0].max[3]), (0, 99));
    assert_eq!((idx.nodes[1].min[3], idx.nodes[1].max[3]), (0, 49));
    assert_eq!((idx.nodes[2].min[3], idx.nodes[2].max[3]), (50, 99));
}

#[test]
fn leaves_own_every_record() {
    let data = spread(1000);
    let idx = build(copies(&data));
    let owned: usize = idx.nodes.iter().filter(|n| n.left < 0).map(|n| n.count as usize).sum();
    assert_eq!(owned, 1000);
    for n in &idx.nodes {
        assert!(n.left >= 0 || (1..=64).contains(&n.count));
    }
    for p in 0..9 {
        assert_eq!(idx.vec_off[p], 14 * idx.lbl_off[p]);
    }
}

#[test]
fn predictions_do_not_change() {
    let mut data = spread(300);
    for r in data.iter_mut() {
        r.vector = point(7);
    }
    let idx = build(data);
    let p = point(9);
    let first = idx.predict(&p);
    idx.pretouch();
    assert_eq!(idx.predict(&p), first);
    let back = TreeIndex::load(&idx.save()).ok().unwrap();
    assert_eq!(back.predict(&p), first);
}
