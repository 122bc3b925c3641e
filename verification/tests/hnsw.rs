use fraud_index::distance::BVec;
use fraud_index::hnsw::codec::LoadError;
use fraud_index::hnsw::freeze::build_index;
use fraud_index::hnsw::graph::BuildGraph;
use fraud_index::hnsw::index::{sq_dist_u8, StaticHNSW, NONE};
use fraud_index::hnsw::visited::{BuildBufs, VisitedTable};
use fraud_index::types::RawData;

fn spread(n: usize) -> Vec<RawData<BVec>> {
    let mut x: u32 = 99;
    (0..n)
        .map(|i| {
            let mut v = [127u8; 16];
            for d in 0..14 {
                x = x.wrapping_mul(1664525).wrapping_add(1013904223);
                v[d] = (x >> 24) as u8;
            }
            RawData { vector: v, label: if i % 4 == 0 { "fraud" } else { "legit" }.to_string() }
        })
        .collect()
}

fn level_of(draw: u64) -> usize {
    let u = (draw >> 11) as f64 / (1u64 << 53) as f64;
    (-u.max(f64::MIN_POSITIVE).ln() * (1.0 / 8f64.ln())) as usize
}

fn built(data: &[RawData<BVec>], m: usize, ef: usize, k: usize) -> StaticHNSW {
    build_index(
        m,
        40,
        ef,
        k,
        data,
        &|a: u32, b: u32| sq_dist_u8(&data[a as usize].vector, &data[b as usize].vector),
        &level_of,
    )
}

#[test]
fn distances_leave_padding_out() {
    let a = [10u8; 16];
    let mut b = [10u8; 16];
    b[14] = 0;
    b[15] = 255;
    assert_eq!(sq_dist_u8(&a, &b), 0);
    b[13] = 20;
    assert_eq!(sq_dist_u8(&a, &b), 100);
}

#[test]
fn visits_are_forgotten_on_reset() {
    let mut t = VisitedTable::new(3);
    assert!(t.visit(1));
    assert!(!t.visit(1));
    assert!(t.visit(2));
    t.reset();
    assert!(t.visit(1));
    t.ensure_capacity(10);
    assert!(!t.visit(1));
    assert!(t.visit(9));
    assert!(!t.visit(9));
}

#[test]
fn generations_start_over() {
    let mut t = VisitedTable::new(2);
    t.generation = u32::MAX;
    assert!(t.visit(0));
    assert!(!t.visit(0));
    t.reset();
    assert_eq!(t.generation, 1);
    assert!(t.visit(0));
    assert!(t.visit(1));
}

#[test]
fn an_empty_graph_flags_nothing() {
    let idx = built(&[], 8, 10, 5);
    assert!(idx.is_valid());
    let mut v = VisitedTable::new(0);
    assert_eq!(idx.predict(&[0u8; 16], &mut v), 0);
    assert_eq!(idx.vote(&[0u8; 16], &mut v), (0, 0));
}

#[test]
fn clusters_are_told_apart() {
    let mut data: Vec<RawData<BVec>> = (0..60)
        .map(|i| RawData { vector: [10 + i % 3; 16], label: "legit".to_string() })
        .collect();
    data.extend(
        (0..60).map(|i| RawData { vector: [240 + i % 3; 16], label: "fraud".to_string() }),
    );
    let idx = built(&data, 8, 30, 5);
    let mut v = VisitedTable::new(0);
    assert_eq!(idx.predict(&[11u8; 16], &mut v), 0);
    assert_eq!(idx.predict(&[241u8; 16], &mut v), 5);
    assert_eq!(idx.vote(&[241u8; 16], &mut v), (5, 5));
}

#[test]
fn a_wide_beam_finds_the_nearest() {
    let data = spread(150);
    let idx = built(&data, 8, 150, 5);
    let mut v = VisitedTable::new(0);
    for r in data.iter().step_by(13) {
        let mut q = r.vector;
        q[2] ^= 3;
        let mut all: Vec<(u32, usize)> = data
            .iter()
            .enumerate()
            .map(|(i, d)| (sq_dist_u8(&q, &d.vector), i))
            .collect();
        all.sort();
        let want = all[..5].iter().filter(|h| data[h.1].label == "fraud").count();
        assert_eq!(idx.predict(&q, &mut v), want);
    }
}

#[test]
fn fewer_nodes_than_voters() {
    let data = spread(3);
    let idx = built(&data, 4, 10, 5);
    let mut v = VisitedTable::new(0);
    assert_eq!(idx.vote(&data[1].vector, &mut v), (1, 3));
}

#[test]
fn links_stay_within_bounds() {
    let data = spread(200);
    let distance =
        |a: u32, b: u32| sq_dist_u8(&data[a as usize].vector, &data[b as usize].vector);
    let mut g = BuildGraph::new(5, 20);
    let mut v = BuildBufs::new();
    for r in &data {
        g.insert(r.vector, r.is_fraud(), &distance, &level_of, &mut v);
    }
    assert_eq!(g.connections.len(), 200);
    let mut top = 0;
    for (id, lists) in g.connections.iter().enumerate() {
        assert!(!lists.is_empty());
        for (l, list) in lists.iter().enumerate() {
            assert!(list.len() <= if l == 0 { 10 } else { 5 });
            for nb in list {
                assert!((*nb as usize) < 200 && *nb as usize != id);
            }
        }
        if lists.len() > g.connections[top].len() {
            top = id;
        }
    }
    assert_eq!(g.connections[g.entry as usize].len(), g.max_level + 1);
    assert_eq!(g.connections[top].len(), g.max_level + 1);
}

#[test]
fn the_first_node_is_the_entry() {
    let mut g = BuildGraph::new(4, 10);
    let mut v = BuildBufs::new();
    g.insert([1u8; 16], true, &|_: u32, _: u32| 0, &|_: u64| 2, &mut v);
    assert_eq!(g.entry, 0);
    assert_eq!(g.max_level, 2);
    assert_eq!(g.connections, vec![vec![vec![], vec![], vec![]]]);
    g.insert([2u8; 16], false, &|_: u32, _: u32| 0, &|_: u64| 1, &mut v);
    assert_eq!(g.entry, 0);
    assert_eq!(g.connections[1], vec![vec![0], vec![0]]);
    assert_eq!(g.connections[0], vec![vec![1], vec![1], vec![]]);
    g.insert([3u8; 16], false, &|a: u32, b: u32| if a > b { a - b } else { b - a }, &|_: u64| 3, &mut v);
    assert_eq!(g.entry, 2);
    assert_eq!(g.max_level, 3);
    assert_eq!(g.connections[2], vec![vec![1, 0], vec![1, 0], vec![0], vec![]]);
    assert_eq!(g.labels, vec![true, false, false]);
}

#[test]
fn draws_follow_the_seed() {
    let mut g = BuildGraph::new(4, 10);
    let seed: u64 = 0x6c62272e07bb0142;
    let mut r = seed;
    r ^= r << 13;
    r ^= r >> 7;
    r ^= r << 17;
    assert_eq!(g.rng, seed);
    assert_eq!(g.rand_level(&|x: u64| (x % 7) as usize), (r % 7) as usize);
    assert_eq!(g.rng, r);
}

#[test]
fn rows_end_with_none() {
    let mut g = BuildGraph::new(2, 10);
    let mut v = BuildBufs::new();
    g.insert([1u8; 16], true, &|_: u32, _: u32| 0, &|_: u64| 1, &mut v);
    g.insert([2u8; 16], false, &|_: u32, _: u32| 0, &|_: u64| 0, &mut v);
    let idx = g.freeze(7, 3);
    assert_eq!(idx.m_max0, 4);
    assert_eq!(idx.links0, vec![1, NONE, NONE, NONE, 0, NONE, NONE, NONE]);
    assert_eq!(idx.links0_row(0), &[1]);
    assert_eq!(idx.labels, vec![1, 0]);
    assert_eq!((idx.ef_search, idx.k, idx.entry, idx.max_level), (7, 3, 0, 1));
    assert_eq!(idx.upper.len(), 1);
    assert_eq!(idx.upper[&0], vec![Vec::<u32>::new()]);
    assert_eq!(idx.upper_keys(), vec![0]);
}

#[test]
fn both_builders_agree() {
    let data = spread(40);
    let distance =
        |a: u32, b: u32| sq_dist_u8(&data[a as usize].vector, &data[b as usize].vector);
    let a = build_index(4, 20, 10, 5, &data, &distance, &level_of);
    let b = StaticHNSW::build(4, 20, 10, 5, &data, &distance, &level_of);
    assert_eq!(a.links0, b.links0);
    assert_eq!(a.upper, b.upper);
}

#[test]
fn saved_graph_loads_the_same() {
    for n in [0usize, 1, 2, 3, 60] {
        let data = spread(n);
        let idx = built(&data, 4, 20, 5);
        let bytes = idx.save();
        assert_eq!(&bytes[..8], &[0x48, 0x4e, 0x53, 0x57, 2, 0, 0, 0]);
        let back = StaticHNSW::load(&bytes).ok().unwrap();
        assert!(back.is_valid());
        assert_eq!(back.vectors, idx.vectors);
        assert_eq!(back.labels, idx.labels);
        assert_eq!(back.links0, idx.links0);
        assert_eq!(back.upper, idx.upper);
        assert_eq!(
            (back.m_max0, back.entry, back.max_level, back.ef_search, back.k),
            (idx.m_max0, idx.entry, idx.max_level, idx.ef_search, idx.k)
        );
        let mut v = VisitedTable::new(0);
        for r in &data {
            assert_eq!(back.vote(&r.vector, &mut v), idx.vote(&r.vector, &mut v));
        }
    }
}

#[test]
fn bad_graph_files_are_refused() {
    let data = spread(7);
    let dist = |a: u32, b: u32| sq_dist_u8(&data[a as usize].vector, &data[b as usize].vector);
    let bytes = build_index(2, 40, 10, 5, &data, &dist, &|_: u64| 1).save();
    assert!(matches!(StaticHNSW::load(&[]), Err(LoadError::Truncated)));
    assert!(matches!(StaticHNSW::load(b"HNSW"), Err(LoadError::Truncated)));
    assert!(matches!(StaticHNSW::load(b"IVF1"), Err(LoadError::BadMagic)));
    let mut other = bytes.clone();
    other[4] = 1;
    assert!(matches!(StaticHNSW::load(&other), Err(LoadError::BadVersion)));
    for n in 5..bytes.len() {
        assert!(matches!(StaticHNSW::load(&bytes[..n]), Err(LoadError::Truncated)));
    }
    let mut huge = bytes.clone();
    for i in 8..20 {
        huge[i] = 0xff;
    }
    assert!(matches!(StaticHNSW::load(&huge), Err(LoadError::Truncated)));
}

#[test]
fn graph_files_may_end_inside_the_rows() {
    let data = spread(3);
    let dist = |a: u32, b: u32| sq_dist_u8(&data[a as usize].vector, &data[b as usize].vector);
    let flat = build_index(2, 10, 10, 5, &data, &dist, &|_: u64| 0);
    let bytes = flat.save();
    assert_eq!(flat.links0.len(), 12);
    for n in 0..48 {
        let idx = StaticHNSW::load(&bytes[..bytes.len() - 48 + n]).ok().unwrap();
        assert_eq!(idx.links0, flat.links0[..n / 4]);
        assert!(!idx.is_valid());
    }
    let short = &bytes[..bytes.len() - 49];
    assert!(matches!(StaticHNSW::load(short), Err(LoadError::Truncated)));
}

#[test]
fn stray_links_are_told() {
    let data = spread(30);
    let mut idx = built(&data, 4, 20, 5);
    assert!(idx.is_valid());
    idx.links0[0] = 30;
    assert!(!idx.is_valid());
    let mut idx = built(&data, 4, 20, 5);
    idx.entry = 30;
    assert!(!idx.is_valid());
    let mut idx = built(&data, 4, 20, 5);
    idx.upper.insert(30, vec![]);
    assert!(!idx.is_valid());
    let mut idx = built(&data, 4, 20, 5);
    idx.upper.insert(3, vec![vec![99]]);
    assert!(!idx.is_valid());
    let mut idx = built(&data, 4, 20, 5);
    idx.labels.pop();
    assert!(!idx.is_valid());
    let mut idx = built(&data, 4, 20, 5);
    idx.links0.pop();
    assert!(!idx.is_valid());
}

#[test]
fn prefetch_of_a_graph_reads_one_byte_per_page() {
    let mut idx = built(&[], 2, 10, 5);
    idx.vectors = vec![[0u8; 16]; 300];
    idx.vectors[0][0] = 250;
    idx.vectors[256][0] = 9;
    idx.vectors[1][0] = 77;
    idx.links0 = vec![0u32; 1200];
    idx.links0[0] = 0x105;
    idx.links0[1024] = 0x302;
    assert_eq!(idx.touched(), 250u8.wrapping_add(9).wrapping_add(5).wrapping_add(2));
    idx.prefetch();
}
