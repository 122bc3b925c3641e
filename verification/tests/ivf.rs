use fraud_index::distance::BVec;
use fraud_index::ivf::builder::build_ivf;
use fraud_index::ivf::codec::LoadError;
use fraud_index::ivf::index::{sq_dist_u8, BucketMeta, StaticIVF};
use fraud_index::ivf::kmeans::kmeans;
use fraud_index::types::RawData;

fn mean(sum: u64, count: u64) -> u8 {
    (sum as f32 / count as f32).clamp(0.0, 255.0) as u8
}

fn quantize(v: &[f32; 16]) -> BVec {
    let mut q = [0u8; 16];
    for i in 0..16 {
        q[i] = ((v[i] + 1.0) * 127.5).clamp(0.0, 255.0) as u8;
    }
    q
}

fn record(x: f32, label: &str) -> RawData<BVec> {
    let mut v = [0.0f32; 16];
    for i in 0..14 {
        v[i] = x;
    }
    RawData { vector: quantize(&v), label: label.to_string() }
}

fn point(x: f32) -> BVec {
    record(x, "").vector
}

#[test]
fn test_kmeans_separates_clusters() {
    let low: Vec<[u8; 16]> = (0..50).map(|_| [10u8; 16]).collect();
    let high: Vec<[u8; 16]> = (0..50).map(|_| [240u8; 16]).collect();
    let vecs = [low, high].concat();

    let (_, asgn) = kmeans(&vecs, 2, 10, &mean);

    assert_eq!(asgn[0], asgn[25]);
    assert_ne!(asgn[0], asgn[75]);
}

#[test]
fn test_build_and_predict() {
    let mut data: Vec<RawData<BVec>> = (0..200).map(|_| record(0.0, "legit")).collect();
    data.extend((0..200).map(|_| record(1.0, "fraud")));

    let idx = build_ivf(4, 1, 5, 5, &data, &mean);

    assert_eq!(idx.predict(&point(0.0)), 0);
    assert_eq!(idx.predict(&point(1.0)), 5);
}

#[test]
fn distances_count_all_entries() {
    let a = [10u8; 16];
    let mut b = [10u8; 16];
    assert_eq!(sq_dist_u8(&a, &b), 0);
    b[0] = 13;
    b[15] = 6;
    assert_eq!(sq_dist_u8(&a, &b), 25);
    assert_eq!(sq_dist_u8(&b, &a), 25);
    assert_eq!(sq_dist_u8(&[0u8; 16], &[255u8; 16]), 16 * 255 * 255);
}

#[test]
fn centroids_settle_on_means() {
    let vecs = vec![[10u8; 16], [20u8; 16], [30u8; 16]];
    let (centroids, asgn) = kmeans(&vecs, 1, 3, &mean);
    assert_eq!(centroids, vec![[20u8; 16]]);
    assert_eq!(asgn, vec![0, 0, 0]);
}

#[test]
fn no_rounds_leave_the_seeds() {
    let vecs = vec![[10u8; 16], [20u8; 16], [30u8; 16]];
    let (centroids, asgn) = kmeans(&vecs, 2, 0, &mean);
    assert_eq!(centroids.len(), 2);
    for c in &centroids {
        assert!(vecs.contains(c));
    }
    assert_eq!(asgn, vec![0, 0, 0]);
}

#[test]
fn vectors_go_to_their_nearest_centroid() {
    let vecs: Vec<[u8; 16]> = (0..60u8).map(|i| [i.wrapping_mul(37); 16]).collect();
    let (centroids, asgn) = kmeans(&vecs, 5, 1, &|_: u64, _: u64| 0u8);
    let (seeds, _) = kmeans(&vecs, 5, 0, &mean);
    assert_eq!(centroids.len(), 5);
    for (v, a) in vecs.iter().zip(&asgn) {
        let own = sq_dist_u8(v, &seeds[*a as usize]);
        for s in &seeds {
            assert!(own <= sq_dist_u8(v, s));
        }
    }
}

#[test]
fn nothing_to_cluster() {
    let (centroids, asgn) = kmeans(&[], 0, 5, &mean);
    assert!(centroids.is_empty());
    assert!(asgn.is_empty());
    let idx = build_ivf(0, 1, 5, 5, &[], &mean);
    assert_eq!(idx.predict(&[0u8; 16]), 0);
}

fn spread(n: usize) -> Vec<RawData<BVec>> {
    let mut x: u32 = 7;
    (0..n)
        .map(|i| {
            let mut v = [0u8; 16];
            for d in 0..16 {
                x = x.wrapping_mul(1664525).wrapping_add(1013904223);
                v[d] = (x >> 24) as u8;
            }
            RawData { vector: v, label: if i % 3 == 0 { "fraud" } else { "legit" }.to_string() }
        })
        .collect()
}

#[test]
fn buckets_hold_each_record_once() {
    let data = spread(100);
    let idx = build_ivf(7, 2, 5, 4, &data, &mean);
    assert!(idx.is_valid());
    assert_eq!(idx.buckets.len(), 7);
    let mut next = 0;
    for b in &idx.buckets {
        assert_eq!(b.start, next);
        next += b.len;
    }
    assert_eq!(next, 100);
    let mut got: Vec<(BVec, u8)> =
        idx.vectors.iter().cloned().zip(idx.labels.iter().cloned()).collect();
    let mut want: Vec<(BVec, u8)> =
        data.iter().map(|r| (r.vector, (r.label == "fraud") as u8)).collect();
    got.sort();
    want.sort();
    assert_eq!(got, want);
}

#[test]
fn probing_every_bucket_finds_the_nearest() {
    let data = spread(120);
    let idx = build_ivf(6, 6, 5, 4, &data, &mean);
    for r in data.iter().step_by(11) {
        let mut q = r.vector;
        q[3] ^= 5;
        let mut all: Vec<(u32, bool)> =
            data.iter().map(|d| (sq_dist_u8(&q, &d.vector), d.label == "fraud")).collect();
        all.sort();
        assert!(all[4].0 < all[5].0);
        let want = all[..5].iter().filter(|h| h.1).count();
        assert_eq!(idx.predict(&q), want);
    }
}

#[test]
fn narrow_settings_flag_nothing() {
    let data = spread(20);
    let idx = build_ivf(3, 0, 5, 2, &data, &mean);
    assert_eq!(idx.predict(&data[0].vector), 0);
    let idx = build_ivf(3, 3, 0, 2, &data, &mean);
    assert_eq!(idx.predict(&data[0].vector), 0);
}

#[test]
fn votes_are_capped() {
    let data: Vec<RawData<BVec>> = (0..50).map(|_| record(0.5, "fraud")).collect();
    let idx = build_ivf(1, 1, 50, 1, &data, &mean);
    assert_eq!(idx.predict(&point(0.5)), 32);
}

#[test]
fn saved_index_loads_the_same() {
    let data = spread(40);
    let idx = build_ivf(4, 2, 5, 3, &data, &mean);
    let bytes = idx.save();
    assert_eq!(bytes.len(), 32 + 4 * 24 + 40 * 17);
    assert_eq!(&bytes[..8], &[0x49, 0x56, 0x46, 0x31, 1, 0, 0, 0]);
    let back = StaticIVF::load(&bytes).ok().unwrap();
    assert!(back.is_valid());
    assert_eq!(back.centroids, idx.centroids);
    assert_eq!(back.buckets, idx.buckets);
    assert_eq!(back.vectors, idx.vectors);
    assert_eq!(back.labels, idx.labels);
    assert_eq!((back.nprobe, back.k), (2, 5));
    for r in &data {
        assert_eq!(back.predict(&r.vector), idx.predict(&r.vector));
    }
}

#[test]
fn bad_ivf_files_are_refused() {
    let bytes = build_ivf(2, 1, 5, 1, &spread(5), &mean).save();
    assert!(matches!(StaticIVF::load(&[]), Err(LoadError::Truncated)));
    assert!(matches!(StaticIVF::load(b"IVF"), Err(LoadError::Truncated)));
    assert!(matches!(StaticIVF::load(b"IVF1"), Err(LoadError::Truncated)));
    assert!(matches!(StaticIVF::load(b"HNSW"), Err(LoadError::BadMagic)));
    let mut other = bytes.clone();
    other[4] = 2;
    assert!(matches!(StaticIVF::load(&other), Err(LoadError::BadVersion)));
    for n in 5..bytes.len() - 5 {
        assert!(matches!(StaticIVF::load(&bytes[..n]), Err(LoadError::Truncated)));
    }
    let mut huge = bytes.clone();
    for i in 24..32 {
        huge[i] = 0xff;
    }
    assert!(matches!(StaticIVF::load(&huge), Err(LoadError::Truncated)));
}

#[test]
fn ivf_files_may_end_inside_the_labels() {
    let whole = build_ivf(2, 1, 5, 1, &spread(5), &mean);
    let bytes = whole.save();
    for n in 0..5 {
        let idx = StaticIVF::load(&bytes[..bytes.len() - 5 + n]).ok().unwrap();
        assert_eq!(idx.labels, whole.labels[..n]);
        assert_eq!(idx.vectors, whole.vectors);
        assert!(!idx.is_valid());
    }
}

#[test]
fn stray_buckets_are_told() {
    let mut idx = build_ivf(2, 1, 5, 1, &spread(5), &mean);
    assert!(idx.is_valid());
    idx.buckets[0] = BucketMeta { start: 3, len: 3 };
    assert!(!idx.is_valid());
    let idx = StaticIVF::from_parts(vec![[0u8; 16]], vec![], vec![], vec![], 1, 1);
    assert!(!idx.is_valid());
}

#[test]
fn prefetch_of_buckets_reads_one_byte_per_page() {
    let mut vectors = vec![[0u8; 16]; 600];
    vectors[0][0] = 200;
    vectors[256][0] = 100;
    vectors[512][0] = 7;
    vectors[513][0] = 50;
    let mut labels = vec![0u8; 600];
    labels[0] = 3;
    let idx = StaticIVF::from_parts(vec![], vec![], vectors, labels, 1, 1);
    assert_eq!(idx.touched(), 200u8.wrapping_add(100).wrapping_add(7).wrapping_add(3));
    idx.prefetch();
}
