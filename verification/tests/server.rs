use std::io::Write;

use fraud_index::balance::{next_try, other, RoundRobin};
use fraud_index::health::is_healthy;
use fraud_index::knn::KNNModel;
use fraud_index::loader::{DataLoader, LoadError};
use fraud_index::server::{
    parse_content_length, ready_response, refusal, score_response, BufPool, ConnBuf, RESPONSES,
    RESP_400, RESP_READY,
};
use fraud_index::types::{label_counts, RawData};

fn split(resp: &str) -> (&str, &str) {
    let at = resp.find("\r\n\r\n").unwrap();
    (&resp[..at], &resp[at + 4..])
}

#[test]
fn answers_announce_their_length() {
    let mut all = vec![RESP_READY, RESP_400];
    all.extend_from_slice(&RESPONSES);
    for resp in all {
        let (head, body) = split(resp);
        assert_eq!(parse_content_length(head.as_bytes()), Some(body.len()));
    }
}

#[test]
fn answers_carry_the_score() {
    for n in 0..6usize {
        let resp = std::str::from_utf8(score_response(n)).unwrap();
        assert_eq!(resp, RESPONSES[n]);
        let (head, body) = split(resp);
        assert!(head.starts_with("HTTP/1.1 200 OK"));
        let want = format!(
            "{{\"approved\":{},\"fraud_score\":{:.1}}}",
            n < 3,
            n as f64 / 5.0
        );
        assert_eq!(body, want);
    }
    assert_eq!(ready_response(), RESP_READY.as_bytes());
    assert_eq!(refusal(), RESP_400.as_bytes());
}

#[test]
fn lengths_are_read_off_heads() {
    let read = |s: &str| parse_content_length(s.as_bytes());
    assert_eq!(read("POST / HTTP/1.1\r\nContent-Length: 12"), Some(12));
    assert_eq!(read("POST / HTTP/1.1\r\ncontent-length:12\r\nHost: x"), Some(12));
    assert_eq!(read("POST / HTTP/1.1\r\nHost: x\r\nCONTENT-LENGTH:\t 7 \r\n"), Some(7));
    assert_eq!(read("POST / HTTP/1.1\r\nHost: x"), None);
    assert_eq!(read(""), None);
    assert_eq!(read("Content-Length: "), None);
    assert_eq!(read("Content-Length: 1x"), None);
    assert_eq!(read("Content-Length: -1"), None);
    assert_eq!(read("Content-Length: 99999999999999999999999"), None);
    assert_eq!(read("Content-Length: 0\r\nContent-Length: 5"), Some(0));
    assert_eq!(read("X-Content-Length: 5"), None);
    assert_eq!(read("Content-Length : 5"), None);
}

#[test]
fn buffers_come_back_empty() {
    let mut pool = BufPool::new();
    assert_eq!(pool.free.len(), 16);
    let mut buf = ConnBuf::acquire(&mut pool);
    assert_eq!(pool.free.len(), 15);
    assert!(buf.read.is_empty() && buf.write.is_empty());
    assert!(buf.read.capacity() >= 8192 && buf.write.capacity() >= 128);
    buf.read.extend_from_slice(b"abc");
    buf.write.extend_from_slice(b"def");
    buf.release(&mut pool);
    assert_eq!(pool.free.len(), 16);
    let buf = ConnBuf::acquire(&mut pool);
    assert!(buf.read.is_empty() && buf.write.is_empty());
}

#[test]
fn an_empty_pool_makes_new_buffers() {
    let mut pool = BufPool { free: vec![] };
    let buf = ConnBuf::acquire(&mut pool);
    assert!(buf.read.is_empty() && buf.write.is_empty());
    assert!(pool.free.is_empty());
    buf.release(&mut pool);
    assert_eq!(pool.free.len(), 1);
}

#[test]
fn servers_take_turns() {
    let mut r = RoundRobin::new();
    let picks: Vec<usize> = (0..5).map(|_| r.pick()).collect();
    assert_eq!(picks, vec![0, 1, 0, 1, 0]);
    let mut r = RoundRobin { turn: usize::MAX };
    assert_eq!(r.pick(), 1);
    assert_eq!(r.pick(), 0);
    assert_eq!(other(0), 1);
    assert_eq!(other(1), 0);
}

#[test]
fn a_server_is_tried_fifty_times() {
    let mut failed = 0;
    let mut waited = 0;
    while let Some(wait) = next_try(failed) {
        waited += wait;
        failed += 1;
    }
    assert_eq!(failed, 50);
    assert_eq!(waited, 5000);
    assert_eq!(next_try(0), Some(100));
    assert_eq!(next_try(49), Some(100));
    assert_eq!(next_try(50), None);
    assert_eq!(next_try(u32::MAX), None);
}

#[test]
fn health_goes_by_the_status() {
    assert!(is_healthy(b"HTTP/1.1 200 OK\r", 16));
    assert!(is_healthy(b"HTTP/1.1 200 OK\r", 12));
    assert!(!is_healthy(b"HTTP/1.1 200 OK\r", 11));
    assert!(!is_healthy(b"HTTP/1.1 400 Bad", 16));
    assert!(!is_healthy(b"", 0));
}

#[test]
fn records_vote_by_number() {
    let data: Vec<RawData<u8>> = ["fraud", "legit", "fraud", ""]
        .iter()
        .map(|l| RawData { vector: 0, label: l.to_string() })
        .collect();
    let model = KNNModel::new(3, &data);
    assert_eq!(model.k, 3);
    assert_eq!(model.is_fraud, vec![true, false, true, false]);
    assert_eq!(model.predict(&[0, 1, 2]), 2);
    assert_eq!(model.predict(&[1, 3]), 0);
    assert_eq!(model.predict(&[]), 0);
    assert_eq!(label_counts(&data), (2, 2));
}

#[test]
fn packed_data_is_unpacked() {
    let text = b"[{\"vector\":[0.5],\"label\":\"fraud\"}]".repeat(50);
    let mut enc = flate2::write::GzEncoder::new(Vec::new(), flate2::Compression::default());
    enc.write_all(&text).unwrap();
    let packed = enc.finish().unwrap();
    assert_ne!(packed, text);
    assert_eq!(DataLoader::load_train_data(&packed), Ok(text));
}

#[test]
fn corrupt_data_is_refused() {
    assert_eq!(DataLoader::load_train_data(b"no gzip"), Err(LoadError::Corrupt));
    assert_eq!(DataLoader::load_train_data(b""), Err(LoadError::Corrupt));
    let mut enc = flate2::write::GzEncoder::new(Vec::new(), flate2::Compression::default());
    std::io::Write::write_all(&mut enc, b"hello").unwrap();
    let packed = enc.finish().unwrap();
    assert_eq!(
        DataLoader::load_train_data(&packed[..packed.len() - 1]),
        Err(LoadError::Corrupt)
    );
}
