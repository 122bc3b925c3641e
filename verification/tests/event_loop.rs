use fraud_index::event_loop::conn::{Conn, Got, Put, ReadResult, SendResult, Verdict};
use fraud_index::event_loop::find::find_first;
use fraud_index::event_loop::table::{Table, BUF_CAP, MAX_FDS};
use fraud_index::event_loop::turn::{
    after_read, after_send, begin, task_for, Effect, Stage, Task,
};
use fraud_index::server::{RESPONSES, RESP_400, RESP_READY};

fn feed(conn: &mut Conn, bytes: &[u8], score: &dyn Fn(&[u8]) -> Option<usize>) -> ReadResult {
    let at = conn.filled;
    assert!(bytes.len() <= conn.room());
    conn.rbuf[at..at + bytes.len()].copy_from_slice(bytes);
    conn.received(Got::Bytes(bytes.len()), &|b: &[u8]| score(b))
}

const REQUEST: &[u8] = b"POST /fraud-score HTTP/1.1\r\nContent-Length: 5\r\n\r\nhello";

#[test]
fn needles_are_found_where_they_first_stand() {
    assert_eq!(find_first(b"ab\r\n\r\ncd\r\n\r\n", b"\r\n\r\n"), Some(2));
    assert_eq!(find_first(b"ab\r\n\rcd", b"\r\n\r\n"), None);
    assert_eq!(find_first(b"", b"x"), None);
    assert_eq!(find_first(b"abc", b""), Some(0));
    let mut long = vec![b'a'; 5000];
    long.extend_from_slice(b"needle");
    assert_eq!(find_first(&long, b"needle"), Some(5000));
}

#[test]
fn probes_are_answered() {
    let mut c = Conn::with_capacity(64);
    assert_eq!(feed(&mut c, b"GET /rea", &|_| None), ReadResult::Wait);
    assert_eq!(feed(&mut c, b"dy HTTP/1.1", &|_| None), ReadResult::Respond);
    assert_eq!(c.resp, RESP_READY.as_bytes());
    assert_eq!((c.filled, c.written), (0, 0));
}

#[test]
fn bodies_are_scored() {
    for n in 0..6usize {
        let mut c = Conn::with_capacity(128);
        let r = feed(&mut c, REQUEST, &|b| {
            assert_eq!(b, b"hello");
            Some(n)
        });
        assert_eq!(r, ReadResult::Respond);
        assert_eq!(c.resp, RESPONSES[n].as_bytes());
        assert_eq!((c.filled, c.written), (0, 0));
    }
}

#[test]
fn bodies_without_a_score_are_refused() {
    let mut c = Conn::with_capacity(128);
    assert_eq!(feed(&mut c, REQUEST, &|_| None), ReadResult::Respond);
    assert_eq!(c.resp, RESP_400.as_bytes());
}

#[test]
fn pieces_are_answered_like_the_whole() {
    for cut in 1..REQUEST.len() {
        let mut c = Conn::with_capacity(128);
        assert_eq!(feed(&mut c, &REQUEST[..cut], &|_| Some(4)), ReadResult::Wait, "{}", cut);
        assert_eq!(feed(&mut c, &REQUEST[cut..], &|_| Some(4)), ReadResult::Respond);
        assert_eq!(c.resp, RESPONSES[4].as_bytes());
    }
}

#[test]
fn bodies_that_do_not_fit_are_refused() {
    let head = b"POST /fraud-score HTTP/1.1\r\nContent-Length: 1000\r\n\r\n";
    let mut c = Conn::with_capacity(128);
    assert_eq!(feed(&mut c, head, &|_| Some(0)), ReadResult::Respond);
    assert_eq!(c.resp, RESP_400.as_bytes());
    let head = b"POST /fraud-score HTTP/1.1\r\nContent-Length: 18446744073709551615\r\n\r\n";
    let mut c = Conn::with_capacity(128);
    assert_eq!(feed(&mut c, head, &|_| Some(0)), ReadResult::Respond);
    assert_eq!(c.resp, RESP_400.as_bytes());
}

#[test]
fn a_missing_length_is_zero() {
    let mut c = Conn::with_capacity(128);
    let r = feed(&mut c, b"POST /fraud-score HTTP/1.1\r\n\r\nrest", &|b| {
        assert!(b.is_empty());
        None
    });
    assert_eq!(r, ReadResult::Respond);
    assert_eq!(c.resp, RESP_400.as_bytes());
}

#[test]
fn other_requests_wait() {
    let mut c = Conn::with_capacity(32);
    assert_eq!(feed(&mut c, b"GET /other HTTP/1.1\r\n\r\n", &|_| Some(0)), ReadResult::Wait);
    assert_eq!(c.examine(), Verdict::Wait);
    assert_eq!(c.room(), 32 - 23);
}

#[test]
fn reads_that_bring_nothing() {
    let mut c = Conn::with_capacity(32);
    let score = |_: &[u8]| Some(0);
    assert_eq!(c.received(Got::Blocked, &score), ReadResult::Wait);
    assert_eq!(c.received(Got::Ended, &score), ReadResult::Close);
    assert_eq!(c.received(Got::Failed, &score), ReadResult::Close);
    assert_eq!(c.filled, 0);
}

#[test]
fn answers_go_out_in_pieces() {
    let mut c = Conn::with_capacity(64);
    feed(&mut c, b"GET /ready", &|_| None);
    let total = RESP_READY.len();
    assert_eq!(c.rest(), RESP_READY.as_bytes());
    assert_eq!(c.sent(Put::Bytes(10)), None);
    assert_eq!(c.rest(), &RESP_READY.as_bytes()[10..]);
    assert_eq!(c.sent(Put::Blocked), Some(SendResult::Partial));
    assert_eq!(c.written, 10);
    assert_eq!(c.sent(Put::Failed), Some(SendResult::Error));
    assert_eq!(c.sent(Put::Bytes(total - 10)), Some(SendResult::Done));
    assert!(c.rest().is_empty());
    c.reset();
    assert!(c.resp.is_empty());
    assert_eq!((c.filled, c.written), (0, 0));
}

#[test]
fn descriptors_get_connections() {
    let mut t = Table::new();
    assert_eq!(t.pool.len(), MAX_FDS);
    assert_eq!(t.active.len(), MAX_FDS);
    assert!(t.occupy(7));
    assert_eq!(t.pool.len(), MAX_FDS - 1);
    assert_eq!(t.active[7].as_ref().unwrap().rbuf.len(), BUF_CAP);
    assert!(!t.occupy(-1));
    assert!(!t.occupy(MAX_FDS as i32));
    assert_eq!(t.pool.len(), MAX_FDS - 1);
    t.active[7].as_mut().unwrap().filled = 5;
    t.release(7);
    assert!(t.active[7].is_none());
    assert_eq!(t.pool.len(), MAX_FDS);
    assert_eq!(t.pool.last().unwrap().filled, 0);
    t.release(7);
    t.release(-3);
    t.release(i32::MAX);
    assert_eq!(t.pool.len(), MAX_FDS);
}

#[test]
fn a_full_table_turns_away() {
    let mut t = Table::new();
    t.pool.truncate(1);
    assert!(t.occupy(0));
    assert!(!t.occupy(1));
    assert!(t.active[1].is_none());
    t.release(0);
    assert!(t.occupy(1));
}

#[test]
fn events_are_told_apart() {
    assert_eq!(task_for(3, 3, 4, true), Task::Inject);
    assert_eq!(task_for(4, 3, 4, true), Task::Accept);
    assert_eq!(task_for(5, 3, 4, true), Task::Drop);
    assert_eq!(task_for(5, 3, 4, false), Task::Serve);
}

#[test]
fn serving_goes_stage_by_stage() {
    assert_eq!(begin(true, true), Stage::Read);
    assert_eq!(begin(false, true), Stage::Write);
    assert_eq!(begin(false, false), Stage::End);
    assert_eq!(after_read(ReadResult::Close, true), (Stage::End, Effect::Drop));
    assert_eq!(after_read(ReadResult::Wait, true), (Stage::Write, Effect::Nothing));
    assert_eq!(after_read(ReadResult::Wait, false), (Stage::End, Effect::Nothing));
    assert_eq!(after_read(ReadResult::Respond, false), (Stage::Reply, Effect::Nothing));
    assert_eq!(
        after_send(Stage::Reply, SendResult::Partial, false),
        (Stage::End, Effect::WatchWrite)
    );
    assert_eq!(
        after_send(Stage::Reply, SendResult::Done, true),
        (Stage::Write, Effect::Nothing)
    );
    assert_eq!(
        after_send(Stage::Reply, SendResult::Error, true),
        (Stage::End, Effect::Drop)
    );
    assert_eq!(
        after_send(Stage::Write, SendResult::Done, true),
        (Stage::End, Effect::WatchRead)
    );
    assert_eq!(
        after_send(Stage::Write, SendResult::Partial, true),
        (Stage::End, Effect::Nothing)
    );
    assert_eq!(
        after_send(Stage::Write, SendResult::Error, true),
        (Stage::End, Effect::Drop)
    );
}

#[test]
fn nothing_is_received_without_room() {
    let mut t = Table::new();
    assert_eq!(t.before_read(5), None);
    assert_eq!(t.before_read(-1), None);
    assert_eq!(t.before_read(MAX_FDS as i32), None);
    assert_eq!(t.after_read(5, None, &|_: &[u8]| None), ReadResult::Close);
    assert!(t.occupy(5));
    assert_eq!(t.before_read(5), Some(BUF_CAP));
    t.active[5].as_mut().unwrap().filled = BUF_CAP - 1;
    assert_eq!(t.before_read(5), Some(1));
    t.active[5].as_mut().unwrap().filled = BUF_CAP;
    assert_eq!(t.before_read(5), None);
    assert_eq!(t.after_read(5, None, &|_: &[u8]| None), ReadResult::Close);
    assert_eq!(t.active[5].as_ref().unwrap().filled, BUF_CAP);
}

#[test]
fn what_is_received_goes_to_its_connection() {
    let mut t = Table::new();
    assert!(t.occupy(5) && t.occupy(6));
    t.active[5].as_mut().unwrap().rbuf[..REQUEST.len()].copy_from_slice(REQUEST);
    let n = REQUEST.len();
    let r = t.after_read(5, Some(Got::Bytes(n - 1)), &|_: &[u8]| Some(2));
    assert_eq!(r, ReadResult::Wait);
    let r = t.after_read(5, Some(Got::Bytes(1)), &|_: &[u8]| Some(2));
    assert_eq!(r, ReadResult::Respond);
    assert_eq!(t.active[5].as_ref().unwrap().resp, RESPONSES[2].as_bytes());
    assert_eq!(t.active[6].as_ref().unwrap().filled, 0);
    assert_eq!(t.after_read(6, Some(Got::Blocked), &|_: &[u8]| None), ReadResult::Wait);
    assert_eq!(t.after_read(6, Some(Got::Ended), &|_: &[u8]| None), ReadResult::Close);
    assert_eq!(t.after_read(6, Some(Got::Failed), &|_: &[u8]| None), ReadResult::Close);
}
