//! The body of a scoring request.
use vstd::prelude::*;

use crate::input::json::{
    is_key, is_named, jump, members, scan_member, scan_str, skip_value, skip_ws, text_end,
    value_end, ws_end, Member, CLOSE_OBJECT, COMMA, LETTER_N, OPEN_OBJECT,
};
use crate::input::section::{
    continues, customer_at, last_tx_at, lemma_continues, merchant_at, numbers_of, parse_customer,
    parse_last_tx, parse_merchant, parse_terminal, parse_transaction, reads_numbers, terminal_at,
    transaction_at, Numbers, K_ID,
};

verus! {

/// "transact"
pub const K_TRANSACTION: [u8; 8] = [0x74, 0x72, 0x61, 0x6e, 0x73, 0x61, 0x63, 0x74];

/// "customer"
pub const K_CUSTOMER: [u8; 8] = [0x63, 0x75, 0x73, 0x74, 0x6f, 0x6d, 0x65, 0x72];

/// "merchant"
pub const K_MERCHANT: [u8; 8] = [0x6d, 0x65, 0x72, 0x63, 0x68, 0x61, 0x6e, 0x74];

/// "terminal"
pub const K_TERMINAL: [u8; 8] = [0x74, 0x65, 0x72, 0x6d, 0x69, 0x6e, 0x61, 0x6c];

/// "last_tra"
pub const K_LAST_TX: [u8; 8] = [0x6c, 0x61, 0x73, 0x74, 0x5f, 0x74, 0x72, 0x61];

/// A scoring request. Numbers with a fraction are kept as the bits of their
/// single-precision values.
pub struct Payload<'a> {
    pub amount: u32,
    pub installments: u32,
    pub requested_at: &'a [u8],
    pub customer_avg_amount: u32,
    pub tx_count_24h: u32,
    pub known_merchants: &'a [u8],
    pub merchant_id: &'a [u8],
    pub merchant_mcc: &'a [u8],
    pub merchant_avg_amount: u32,
    pub is_online: bool,
    pub card_present: bool,
    pub km_from_home: u32,
    pub last_timestamp: Option<&'a [u8]>,
    pub last_km: Option<u32>,
}

/// A scoring request, without the place where it is kept.
pub struct Request {
    pub amount: u32,
    pub installments: u32,
    pub requested_at: Seq<u8>,
    pub customer_avg_amount: u32,
    pub tx_count_24h: u32,
    pub known_merchants: Seq<u8>,
    pub merchant_id: Seq<u8>,
    pub merchant_mcc: Seq<u8>,
    pub merchant_avg_amount: u32,
    pub is_online: bool,
    pub card_present: bool,
    pub km_from_home: u32,
    pub last_timestamp: Option<Seq<u8>>,
    pub last_km: Option<u32>,
}

impl<'a> View for Payload<'a> {
    type V = Request;

    open spec fn view(&self) -> Request {
        Request {
            amount: self.amount,
            installments: self.installments,
            requested_at: self.requested_at@,
            customer_avg_amount: self.customer_avg_amount,
            tx_count_24h: self.tx_count_24h,
            known_merchants: self.known_merchants@,
            merchant_id: self.merchant_id@,
            merchant_mcc: self.merchant_mcc@,
            merchant_avg_amount: self.merchant_avg_amount,
            is_online: self.is_online,
            card_present: self.card_present,
            km_from_home: self.km_from_home,
            last_timestamp: match self.last_timestamp {
                Some(t) => Some(t@),
                None => None,
            },
            last_km: self.last_km,
        }
    }
}

/// A part of a request that counts.
#[derive(Clone, Copy, PartialEq, Eq, Structural, Debug)]
pub enum Part {
    Id,
    Transaction,
    Customer,
    Merchant,
    Terminal,
    LastTx,
}

/// The part that a key names.
#[verifier::opaque]
pub open spec fn part_of(key: Seq<u8>) -> Option<Part> {
    if is_named(key, K_ID@, 2) {
        Some(Part::Id)
    } else if is_named(key, K_TRANSACTION@, 11) {
        Some(Part::Transaction)
    } else if is_named(key, K_CUSTOMER@, 8) {
        Some(Part::Customer)
    } else if is_named(key, K_MERCHANT@, 8) {
        Some(Part::Merchant)
    } else if is_named(key, K_TERMINAL@, 8) {
        Some(Part::Terminal)
    } else if is_named(key, K_LAST_TX@, 16) {
        Some(Part::LastTx)
    } else {
        None
    }
}

/// Where the value of a member of a request ends. A section that lacks a
/// field ends nowhere.
pub open spec fn part_end(s: Seq<u8>, m: Member, nums: Numbers) -> Option<int> {
    match part_of(m.key) {
        Some(Part::Id) => text_end(s, m.at),
        Some(Part::Transaction) => match transaction_at(s, m.at, nums) {
            Some((_, _, _, e)) => Some(e),
            None => None,
        },
        Some(Part::Customer) => match customer_at(s, m.at, nums) {
            Some((_, _, _, e)) => Some(e),
            None => None,
        },
        Some(Part::Merchant) => match merchant_at(s, m.at, nums) {
            Some((_, _, _, e)) => Some(e),
            None => None,
        },
        Some(Part::Terminal) => match terminal_at(s, m.at, nums) {
            Some((_, _, _, e)) => Some(e),
            None => None,
        },
        Some(Part::LastTx) => if m.at < s.len() && s[m.at] == LETTER_N {
            jump(s, m.at, 4)
        } else {
            match last_tx_at(s, m.at, nums) {
                Some((_, _, e)) => Some(e),
                None => None,
            }
        },
        None => value_end(s, m.at),
    }
}

/// The members of a request, from behind its opening brace on.
pub open spec fn parts(s: Seq<u8>, p: int, nums: Numbers) -> Option<(Seq<Member>, int)> {
    members(s, p, |m: Member| part_end(s, m, nums))
}

/// Where the last value of a part starts. A last transaction that is `null`
/// takes nothing back.
pub open spec fn last_part(s: Seq<u8>, ms: Seq<Member>, part: Part) -> Option<int>
    decreases ms.len(),
{
    if ms.len() == 0 {
        None
    } else if part_of(ms.last().key) == Some(part) && !(part == Part::LastTx && s[ms.last().at]
        == LETTER_N) {
        Some(ms.last().at)
    } else {
        last_part(s, ms.drop_last(), part)
    }
}

/// The transaction among the members.
pub open spec fn found_transaction(s: Seq<u8>, ms: Seq<Member>, nums: Numbers) -> Option<
    (u32, u32, Seq<u8>),
> {
    match last_part(s, ms, Part::Transaction) {
        Some(at) => match transaction_at(s, at, nums) {
            Some((a, i, r, _)) => Some((a, i, r)),
            None => None,
        },
        None => None,
    }
}

/// The customer among the members.
pub open spec fn found_customer(s: Seq<u8>, ms: Seq<Member>, nums: Numbers) -> Option<
    (u32, u32, Seq<u8>),
> {
    match last_part(s, ms, Part::Customer) {
        Some(at) => match customer_at(s, at, nums) {
            Some((a, c, k, _)) => Some((a, c, k)),
            None => None,
        },
        None => None,
    }
}

/// The merchant among the members.
pub open spec fn found_merchant(s: Seq<u8>, ms: Seq<Member>, nums: Numbers) -> Option<
    (Seq<u8>, Seq<u8>, u32),
> {
    match last_part(s, ms, Part::Merchant) {
        Some(at) => match merchant_at(s, at, nums) {
            Some((i, m, a, _)) => Some((i, m, a)),
            None => None,
        },
        None => None,
    }
}

/// The terminal among the members.
pub open spec fn found_terminal(s: Seq<u8>, ms: Seq<Member>, nums: Numbers) -> Option<
    (bool, bool, u32),
> {
    match last_part(s, ms, Part::Terminal) {
        Some(at) => match terminal_at(s, at, nums) {
            Some((o, c, k, _)) => Some((o, c, k)),
            None => None,
        },
        None => None,
    }
}

/// The last transaction among the members.
pub open spec fn found_last_tx(s: Seq<u8>, ms: Seq<Member>, nums: Numbers) -> Option<
    (Seq<u8>, u32),
> {
    match last_part(s, ms, Part::LastTx) {
        Some(at) => match last_tx_at(s, at, nums) {
            Some((t, k, _)) => Some((t, k)),
            None => None,
        },
        None => None,
    }
}

/// The request that the members make up: all of them but the last transaction
/// must be there.
pub open spec fn assembled(s: Seq<u8>, ms: Seq<Member>, nums: Numbers) -> Option<Request> {
    match (
        found_transaction(s, ms, nums),
        found_customer(s, ms, nums),
        found_merchant(s, ms, nums),
        found_terminal(s, ms, nums),
    ) {
        (Some(t), Some(c), Some(m), Some(d)) => {
            let last = found_last_tx(s, ms, nums);
            Some(
                Request {
                    amount: t.0,
                    installments: t.1,
                    requested_at: t.2,
                    customer_avg_amount: c.0,
                    tx_count_24h: c.1,
                    known_merchants: c.2,
                    merchant_id: m.0,
                    merchant_mcc: m.1,
                    merchant_avg_amount: m.2,
                    is_online: d.0,
                    card_present: d.1,
                    km_from_home: d.2,
                    last_timestamp: match last {
                        Some((when, _)) => Some(when),
                        None => None,
                    },
                    last_km: match last {
                        Some((_, km)) => Some(km),
                        None => None,
                    },
                },
            )
        },
        _ => None,
    }
}

/// The request in a body.
pub open spec fn request_in(s: Seq<u8>, nums: Numbers) -> Option<Request> {
    let p = ws_end(s, 0);
    if s.len() < 2 || p >= s.len() || s[p] != OPEN_OBJECT {
        None
    } else {
        match parts(s, p + 1, nums) {
            Some((ms, _)) => assembled(s, ms, nums),
            None => None,
        }
    }
}

proof fn lemma_last_part_of_known(s: Seq<u8>, ms: Seq<Member>, i: int, m: Member, part: Part)
    requires
        0 <= i <= ms.len(),
        part_of(m.key) is None,
    ensures
        last_part(s, ms.insert(i, m), part) == last_part(s, ms, part),
    decreases ms.len(),
{
    let more = ms.insert(i, m);
    if i == ms.len() {
        assert(more.last() == m);
        assert(more.drop_last() =~= ms);
    } else {
        assert(more.last() == ms.last());
        assert(more.drop_last() =~= ms.drop_last().insert(i, m));
        lemma_last_part_of_known(s, ms.drop_last(), i, m, part);
    }
}

/// A member that names no part changes nothing, wherever it stands.
pub proof fn unknown_members_do_not_count(
    s: Seq<u8>,
    ms: Seq<Member>,
    i: int,
    m: Member,
    nums: Numbers,
)
    requires
        0 <= i <= ms.len(),
        part_of(m.key) is None,
    ensures
        assembled(s, ms.insert(i, m), nums) == assembled(s, ms, nums),
{
    lemma_last_part_of_known(s, ms, i, m, Part::Transaction);
    lemma_last_part_of_known(s, ms, i, m, Part::Customer);
    lemma_last_part_of_known(s, ms, i, m, Part::Merchant);
    lemma_last_part_of_known(s, ms, i, m, Part::Terminal);
    lemma_last_part_of_known(s, ms, i, m, Part::LastTx);
}

/// The part that a key names.
fn part_named(key: &[u8]) -> (r: Option<Part>)
    ensures
        r == part_of(key@),
{
    proof {
        reveal(part_of);
    }
    if is_key(key, K_ID.as_slice(), 2) {
        Some(Part::Id)
    } else if is_key(key, K_TRANSACTION.as_slice(), 11) {
        Some(Part::Transaction)
    } else if is_key(key, K_CUSTOMER.as_slice(), 8) {
        Some(Part::Customer)
    } else if is_key(key, K_MERCHANT.as_slice(), 8) {
        Some(Part::Merchant)
    } else if is_key(key, K_TERMINAL.as_slice(), 8) {
        Some(Part::Terminal)
    } else if is_key(key, K_LAST_TX.as_slice(), 16) {
        Some(Part::LastTx)
    } else {
        None
    }
}

/// What has been read of a request so far.
struct Found<'a> {
    transaction: Option<(u32, u32, &'a [u8])>,
    customer: Option<(u32, u32, &'a [u8])>,
    merchant: Option<(&'a [u8], &'a [u8], u32)>,
    terminal: Option<(bool, bool, u32)>,
    last_tx: Option<(&'a [u8], u32)>,
}

impl<'a> Found<'a> {
    /// Whether this is what the members hold.
    spec fn holds(self, s: Seq<u8>, ms: Seq<Member>, nums: Numbers) -> bool {
        &&& found_transaction(s, ms, nums) == match self.transaction {
            Some((a, i, r)) => Some((a, i, r@)),
            None => None,
        }
        &&& found_customer(s, ms, nums) == match self.customer {
            Some((a, c, k)) => Some((a, c, k@)),
            None => None,
        }
        &&& found_merchant(s, ms, nums) == match self.merchant {
            Some((i, m, a)) => Some((i@, m@, a)),
            None => None,
        }
        &&& found_terminal(s, ms, nums) == self.terminal
        &&& found_last_tx(s, ms, nums) == match self.last_tx {
            Some((t, k)) => Some((t@, k)),
            None => None,
        }
    }
}

/// Reads the value of a member and keeps it; gives back where the value ends.
fn take_part<'a, R: Fn(usize) -> Option<(u32, usize)>>(
    s: &'a [u8],
    key: &[u8],
    v: usize,
    number_at: &R,
    found: &mut Found<'a>,
    Ghost(before): Ghost<Seq<Member>>,
) -> (r: Option<usize>)
    requires
        v <= s@.len(),
        reads_numbers(*number_at, s@.len()),
        old(found).holds(s@, before, numbers_of(*number_at)),
    ensures
        r matches Some(e) ==> {
            let m = Member { key: key@, at: v as int };
            &&& part_end(s@, m, numbers_of(*number_at)) == Some(e as int)
            &&& v <= e <= s@.len()
            &&& final(found).holds(s@, before.push(m), numbers_of(*number_at))
        },
        r is None ==> part_end(
            s@,
            (Member { key: key@, at: v as int }),
            numbers_of(*number_at),
        ) is None,
{
    proof {
        let m = Member { key: key@, at: v as int };
        assert(before.push(m).drop_last() =~= before);
    }
    match part_named(key) {
        Some(Part::Id) => {
            if v >= s.len() {
                return None;
            }
            match scan_str(s, v) {
                Some((_, e)) => Some(e),
                None => None,
            }
        },
        Some(Part::Transaction) => match parse_transaction(s, v, number_at) {
            Some((a, i, t, e)) => {
                found.transaction = Some((a, i, t));
                Some(e)
            },
            None => None,
        },
        Some(Part::Customer) => match parse_customer(s, v, number_at) {
            Some((a, c, k, e)) => {
                found.customer = Some((a, c, k));
                Some(e)
            },
            None => None,
        },
        Some(Part::Merchant) => match parse_merchant(s, v, number_at) {
            Some((i, m, a, e)) => {
                found.merchant = Some((i, m, a));
                Some(e)
            },
            None => None,
        },
        Some(Part::Terminal) => match parse_terminal(s, v, number_at) {
            Some((o, c, k, e)) => {
                found.terminal = Some((o, c, k));
                Some(e)
            },
            None => None,
        },
        Some(Part::LastTx) => {
            if v < s.len() && s[v] == LETTER_N {
                if s.len() - v >= 4 {
                    Some(v + 4)
                } else {
                    None
                }
            } else {
                match parse_last_tx(s, v, number_at) {
                    Some((t, k, e)) => {
                        found.last_tx = Some((t, k));
                        Some(e)
                    },
                    None => None,
                }
            }
        },
        None => skip_value(s, v),
    }
}

/// Reads the body of a request. `number_at` reads the number with a fraction
/// that starts at a position of the body.
pub fn parse_payload<'a, R: Fn(usize) -> Option<(u32, usize)>>(
    req_body: &'a [u8],
    number_at: &R,
) -> (r: Option<Payload<'a>>)
    requires
        reads_numbers(*number_at, req_body@.len()),
    ensures
        request_in(req_body@, numbers_of(*number_at)) == match r {
            Some(payload) => Some(payload@),
            None => None,
        },
{
    let s = req_body;
    let len: usize = s.len();
    if len < 2 {
        return None;
    }
    let start: usize = skip_ws(s, 0);
    if start >= len || s[start] != OPEN_OBJECT {
        return None;
    }
    let ghost nums = numbers_of(*number_at);
    let ghost end_of = |m: Member| part_end(s@, m, nums);
    let ghost mut before: Seq<Member> = Seq::empty();
    let mut found = Found {
        transaction: None,
        customer: None,
        merchant: None,
        terminal: None,
        last_tx: None,
    };
    let mut i: usize = start + 1;
    proof {
        match members(s@, start + 1, end_of) {
            Some((rest, e)) => {
                assert(before + rest =~= rest);
            },
            None => {},
        }
    }
    loop
        invariant_except_break
            continues(s@, start + 1, i as int, before, end_of),
        invariant
            s == req_body,
            len == s@.len(),
            len >= 2,
            start == ws_end(s@, 0),
            start < len,
            s[start as int] == OPEN_OBJECT,
            start < i <= len,
            reads_numbers(*number_at, s@.len()),
            nums == numbers_of(*number_at),
            end_of == (|m: Member| part_end(s@, m, nums)),
            found.holds(s@, before, nums),
        ensures
            parts(s@, start + 1, nums) matches Some((ms, _)) && ms == before,
        decreases len - i,
    {
        let k: usize = skip_ws(s, i);
        if k >= len {
            return None;
        }
        if s[k] == CLOSE_OBJECT {
            assert(before + Seq::<Member>::empty() =~= before);
            break ;
        }
        if s[k] == COMMA {
            i = k + 1;
            continue ;
        }
        match scan_member(s, k) {
            Some((key, v)) => {
                let ghost m = Member { key: key@, at: v as int };
                match take_part(s, key, v, number_at, &mut found, Ghost(before)) {
                    Some(e) => {
                        proof {
                            lemma_continues(
                                s@,
                                start + 1,
                                i as int,
                                k as int,
                                before,
                                m,
                                e as int,
                                end_of,
                            );
                            before = before.push(m);
                        }
                        i = e;
                    },
                    None => {
                        return None;
                    },
                }
            },
            None => {
                return None;
            },
        }
    }
    match (found.transaction, found.customer, found.merchant, found.terminal) {
        (Some(t), Some(c), Some(m), Some(d)) => {
            let (last_timestamp, last_km) = match found.last_tx {
                Some((when, km)) => (Some(when), Some(km)),
                None => (None, None),
            };
            Some(
                Payload {
                    amount: t.0,
                    installments: t.1,
                    requested_at: t.2,
                    customer_avg_amount: c.0,
                    tx_count_24h: c.1,
                    known_merchants: c.2,
                    merchant_id: m.0,
                    merchant_mcc: m.1,
                    merchant_avg_amount: m.2,
                    is_online: d.0,
                    card_present: d.1,
                    km_from_home: d.2,
                    last_timestamp,
                    last_km,
                },
            )
        },
        _ => None,
    }
}

} // verus!
