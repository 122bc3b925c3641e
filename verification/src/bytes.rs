//! Little-endian numbers in byte sequences, and byte slices.
use vstd::prelude::*;

verus! {

/// The two bytes of a number below 2^16, low byte first.
#[verifier::opaque]
pub open spec fn le2(x: int) -> Seq<u8> {
    seq![(x % 256) as u8, (x / 256 % 256) as u8]
}

/// The four bytes of a number below 2^32, low byte first.
#[verifier::opaque]
pub open spec fn le4(x: int) -> Seq<u8> {
    le2(x % 0x1_0000) + le2(x / 0x1_0000)
}

/// The eight bytes of a number below 2^64, low byte first.
#[verifier::opaque]
pub open spec fn le8(x: int) -> Seq<u8> {
    le4(x % 0x1_0000_0000) + le4(x / 0x1_0000_0000)
}

pub broadcast proof fn lemma_le2_len(x: int)
    ensures
        #[trigger] le2(x).len() == 2,
{
    reveal(le2);
}

pub broadcast proof fn lemma_le4_len(x: int)
    ensures
        #[trigger] le4(x).len() == 4,
{
    reveal(le2);
    reveal(le4);
}

pub broadcast proof fn lemma_le8_len(x: int)
    ensures
        #[trigger] le8(x).len() == 8,
{
    reveal(le2);
    reveal(le4);
    reveal(le8);
}

/// Numbers have as many bytes as they are written in.
pub broadcast group group_le_lens {
    lemma_le2_len,
    lemma_le4_len,
    lemma_le8_len,
}

/// The number in the two bytes of `s` from `at` on.
pub open spec fn num2(s: Seq<u8>, at: int) -> int {
    s[at] + 256 * s[at + 1]
}

/// The number in the four bytes of `s` from `at` on.
pub open spec fn num4(s: Seq<u8>, at: int) -> int {
    num2(s, at) + 0x1_0000 * num2(s, at + 2)
}

/// The number in the eight bytes of `s` from `at` on.
pub open spec fn num8(s: Seq<u8>, at: int) -> int {
    num4(s, at) + 0x1_0000_0000 * num4(s, at + 4)
}

/// A signed number as the unsigned one with the same bits, `span` being 2^16
/// or 2^32.
pub open spec fn wrap(x: int, span: int) -> int {
    if x < 0 {
        x + span
    } else {
        x
    }
}

/// The signed number with the bits of an unsigned one.
pub open spec fn unwrap(x: int, span: int) -> int {
    if x >= span / 2 {
        x - span
    } else {
        x
    }
}

/// Whether `s` holds `part` from `at` on.
#[verifier::opaque]
pub open spec fn holds_at(s: Seq<u8>, at: int, part: Seq<u8>) -> bool {
    &&& 0 <= at
    &&& at + part.len() <= s.len()
    &&& forall|i: int| 0 <= i < part.len() ==> #[trigger] part[i] == s[at + i]
}

/// A number is read back from where its bytes are.
pub proof fn lemma_num2_of_le2(s: Seq<u8>, at: int, x: int)
    requires
        0 <= x < 0x1_0000,
        holds_at(s, at, le2(x)),
    ensures
        num2(s, at) == x,
{
    reveal(le2);
    reveal(holds_at);
    assert(le2(x)[0] == s[at + 0]);
    assert(le2(x)[1] == s[at + 1]);
}

/// A number is read back from where its bytes are.
pub proof fn lemma_num4_of_le4(s: Seq<u8>, at: int, x: int)
    requires
        0 <= x < 0x1_0000_0000,
        holds_at(s, at, le4(x)),
    ensures
        num4(s, at) == x,
{
    reveal(le4);
    reveal(le2);
    lemma_holds_parts(s, at, le2(x % 0x1_0000), le2(x / 0x1_0000));
    lemma_num2_of_le2(s, at, x % 0x1_0000);
    lemma_num2_of_le2(s, at + 2, x / 0x1_0000);
}

/// A number is read back from where its bytes are.
pub proof fn lemma_num8_of_le8(s: Seq<u8>, at: int, x: int)
    requires
        0 <= x < 0x1_0000_0000_0000_0000,
        holds_at(s, at, le8(x)),
    ensures
        num8(s, at) == x,
{
    reveal(le8);
    reveal(le4);
    reveal(le2);
    lemma_holds_parts(s, at, le4(x % 0x1_0000_0000), le4(x / 0x1_0000_0000));
    lemma_num4_of_le4(s, at, x % 0x1_0000_0000);
    lemma_num4_of_le4(s, at + 4, x / 0x1_0000_0000);
}

/// What holds of two parts in a row holds of each.
pub proof fn lemma_holds_parts(s: Seq<u8>, at: int, a: Seq<u8>, b: Seq<u8>)
    requires
        holds_at(s, at, a + b),
    ensures
        holds_at(s, at, a),
        holds_at(s, at + a.len(), b),
{
    reveal(holds_at);
    assert forall|i: int| 0 <= i < a.len() implies #[trigger] a[i] == s[at + i] by {
        assert((a + b)[i] == a[i]);
    }
    assert forall|i: int| 0 <= i < b.len() implies #[trigger] b[i] == s[at + a.len() + i] by {
        assert((a + b)[a.len() + i] == b[i]);
    }
}

/// What is held lies within.
pub proof fn lemma_holds_bounds(s: Seq<u8>, at: int, part: Seq<u8>)
    requires
        holds_at(s, at, part),
    ensures
        0 <= at,
        at + part.len() <= s.len(),
{
    reveal(holds_at);
}

/// A sequence holds itself.
pub proof fn lemma_holds_all(s: Seq<u8>)
    ensures
        holds_at(s, 0, s),
{
    reveal(holds_at);
}

/// What is held is there byte for byte.
pub proof fn lemma_holds_byte(s: Seq<u8>, at: int, part: Seq<u8>, i: int)
    requires
        holds_at(s, at, part),
        0 <= i < part.len(),
    ensures
        0 <= at,
        at + part.len() <= s.len(),
        part[i] == s[at + i],
{
    reveal(holds_at);
}

/// A part of what is held is held.
pub proof fn lemma_holds_within(s: Seq<u8>, at: int, whole: Seq<u8>, off: int, part: Seq<u8>)
    requires
        holds_at(s, at, whole),
        holds_at(whole, off, part),
    ensures
        holds_at(s, at + off, part),
{
    reveal(holds_at);
    assert forall|i: int| 0 <= i < part.len() implies #[trigger] part[i] == s[at + off + i] by {
        assert(whole[off + i] == s[at + (off + i)]);
    }
}

/// The bytes of the items of `s`, one after the other.
#[verifier::opaque]
pub open spec fn flat<T>(s: Seq<T>, f: spec_fn(T) -> Seq<u8>) -> Seq<u8>
    decreases s.len(),
{
    if s.len() == 0 {
        Seq::empty()
    } else {
        flat(s.drop_last(), f) + f(s.last())
    }
}

/// One more item appends its bytes.
pub proof fn lemma_flat_push<T>(s: Seq<T>, f: spec_fn(T) -> Seq<u8>, i: int)
    requires
        0 <= i < s.len(),
    ensures
        flat(s.take(i + 1), f) == flat(s.take(i), f) + f(s[i]),
{
    reveal_with_fuel(flat, 2);
    assert(s.take(i + 1).drop_last() =~= s.take(i));
}

/// No items, no bytes.
pub proof fn lemma_flat_none<T>(s: Seq<T>, f: spec_fn(T) -> Seq<u8>)
    ensures
        flat(s.take(0), f) == Seq::<u8>::empty(),
        flat(s.take(s.len() as int), f) == flat(s, f),
{
    reveal_with_fuel(flat, 2);
    assert(s.take(s.len() as int) =~= s);
}

/// The bytes of the first item come first.
pub proof fn lemma_flat_front<T>(s: Seq<T>, f: spec_fn(T) -> Seq<u8>)
    requires
        s.len() > 0,
    ensures
        flat(s, f) == f(s[0]) + flat(s.drop_first(), f),
    decreases s.len(),
{
    reveal_with_fuel(flat, 2);
    if s.len() > 1 {
        let init = s.drop_last();
        lemma_flat_front(init, f);
        assert(init.drop_first() =~= s.drop_first().drop_last());
        assert(flat(s, f) =~= f(s[0]) + flat(s.drop_first(), f));
    } else {
        assert(s.drop_last() =~= Seq::empty());
        assert(s.drop_first() =~= Seq::empty());
        assert(flat(s, f) =~= f(s[0]) + flat(s.drop_first(), f));
    }
}

/// What a sequence holds, a longer one holds too.
proof fn lemma_holds_longer(s: Seq<u8>, more: Seq<u8>, at: int, part: Seq<u8>)
    requires
        holds_at(s, at, part),
    ensures
        holds_at(s + more, at, part),
{
    reveal(holds_at);
}

/// What is appended is held behind what was there.
proof fn lemma_holds_end(s: Seq<u8>, part: Seq<u8>)
    ensures
        holds_at(s + part, s.len() as int, part),
{
    reveal(holds_at);
}

/// The bytes of the last item come last.
proof fn lemma_flat_last<T>(s: Seq<T>, f: spec_fn(T) -> Seq<u8>)
    ensures
        s.len() == 0 ==> flat(s, f).len() == 0,
        s.len() > 0 ==> flat(s, f) == flat(s.drop_last(), f) + f(s.last()),
{
    reveal_with_fuel(flat, 2);
}

/// Items of one width lie at multiples of it.
pub proof fn lemma_flat_at<T>(s: Seq<T>, f: spec_fn(T) -> Seq<u8>, w: nat)
    requires
        forall|i: int| 0 <= i < s.len() ==> f(#[trigger] s[i]).len() == w,
    ensures
        flat(s, f).len() == w * s.len(),
        forall|i: int|
            0 <= i < s.len() ==> holds_at(flat(s, f), w * i, f(#[trigger] s[i])),
    decreases s.len(),
{
    lemma_flat_last(s, f);
    if s.len() > 0 {
        let init = s.drop_last();
        let last = s.len() - 1;
        assert forall|i: int| 0 <= i < init.len() implies f(#[trigger] init[i]).len() == w by {
            assert(init[i] == s[i]);
        }
        lemma_flat_at(init, f, w);
        assert(f(s[last]).len() == w);
        assert(w * init.len() + w == w * s.len()) by (nonlinear_arith)
            requires
                init.len() == s.len() - 1,
        ;
        assert forall|i: int| 0 <= i < s.len() implies holds_at(
            flat(s, f),
            w * i,
            f(#[trigger] s[i]),
        ) by {
            if i < last {
                assert(init[i] == s[i]);
                lemma_holds_longer(flat(init, f), f(s[last]), w * i, f(init[i]));
            } else {
                lemma_holds_end(flat(init, f), f(s[last]));
            }
        }
    } else {
        assert(w * s.len() == 0) by (nonlinear_arith)
            requires
                s.len() == 0,
        ;
    }
}

/// Appends a number in two bytes.
pub fn put_u16(out: &mut Vec<u8>, x: u16)
    ensures
        final(out)@ == old(out)@ + le2(x as int),
{
    proof {
        reveal(le2);
    }
    out.push((x % 256) as u8);
    out.push((x / 256) as u8);
    assert(out@ =~= old(out)@ + le2(x as int));
}

/// Appends a number in four bytes.
pub fn put_u32(out: &mut Vec<u8>, x: u32)
    ensures
        final(out)@ == old(out)@ + le4(x as int),
{
    proof {
        reveal(le4);
    }
    put_u16(out, (x % 0x1_0000) as u16);
    put_u16(out, (x / 0x1_0000) as u16);
    assert(out@ =~= old(out)@ + le4(x as int));
}

/// Appends a number in eight bytes.
pub fn put_u64(out: &mut Vec<u8>, x: u64)
    ensures
        final(out)@ == old(out)@ + le8(x as int),
{
    proof {
        reveal(le8);
    }
    put_u32(out, (x % 0x1_0000_0000) as u32);
    put_u32(out, (x / 0x1_0000_0000) as u32);
    assert(out@ =~= old(out)@ + le8(x as int));
}

/// Appends a signed number in two bytes.
pub fn put_i16(out: &mut Vec<u8>, x: i16)
    ensures
        final(out)@ == old(out)@ + le2(wrap(x as int, 0x1_0000)),
{
    let bits: i32 = if x < 0 {
        x as i32 + 0x1_0000
    } else {
        x as i32
    };
    put_u16(out, bits as u16);
}

/// Appends a signed number in four bytes.
pub fn put_i32(out: &mut Vec<u8>, x: i32)
    ensures
        final(out)@ == old(out)@ + le4(wrap(x as int, 0x1_0000_0000)),
{
    let bits: i64 = if x < 0 {
        x as i64 + 0x1_0000_0000
    } else {
        x as i64
    };
    put_u32(out, bits as u32);
}

/// Reads a number from two bytes.
pub fn get_u16(data: &[u8], at: usize) -> (x: u16)
    requires
        at + 2 <= data@.len(),
    ensures
        x == num2(data@, at as int),
{
    assert(data@.len() == data.len());
    data[at] as u16 + 256 * (data[at + 1] as u16)
}

/// Reads a number from four bytes.
pub fn get_u32(data: &[u8], at: usize) -> (x: u32)
    requires
        at + 4 <= data@.len(),
    ensures
        x == num4(data@, at as int),
{
    assert(data@.len() == data.len());
    get_u16(data, at) as u32 + 0x1_0000 * (get_u16(data, at + 2) as u32)
}

/// Reads a number from eight bytes.
pub fn get_u64(data: &[u8], at: usize) -> (x: u64)
    requires
        at + 8 <= data@.len(),
    ensures
        x == num8(data@, at as int),
{
    assert(data@.len() == data.len());
    get_u32(data, at) as u64 + 0x1_0000_0000 * (get_u32(data, at + 4) as u64)
}

/// Reads a signed number from two bytes.
pub fn get_i16(data: &[u8], at: usize) -> (x: i16)
    requires
        at + 2 <= data@.len(),
    ensures
        x == unwrap(num2(data@, at as int), 0x1_0000),
{
    let bits = get_u16(data, at) as i32;
    if bits >= 0x8000 {
        (bits - 0x1_0000) as i16
    } else {
        bits as i16
    }
}

/// Reads a signed number from four bytes.
pub fn get_i32(data: &[u8], at: usize) -> (x: i32)
    requires
        at + 4 <= data@.len(),
    ensures
        x == unwrap(num4(data@, at as int), 0x1_0000_0000),
{
    let bits = get_u32(data, at) as i64;
    if bits >= 0x8000_0000 {
        (bits - 0x1_0000_0000) as i32
    } else {
        bits as i32
    }
}

/// Whether `data` begins with `head`.
pub open spec fn begins_with(data: Seq<u8>, head: Seq<u8>) -> bool {
    data.len() >= head.len() && data.take(head.len() as int) == head
}

/// Whether `data` begins with `head`.
pub fn starts_with(data: &[u8], head: &[u8]) -> (yes: bool)
    ensures
        yes == begins_with(data@, head@),
{
    if data.len() < head.len() {
        return false;
    }
    let mut i: usize = 0;
    while i < head.len()
        invariant
            head@.len() <= data@.len(),
            i <= head@.len(),
            forall|j: int| 0 <= j < i ==> data@[j] == head@[j],
        decreases head@.len() - i,
    {
        if data[i] != head[i] {
            assert(data@.take(head@.len() as int)[i as int] != head@[i as int]);
            return false;
        }
        i = i + 1;
    }
    assert(data@.take(head@.len() as int) =~= head@);
    true
}

/// Appends a copy of a slice.
pub fn put_bytes(out: &mut Vec<u8>, data: &[u8])
    ensures
        final(out)@ == old(out)@ + data@,
{
    let ghost before = out@;
    let mut i: usize = 0;
    while i < data.len()
        invariant
            i <= data@.len(),
            out@ == before + data@.take(i as int),
        decreases data@.len() - i,
    {
        out.push(data[i]);
        assert(data@.take(i + 1) =~= data@.take(i as int).push(data@[i as int]));
        i = i + 1;
    }
    assert(data@.take(data@.len() as int) =~= data@);
}

/// The number in so many bytes of `s` from `at` on, the lowest first.
pub open spec fn number_at(s: Seq<u8>, at: int, width: nat) -> int
    decreases width,
{
    if width == 0 {
        0
    } else {
        s[at] + 256 * number_at(s, at + 1, (width - 1) as nat)
    }
}

/// Numbers are little-endian: in two, four and eight bytes the lowest comes
/// first.
pub proof fn numbers_are_little_endian(s: Seq<u8>, at: int)
    ensures
        num2(s, at) == number_at(s, at, 2),
        num4(s, at) == number_at(s, at, 4),
        num8(s, at) == number_at(s, at, 8),
{
    reveal_with_fuel(number_at, 9);
}

} // verus!
