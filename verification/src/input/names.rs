//! The names that sections and fields go by, what stands in them, and that the
//! later of two counts.
use vstd::prelude::*;

use crate::input::json::{ends_plain, is_named, Member, LETTER_N};
use crate::input::payload::{
    last_part, part_of, Part, K_CUSTOMER, K_LAST_TX, K_MERCHANT, K_TERMINAL, K_TRANSACTION,
};
use crate::input::section::{
    field_value, known_as, read_at, shape_of, Numbers, Section, Shape, K_AMOUNT, K_AVG_AMOUNT,
    K_CARD_PRES, K_ID, K_INSTALLM, K_IS_ONLINE, K_KM_FROM, K_KNOWN_MERCH, K_MCC, K_REQUESTED,
    K_TIMESTAMP, K_TX_COUNT,
};

verus! {

/// Whether a key cannot be told from a name: it is as long, and its first eight
/// bytes are the same.
pub open spec fn like(key: Seq<u8>, name: Seq<char>) -> bool {
    key.len() == name.len() && forall|i: int|
        0 <= i < name.len() && i < 8 ==> #[trigger] key[i] == name[i] as u8
}

/// A key is told by its length and how it starts.
proof fn lemma_like(key: Seq<u8>, name: Seq<char>, start: Seq<u8>, len: int)
    requires
        name.len() == len,
        start.len() == if len < 8 {
            len
        } else {
            8
        },
        forall|i: int| 0 <= i < start.len() ==> #[trigger] start[i] == name[i] as u8,
    ensures
        like(key, name) == is_named(key, start, len),
{
    if like(key, name) {
        assert forall|i: int| 0 <= i < start.len() implies #[trigger] key.take(
            start.len() as int,
        )[i] == start[i] by {
            assert(key[i] == name[i] as u8);
        }
        assert(key.take(start.len() as int) =~= start);
    }
    if is_named(key, start, len) {
        assert forall|i: int| 0 <= i < name.len() && i < 8 implies #[trigger] key[i]
            == name[i] as u8 by {
            assert(key.take(start.len() as int)[i] == start[i]);
        }
    }
}

/// The parts of a request go by these names, and by no others.
pub proof fn parts_go_by_their_names(key: Seq<u8>)
    ensures
        part_of(key) == Some(Part::Id) <==> like(key, "id"@),
        part_of(key) == Some(Part::Transaction) <==> like(key, "transaction"@),
        part_of(key) == Some(Part::Customer) <==> like(key, "customer"@),
        part_of(key) == Some(Part::Merchant) <==> like(key, "merchant"@),
        part_of(key) == Some(Part::Terminal) <==> like(key, "terminal"@),
        part_of(key) == Some(Part::LastTx) <==> like(key, "last_transaction"@),
{
    reveal(part_of);
    reveal_strlit("id");
    reveal_strlit("transaction");
    reveal_strlit("customer");
    reveal_strlit("merchant");
    reveal_strlit("terminal");
    reveal_strlit("last_transaction");
    lemma_like(key, "id"@, K_ID@, 2);
    lemma_like(key, "transaction"@, K_TRANSACTION@, 11);
    lemma_like(key, "customer"@, K_CUSTOMER@, 8);
    lemma_like(key, "merchant"@, K_MERCHANT@, 8);
    lemma_like(key, "terminal"@, K_TERMINAL@, 8);
    lemma_like(key, "last_transaction"@, K_LAST_TX@, 16);
    lemma_apart(key, "customer"@, "merchant"@);
    lemma_apart(key, "customer"@, "terminal"@);
    lemma_apart(key, "merchant"@, "terminal"@);
}

/// No key is like two names that start differently.
proof fn lemma_apart(key: Seq<u8>, a: Seq<char>, b: Seq<char>)
    requires
        a.len() > 0,
        b.len() > 0,
        a[0] as u8 != b[0] as u8,
    ensures
        !(like(key, a) && like(key, b)),
{
    if like(key, a) && like(key, b) {
        assert(key[0] == a[0] as u8);
        assert(key[0] == b[0] as u8);
    }
}

/// The fields of a transaction go by these names, and by no others: a number, a
/// whole number and a text.
pub proof fn fields_of_a_transaction(key: Seq<u8>)
    ensures
        known_as(Section::Transaction, key) == Some(0int) <==> like(key, "amount"@),
        known_as(Section::Transaction, key) == Some(1int) <==> like(key, "installments"@),
        known_as(Section::Transaction, key) == Some(2int) <==> like(key, "requested_at"@),
        shape_of(Section::Transaction, 0) == Shape::Number,
        shape_of(Section::Transaction, 1) == Shape::Count,
        shape_of(Section::Transaction, 2) == Shape::Text,
{
    reveal(known_as);
    reveal_strlit("amount");
    reveal_strlit("installments");
    reveal_strlit("requested_at");
    lemma_like(key, "amount"@, K_AMOUNT@, 6);
    lemma_like(key, "installments"@, K_INSTALLM@, 12);
    lemma_like(key, "requested_at"@, K_REQUESTED@, 12);
    lemma_apart(key, "installments"@, "requested_at"@);
}

/// The fields of a customer go by these names, and by no others: a number, a
/// whole number and an array.
pub proof fn fields_of_a_customer(key: Seq<u8>)
    ensures
        known_as(Section::Customer, key) == Some(0int) <==> like(key, "avg_amount"@),
        known_as(Section::Customer, key) == Some(1int) <==> like(key, "tx_count_24h"@),
        known_as(Section::Customer, key) == Some(2int) <==> like(key, "known_merchants"@),
        shape_of(Section::Customer, 0) == Shape::Number,
        shape_of(Section::Customer, 1) == Shape::Count,
        shape_of(Section::Customer, 2) == Shape::List,
{
    reveal(known_as);
    reveal_strlit("avg_amount");
    reveal_strlit("tx_count_24h");
    reveal_strlit("known_merchants");
    lemma_like(key, "avg_amount"@, K_AVG_AMOUNT@, 10);
    lemma_like(key, "tx_count_24h"@, K_TX_COUNT@, 12);
    lemma_like(key, "known_merchants"@, K_KNOWN_MERCH@, 15);
}

/// The fields of a merchant go by these names, and by no others: two texts and a
/// number.
pub proof fn fields_of_a_merchant(key: Seq<u8>)
    ensures
        known_as(Section::Merchant, key) == Some(0int) <==> like(key, "id"@),
        known_as(Section::Merchant, key) == Some(1int) <==> like(key, "mcc"@),
        known_as(Section::Merchant, key) == Some(2int) <==> like(key, "avg_amount"@),
        shape_of(Section::Merchant, 0) == Shape::Text,
        shape_of(Section::Merchant, 1) == Shape::Text,
        shape_of(Section::Merchant, 2) == Shape::Number,
{
    reveal(known_as);
    reveal_strlit("id");
    reveal_strlit("mcc");
    reveal_strlit("avg_amount");
    lemma_like(key, "id"@, K_ID@, 2);
    lemma_like(key, "mcc"@, K_MCC@, 3);
    lemma_like(key, "avg_amount"@, K_AVG_AMOUNT@, 10);
}

/// The fields of a terminal go by these names, and by no others: two flags and a
/// number.
pub proof fn fields_of_a_terminal(key: Seq<u8>)
    ensures
        known_as(Section::Terminal, key) == Some(0int) <==> like(key, "is_online"@),
        known_as(Section::Terminal, key) == Some(1int) <==> like(key, "card_present"@),
        known_as(Section::Terminal, key) == Some(2int) <==> like(key, "km_from_home"@),
        shape_of(Section::Terminal, 0) == Shape::Flag,
        shape_of(Section::Terminal, 1) == Shape::Flag,
        shape_of(Section::Terminal, 2) == Shape::Number,
{
    reveal(known_as);
    reveal_strlit("is_online");
    reveal_strlit("card_present");
    reveal_strlit("km_from_home");
    lemma_like(key, "is_online"@, K_IS_ONLINE@, 9);
    lemma_like(key, "card_present"@, K_CARD_PRES@, 12);
    lemma_like(key, "km_from_home"@, K_KM_FROM@, 12);
    lemma_apart(key, "card_present"@, "km_from_home"@);
}

/// The fields of a last transaction go by these names, and by no others: a text
/// and a number.
pub proof fn fields_of_a_last_transaction(key: Seq<u8>)
    ensures
        known_as(Section::LastTx, key) == Some(0int) <==> like(key, "timestamp"@),
        known_as(Section::LastTx, key) == Some(1int) <==> like(key, "km_from_current"@),
        shape_of(Section::LastTx, 0) == Shape::Text,
        shape_of(Section::LastTx, 1) == Shape::Number,
{
    reveal(known_as);
    reveal_strlit("timestamp");
    reveal_strlit("km_from_current");
    lemma_like(key, "timestamp"@, K_TIMESTAMP@, 9);
    lemma_like(key, "km_from_current"@, K_KM_FROM@, 15);
}

/// Of two members with the same name the later counts; a member with another
/// name leaves a field as it is.
pub proof fn later_fields_count(
    s: Seq<u8>,
    section: Section,
    ms: Seq<Member>,
    m: Member,
    field: int,
    nums: Numbers,
)
    ensures
        known_as(section, m.key) != Some(field) ==> field_value(
            s,
            section,
            ms.push(m),
            field,
            nums,
        ) == field_value(s, section, ms, field, nums),
        known_as(section, m.key) == Some(field) ==> (read_at(
            s,
            m.at,
            shape_of(section, field),
            nums,
        ) matches Some((v, _)) ==> field_value(s, section, ms.push(m), field, nums) == Some(v)),
{
    assert(ms.push(m).drop_last() =~= ms);
}

/// Of two sections with the same name the later counts; but a last transaction
/// that is `null` takes none back.
pub proof fn later_sections_count(s: Seq<u8>, ms: Seq<Member>, m: Member, part: Part)
    ensures
        part_of(m.key) != Some(part) ==> last_part(s, ms.push(m), part) == last_part(s, ms, part),
        part_of(m.key) == Some(part) && s[m.at] != LETTER_N ==> last_part(s, ms.push(m), part)
            == Some(m.at),
        part_of(m.key) == Some(Part::LastTx) && s[m.at] == LETTER_N ==> last_part(
            s,
            ms.push(m),
            Part::LastTx,
        ) == last_part(s, ms, Part::LastTx),
{
    assert(ms.push(m).drop_last() =~= ms);
}

/// A value that is neither text, object nor array ends at a comma, a closing
/// bracket or brace, or white space, and at nothing else.
pub proof fn plain_values_end_at_punctuation(b: u8)
    ensures
        ends_plain(b) <==> b == 0x2c || b == 0x5d || b == 0x7d || b <= 0x20,
{
}

} // verus!
