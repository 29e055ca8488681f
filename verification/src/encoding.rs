//! The plain encoding of a value, and the proof that the decoder inverts it.

use vstd::prelude::*;
use crate::bencode::Bencode;
use crate::bencode::DecodeError;
use crate::bencode::decimal_value;
use crate::bencode::decode_entries;
use crate::bencode::decode_integer;
use crate::bencode::decode_items;
use crate::bencode::decode_value;
use crate::bencode::digits_end;
use crate::bencode::find_byte;
use crate::bencode::is_digit;
use crate::bencode::is_literal;
use crate::bencode::lemma_digits_end_run;
use crate::bencode::lemma_find_byte_run;
use crate::bencode::literal_digits;
use crate::bencode::literal_value;
use crate::laws::lemma_entries_shift;
use crate::laws::lemma_items_shift;
use crate::laws::lemma_trailing_bytes_ignored;
use crate::laws::lemma_value_shift;

verus! {

/// The decimal digits of `n` in ASCII, without leading zeros.
pub open spec fn digits_of(n: nat) -> Seq<u8>
    decreases n,
{
    if n < 10 {
        seq![(0x30 + n) as u8]
    } else {
        digits_of(n / 10).push((0x30 + n % 10) as u8)
    }
}

/// The plain encoding of a byte string: its length in decimal, `:` and the
/// bytes.
pub open spec fn string_encoding(bytes: Seq<u8>) -> Seq<u8> {
    digits_of(bytes.len()) + seq![0x3au8] + bytes
}

/// The plain encoding of a value: integers in decimal without leading
/// zeros, byte strings behind their length, list elements and dictionary
/// entries in their order.
pub open spec fn encoding(v: Bencode) -> Seq<u8>
    decreases v,
{
    match v {
        Bencode::Integer(i) => if i < 0 {
            seq![0x69u8, 0x2du8] + digits_of((-i) as nat) + seq![0x65u8]
        } else {
            seq![0x69u8] + digits_of(i as nat) + seq![0x65u8]
        },
        Bencode::ByteString(bytes) => string_encoding(bytes),
        Bencode::List(items) => seq![0x6cu8] + items_encoding(items),
        Bencode::Dictionary(entries) => seq![0x64u8] + entries_encoding(entries),
    }
}

/// The encodings of list elements, one after the other, and the closing `e`.
pub open spec fn items_encoding(items: Seq<Bencode>) -> Seq<u8>
    decreases items,
{
    if items.len() == 0 {
        seq![0x65u8]
    } else {
        encoding(items[0]) + items_encoding(items.subrange(1, items.len() as int))
    }
}

/// The encodings of dictionary entries, each key as a byte string before its
/// value, and the closing `e`.
pub open spec fn entries_encoding(entries: Seq<(Seq<u8>, Bencode)>) -> Seq<u8>
    decreases entries,
{
    if entries.len() == 0 {
        seq![0x65u8]
    } else {
        string_encoding(entries[0].0) + encoding(entries[0].1) + entries_encoding(
            entries.subrange(1, entries.len() as int),
        )
    }
}

/// Whether every integer in `v` fits in 64 bits.
pub open spec fn representable(v: Bencode) -> bool
    decreases v,
{
    match v {
        Bencode::Integer(i) => i64::MIN <= i <= i64::MAX,
        Bencode::ByteString(_) => true,
        Bencode::List(items) => forall|k: int| 0 <= k < items.len() ==> representable(#[trigger] items[k]),
        Bencode::Dictionary(entries) => forall|k: int|
            0 <= k < entries.len() ==> representable((#[trigger] entries[k]).1),
    }
}

/// The digits of a number are digits, at least one, and write the number.
pub proof fn lemma_digits_of(n: nat)
    ensures
        digits_of(n).len() > 0,
        forall|i: int| 0 <= i < digits_of(n).len() ==> is_digit(#[trigger] digits_of(n)[i]),
        decimal_value(digits_of(n)) == n,
    decreases n,
{
    let d = digits_of(n);
    if n < 10 {
        assert(d.drop_last() =~= Seq::<u8>::empty());
        assert(decimal_value(d.drop_last()) == 0);
    } else {
        lemma_digits_of(n / 10);
        assert(d.drop_last() =~= digits_of(n / 10));
    }
}

/// Decoding the plain encoding of a byte string yields the byte string and
/// consumes the encoding.
pub proof fn lemma_string_round_trip(bytes: Seq<u8>)
    ensures
        decode_value(encoding(Bencode::ByteString(bytes)), 0) == Ok::<(Bencode, int), DecodeError>(
            (Bencode::ByteString(bytes), encoding(Bencode::ByteString(bytes)).len() as int),
        ),
{
    let d = digits_of(bytes.len());
    let buf = encoding(Bencode::ByteString(bytes));
    let colon = d.len() as int;
    lemma_digits_of(bytes.len());
    assert forall|j: int| 0 <= j < colon implies is_digit(#[trigger] buf[j]) by {
        assert(buf[j] == d[j]);
    }
    assert(buf[colon] == 0x3a);
    lemma_digits_end_run(buf, 0, colon);
    assert(digits_end(buf, colon) == colon);
    assert(buf.subrange(0, colon) =~= d);
    assert(buf.subrange(colon + 1, colon + 1 + bytes.len()) =~= bytes);
    assert(buf[0] == d[0]);
}

/// Decoding the plain encoding of an integer of 64 bits yields the integer
/// and consumes the encoding.
pub proof fn lemma_integer_round_trip(i: int)
    requires
        i64::MIN <= i <= i64::MAX,
    ensures
        decode_value(encoding(Bencode::Integer(i)), 0) == Ok::<(Bencode, int), DecodeError>(
            (Bencode::Integer(i), encoding(Bencode::Integer(i)).len() as int),
        ),
{
    let buf = encoding(Bencode::Integer(i));
    let n: nat = if i < 0 {
        (-i) as nat
    } else {
        i as nat
    };
    let d = digits_of(n);
    lemma_digits_of(n);
    let end = buf.len() - 1;
    let text = buf.subrange(1, end);
    assert(buf[end] == 0x65);
    if i < 0 {
        assert(text =~= seq![0x2du8] + d);
        assert forall|j: int| 1 <= j < end implies #[trigger] buf[j] != 0x65 by {
            if j >= 2 {
                assert(buf[j] == d[j - 2]);
            }
        }
        assert(literal_digits(text) =~= d);
    } else {
        assert(text =~= d);
        assert forall|j: int| 1 <= j < end implies #[trigger] buf[j] != 0x65 by {
            assert(buf[j] == d[j - 1]);
        }
        assert(is_digit(text[0]));
        assert(literal_digits(text) =~= d);
    }
    lemma_find_byte_run(buf, 1, end, 0x65);
    assert(find_byte(buf, end, 0x65) == end);
    assert(is_literal(text));
    assert(literal_value(text) == i);
    assert(decode_integer(buf, 0) == Ok::<(Bencode, int), DecodeError>((Bencode::Integer(i), end + 1)));
}

/// Decoding the plain encoding of a value whose integers fit in 64 bits
/// yields the value and consumes the encoding: the decoder inverts the
/// encoder.
pub proof fn lemma_round_trip(v: Bencode)
    requires
        representable(v),
    ensures
        decode_value(encoding(v), 0) == Ok::<(Bencode, int), DecodeError>((v, encoding(v).len() as int)),
    decreases v,
{
    let buf = encoding(v);
    match v {
        Bencode::Integer(i) => {
            lemma_integer_round_trip(i);
        },
        Bencode::ByteString(bytes) => {
            lemma_string_round_trip(bytes);
        },
        Bencode::List(items) => {
            lemma_items_round_trip(items);
            lemma_items_shift(buf, 1, 0);
            assert(buf.subrange(1, buf.len() as int) =~= items_encoding(items));
        },
        Bencode::Dictionary(entries) => {
            lemma_entries_round_trip(entries);
            lemma_entries_shift(buf, 1, 0);
            assert(buf.subrange(1, buf.len() as int) =~= entries_encoding(entries));
        },
    }
}

/// The same for the elements of a list with the closing `e`.
pub proof fn lemma_items_round_trip(items: Seq<Bencode>)
    requires
        forall|k: int| 0 <= k < items.len() ==> representable(#[trigger] items[k]),
    ensures
        decode_items(items_encoding(items), 0) == Ok::<(Seq<Bencode>, int), DecodeError>(
            (items, items_encoding(items).len() as int),
        ),
    decreases items,
{
    let buf = items_encoding(items);
    if items.len() > 0 {
        let first = encoding(items[0]);
        let tail = items.subrange(1, items.len() as int);
        let rest = items_encoding(tail);
        lemma_round_trip(items[0]);
        lemma_trailing_bytes_ignored(first, rest, items[0]);
        assert forall|k: int| 0 <= k < tail.len() implies representable(#[trigger] tail[k]) by {
            assert(tail[k] == items[k + 1]);
        }
        lemma_items_round_trip(tail);
        lemma_items_shift(buf, first.len() as int, 0);
        assert(buf.subrange(first.len() as int, buf.len() as int) =~= rest);
        assert(seq![items[0]] + tail =~= items);
    } else {
        assert(items =~= Seq::<Bencode>::empty());
    }
}

/// The same for the entries of a dictionary with the closing `e`.
pub proof fn lemma_entries_round_trip(entries: Seq<(Seq<u8>, Bencode)>)
    requires
        forall|k: int| 0 <= k < entries.len() ==> representable((#[trigger] entries[k]).1),
    ensures
        decode_entries(entries_encoding(entries), 0) == Ok::<(Seq<(Seq<u8>, Bencode)>, int), DecodeError>(
            (entries, entries_encoding(entries).len() as int),
        ),
    decreases entries,
{
    let buf = entries_encoding(entries);
    if entries.len() > 0 {
        let key = string_encoding(entries[0].0);
        let value = encoding(entries[0].1);
        let tail = entries.subrange(1, entries.len() as int);
        let rest = entries_encoding(tail);
        lemma_string_round_trip(entries[0].0);
        lemma_trailing_bytes_ignored(key, value + rest, Bencode::ByteString(entries[0].0));
        assert(key + (value + rest) =~= buf);
        lemma_round_trip(entries[0].1);
        lemma_trailing_bytes_ignored(value, rest, entries[0].1);
        lemma_value_shift(buf, key.len() as int, 0);
        assert(buf.subrange(key.len() as int, buf.len() as int) =~= value + rest);
        assert forall|k: int| 0 <= k < tail.len() implies representable((#[trigger] tail[k]).1) by {
            assert(tail[k] == entries[k + 1]);
        }
        lemma_entries_round_trip(tail);
        let behind = key.len() as int + value.len() as int;
        lemma_entries_shift(buf, behind, 0);
        assert(buf.subrange(behind, buf.len() as int) =~= rest);
        assert(seq![(entries[0].0, entries[0].1)] + tail =~= entries);
    } else {
        assert(entries =~= Seq::<(Seq<u8>, Bencode)>::empty());
    }
}

} // verus!
