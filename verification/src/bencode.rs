//! Bencode values and the span-exact recursive decoder.

use vstd::prelude::*;

verus! {

/// Why a buffer is not bencode.
#[derive(Debug, Clone, Copy, PartialEq, Eq, Structural)]
pub enum DecodeError {
    /// A byte-string length is not a digit run closed by `:`, or promises
    /// more bytes than the buffer holds.
    MalformedLength,
    /// The text between `i` and `e` is not a decimal integer that fits in
    /// 64 bits, or the closing `e` is missing.
    MalformedInteger,
    /// A dictionary key decoded to something other than a byte string.
    NonStringKey,
    /// The buffer ends, or its next byte starts no bencode value.
    UnrecognizedTag,
}

/// A decoded bencode value.
#[derive(Debug, PartialEq, Eq)]
pub enum BencodeValue {
    Integer(i64),
    ByteString(Vec<u8>),
    List(Vec<BencodeValue>),
    /// Entries in the order in which the encoding lists them.
    Dictionary(Vec<(Vec<u8>, BencodeValue)>),
}

/// The mathematical model of a bencode value.
pub enum Bencode {
    Integer(int),
    ByteString(Seq<u8>),
    List(Seq<Bencode>),
    Dictionary(Seq<(Seq<u8>, Bencode)>),
}

/// What a decoder yields: the value and the position just behind it.
pub type Decoded = Result<(Bencode, int), DecodeError>;

/// What decoding a run of list elements yields.
pub type DecodedItems = Result<(Seq<Bencode>, int), DecodeError>;

/// What decoding a run of dictionary entries yields.
pub type DecodedEntries = Result<(Seq<(Seq<u8>, Bencode)>, int), DecodeError>;

impl View for BencodeValue {
    type V = Bencode;

    open spec fn view(&self) -> Bencode
        decreases self,
    {
        match self {
            BencodeValue::Integer(i) => Bencode::Integer(*i as int),
            BencodeValue::ByteString(b) => Bencode::ByteString(b@),
            BencodeValue::List(l) => Bencode::List(Seq::new(
                    l@.len(),
                    |i: int| if 0 <= i < l@.len() { l@[i]@ } else { Bencode::Integer(0) },
                )),
            BencodeValue::Dictionary(d) => Bencode::Dictionary(
                Seq::new(
                    d@.len(),
                    |i: int| (d@[i].0@, if 0 <= i < d@.len() { d@[i].1@ } else { Bencode::Integer(0) }),
                ),
            ),
        }
    }
}


/// The views of a vector of values, element by element.
pub open spec fn views(items: Seq<BencodeValue>) -> Seq<Bencode> {
    Seq::new(items.len(), |i: int| if 0 <= i < items.len() { items[i]@ } else { Bencode::Integer(0) })
}

/// The views of a vector of dictionary entries, entry by entry.
pub open spec fn entry_views(entries: Seq<(Vec<u8>, BencodeValue)>) -> Seq<(Seq<u8>, Bencode)> {
    Seq::new(
        entries.len(),
        |i: int| (entries[i].0@, if 0 <= i < entries.len() { entries[i].1@ } else { Bencode::Integer(0) }),
    )
}

/// Whether `b` is an ASCII decimal digit.
pub open spec fn is_digit(b: u8) -> bool {
    0x30 <= b <= 0x39
}

/// The number that the digit `b` stands for.
pub open spec fn digit_value(b: u8) -> nat {
    if b >= 0x30 { (b - 0x30) as nat } else { 0 }
}

/// The number that a run of decimal digits writes, most significant first.
pub open spec fn decimal_value(digits: Seq<u8>) -> nat
    decreases digits.len(),
{
    if digits.len() == 0 {
        0
    } else {
        decimal_value(digits.drop_last()) * 10 + digit_value(digits.last())
    }
}

/// The first position at or after `pos` that holds no digit.
pub open spec fn digits_end(buf: Seq<u8>, pos: int) -> int
    decreases buf.len() - pos,
{
    if 0 <= pos < buf.len() && is_digit(buf[pos]) {
        digits_end(buf, pos + 1)
    } else {
        pos
    }
}

/// The first position at or after `pos` that holds `b`, or the buffer's
/// length where none does.
pub open spec fn find_byte(buf: Seq<u8>, pos: int, b: u8) -> int
    decreases buf.len() - pos,
{
    if 0 <= pos < buf.len() && buf[pos] != b {
        find_byte(buf, pos + 1, b)
    } else {
        pos
    }
}

/// The digits of an integer literal: the text without its sign.
pub open spec fn literal_digits(text: Seq<u8>) -> Seq<u8> {
    if text.len() > 0 && (text[0] == 0x2d || text[0] == 0x2b) {
        text.subrange(1, text.len() as int)
    } else {
        text
    }
}

/// The number that an integer literal writes.
pub open spec fn literal_value(text: Seq<u8>) -> int {
    if text.len() > 0 && text[0] == 0x2d {
        -(decimal_value(literal_digits(text)) as int)
    } else {
        decimal_value(literal_digits(text)) as int
    }
}

/// Whether `text` is an optional sign and at least one digit, and writes a
/// number that fits in 64 bits.
pub open spec fn is_literal(text: Seq<u8>) -> bool {
    let digits = literal_digits(text);
    &&& digits.len() > 0
    &&& forall|i: int| 0 <= i < digits.len() ==> is_digit(#[trigger] digits[i])
    &&& i64::MIN <= literal_value(text) <= i64::MAX
}

/// Decoding a byte string whose length prefix starts at `pos`.
pub open spec fn decode_string(buf: Seq<u8>, pos: int) -> Decoded {
    let colon = digits_end(buf, pos);
    let len = decimal_value(buf.subrange(pos, colon)) as int;
    if colon < buf.len() && buf[colon] == 0x3a && colon + 1 + len <= buf.len() {
        Ok((Bencode::ByteString(buf.subrange(colon + 1, colon + 1 + len)), colon + 1 + len))
    } else {
        Err(DecodeError::MalformedLength)
    }
}

/// Decoding an integer whose `i` stands at `pos`.
pub open spec fn decode_integer(buf: Seq<u8>, pos: int) -> Decoded {
    let end = find_byte(buf, pos + 1, 0x65);
    let text = buf.subrange(pos + 1, end);
    if end < buf.len() && is_literal(text) {
        Ok((Bencode::Integer(literal_value(text)), end + 1))
    } else {
        Err(DecodeError::MalformedInteger)
    }
}

/// Puts `v` in front of the elements that `tail` decoded.
pub open spec fn with_item(v: Bencode, tail: DecodedItems) -> DecodedItems {
    match tail {
        Ok((rest, end)) => Ok((seq![v] + rest, end)),
        Err(e) => Err(e),
    }
}

/// Puts the entry `key`, `v` in front of the entries that `tail` decoded.
pub open spec fn with_entry(key: Seq<u8>, v: Bencode, tail: DecodedEntries) -> DecodedEntries {
    match tail {
        Ok((rest, end)) => Ok((seq![(key, v)] + rest, end)),
        Err(e) => Err(e),
    }
}

/// Decoding the value that starts at `pos`: the value and the position
/// just behind its encoding, or the reason why there is none.
pub open spec fn decode_value(buf: Seq<u8>, pos: int) -> Decoded
    decreases buf.len() - pos, 0int,
{
    if pos < 0 || pos >= buf.len() {
        Err(DecodeError::UnrecognizedTag)
    } else if is_digit(buf[pos]) {
        decode_string(buf, pos)
    } else if buf[pos] == 0x69 {
        decode_integer(buf, pos)
    } else if buf[pos] == 0x6c {
        match decode_items(buf, pos + 1) {
            Ok((items, end)) => Ok((Bencode::List(items), end)),
            Err(e) => Err(e),
        }
    } else if buf[pos] == 0x64 {
        match decode_entries(buf, pos + 1) {
            Ok((entries, end)) => Ok((Bencode::Dictionary(entries), end)),
            Err(e) => Err(e),
        }
    } else {
        Err(DecodeError::UnrecognizedTag)
    }
}

/// Decoding list elements from `pos` up to and including the closing `e`.
/// An element always ends behind its start and within the buffer, so the
/// branch for an end outside that range is never taken; it only makes the
/// recursion well-founded.
pub open spec fn decode_items(buf: Seq<u8>, pos: int) -> DecodedItems
    decreases buf.len() - pos, 1int,
{
    if pos < 0 || pos >= buf.len() {
        Err(DecodeError::UnrecognizedTag)
    } else if buf[pos] == 0x65 {
        Ok((Seq::empty(), pos + 1))
    } else {
        match decode_value(buf, pos) {
            Ok((v, next)) => if pos < next <= buf.len() {
                with_item(v, decode_items(buf, next))
            } else {
                Err(DecodeError::UnrecognizedTag)
            },
            Err(e) => Err(e),
        }
    }
}

/// Decoding dictionary entries from `pos` up to and including the closing
/// `e`. Each key is decoded as a value and must be a byte string. As for
/// list elements, the branches for an end out of range are never taken.
pub open spec fn decode_entries(buf: Seq<u8>, pos: int) -> DecodedEntries
    decreases buf.len() - pos, 1int,
{
    if pos < 0 || pos >= buf.len() {
        Err(DecodeError::UnrecognizedTag)
    } else if buf[pos] == 0x65 {
        Ok((Seq::empty(), pos + 1))
    } else {
        match decode_value(buf, pos) {
            Ok((Bencode::ByteString(key), mid)) => if pos < mid <= buf.len() {
                match decode_value(buf, mid) {
                    Ok((v, next)) => if mid < next <= buf.len() {
                        with_entry(key, v, decode_entries(buf, next))
                    } else {
                        Err(DecodeError::UnrecognizedTag)
                    },
                    Err(e) => Err(e),
                }
            } else {
                Err(DecodeError::UnrecognizedTag)
            },
            Ok(_) => Err(DecodeError::NonStringKey),
            Err(e) => Err(e),
        }
    }
}

/// A run of digits from `pos` to `i` does not move the end of the run.
pub proof fn lemma_digits_end_run(buf: Seq<u8>, pos: int, i: int)
    requires
        0 <= pos <= i <= buf.len(),
        forall|j: int| pos <= j < i ==> is_digit(#[trigger] buf[j]),
    ensures
        digits_end(buf, pos) == digits_end(buf, i),
        i <= digits_end(buf, i) <= buf.len(),
    decreases buf.len() - pos,
{
    if pos < i {
        lemma_digits_end_run(buf, pos + 1, i);
    } else if i < buf.len() && is_digit(buf[i]) {
        lemma_digits_end_run(buf, i + 1, i + 1);
    }
}

/// Every position from `pos` up to the end of the digit run holds a digit.
pub proof fn lemma_digits_end_digits(buf: Seq<u8>, pos: int)
    requires
        0 <= pos <= buf.len(),
    ensures
        pos <= digits_end(buf, pos) <= buf.len(),
        forall|j: int| pos <= j < digits_end(buf, pos) ==> is_digit(#[trigger] buf[j]),
        digits_end(buf, pos) < buf.len() ==> !is_digit(buf[digits_end(buf, pos)]),
    decreases buf.len() - pos,
{
    if pos < buf.len() && is_digit(buf[pos]) {
        lemma_digits_end_digits(buf, pos + 1);
    }
}

/// A run without `b` from `pos` to `i` does not move the first `b`.
pub proof fn lemma_find_byte_run(buf: Seq<u8>, pos: int, i: int, b: u8)
    requires
        0 <= pos <= i <= buf.len(),
        forall|j: int| pos <= j < i ==> #[trigger] buf[j] != b,
    ensures
        find_byte(buf, pos, b) == find_byte(buf, i, b),
        i <= find_byte(buf, i, b) <= buf.len(),
    decreases buf.len() - pos,
{
    if pos < i {
        lemma_find_byte_run(buf, pos + 1, i, b);
    } else if i < buf.len() && buf[i] != b {
        lemma_find_byte_run(buf, i + 1, i + 1, b);
    }
}

/// No position from `pos` up to the first `b` holds `b`.
pub proof fn lemma_find_byte_none(buf: Seq<u8>, pos: int, b: u8)
    requires
        0 <= pos <= buf.len(),
    ensures
        pos <= find_byte(buf, pos, b) <= buf.len(),
        forall|j: int| pos <= j < find_byte(buf, pos, b) ==> #[trigger] buf[j] != b,
        find_byte(buf, pos, b) < buf.len() ==> buf[find_byte(buf, pos, b)] == b,
    decreases buf.len() - pos,
{
    if pos < buf.len() && buf[pos] != b {
        lemma_find_byte_none(buf, pos + 1, b);
    }
}

/// Reading more digits never makes the number smaller.
pub proof fn lemma_decimal_prefix_le(digits: Seq<u8>, k: int)
    requires
        0 <= k <= digits.len(),
    ensures
        decimal_value(digits.subrange(0, k)) <= decimal_value(digits),
    decreases digits.len(),
{
    if k < digits.len() {
        lemma_decimal_prefix_le(digits.drop_last(), k);
        assert(digits.drop_last().subrange(0, k) =~= digits.subrange(0, k));
    } else {
        assert(digits.subrange(0, k) =~= digits);
    }
}


/// What a list's view holds.
pub proof fn lemma_list_view(items: Vec<BencodeValue>)
    ensures
        BencodeValue::List(items)@ == Bencode::List(views(items@)),
{
    let l = BencodeValue::List(items)@->List_0;
    assert(l =~= views(items@));
}

/// What a dictionary's view holds.
pub proof fn lemma_dictionary_view(entries: Vec<(Vec<u8>, BencodeValue)>)
    ensures
        BencodeValue::Dictionary(entries)@ == Bencode::Dictionary(entry_views(entries@)),
{
    let d = BencodeValue::Dictionary(entries)@->Dictionary_0;
    assert(d.len() == entries@.len());
    assert forall|k: int| 0 <= k < d.len() implies d[k] == entry_views(entries@)[k] by {
        assert(d[k].0 == entries@[k].0@);
        assert(d[k].1 == entries@[k].1@);
    }
    assert(d =~= entry_views(entries@));
}

} // verus!
