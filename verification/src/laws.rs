//! What holds of the decoder on every buffer: an encoding ends where the
//! decoder says, whatever follows it, and no proper prefix of it decodes.

use vstd::prelude::*;
use crate::bencode::Bencode;
use crate::bencode::DecodeError;
use crate::bencode::decimal_value;
use crate::bencode::decode_entries;
use crate::bencode::decode_integer;
use crate::bencode::decode_items;
use crate::bencode::decode_string;
use crate::bencode::decode_value;
use crate::bencode::digits_end;
use crate::bencode::find_byte;
use crate::bencode::is_digit;
use crate::bencode::lemma_digits_end_digits;
use crate::bencode::lemma_find_byte_none;

verus! {

/// The position behind a decoded value; 0 where nothing was decoded.
pub open spec fn end_of<T>(r: Result<(T, int), DecodeError>) -> int {
    match r {
        Ok((_, end)) => end,
        Err(_) => 0,
    }
}

/// How decoding the first `k` bytes (`part`) relates to decoding the whole
/// buffer (`whole`): the same where the encoding ends within them, a failure
/// where they cut it short.
pub open spec fn cut_at<T>(whole: Result<(T, int), DecodeError>, part: Result<(T, int), DecodeError>, k: int) -> bool {
    whole is Ok ==> if end_of(whole) <= k {
        part == whole
    } else {
        part is Err
    }
}

/// The digit run of a prefix is that of the buffer, stopped at the cut.
pub proof fn lemma_digits_end_cut(buf: Seq<u8>, pos: int, k: int)
    requires
        0 <= pos <= k <= buf.len(),
    ensures
        digits_end(buf.subrange(0, k), pos) == if digits_end(buf, pos) < k {
            digits_end(buf, pos)
        } else {
            k
        },
    decreases k - pos,
{
    let part = buf.subrange(0, k);
    if pos < k {
        assert(part[pos] == buf[pos]);
        if is_digit(buf[pos]) {
            lemma_digits_end_cut(buf, pos + 1, k);
        }
    } else {
        lemma_digits_end_digits(buf, pos);
    }
}

/// The first `b` of a prefix is that of the buffer, stopped at the cut.
pub proof fn lemma_find_byte_cut(buf: Seq<u8>, pos: int, k: int, b: u8)
    requires
        0 <= pos <= k <= buf.len(),
    ensures
        find_byte(buf.subrange(0, k), pos, b) == if find_byte(buf, pos, b) < k {
            find_byte(buf, pos, b)
        } else {
            k
        },
    decreases k - pos,
{
    let part = buf.subrange(0, k);
    if pos < k {
        assert(part[pos] == buf[pos]);
        if buf[pos] != b {
            lemma_find_byte_cut(buf, pos + 1, k, b);
        }
    } else {
        lemma_find_byte_none(buf, pos, b);
    }
}

/// A byte string that decodes ends behind its start and within the buffer;
/// the first `k` bytes give the same where it ends within them, and fail
/// where they cut it short.
pub proof fn lemma_string_cut(buf: Seq<u8>, pos: int, k: int)
    requires
        0 <= pos < k <= buf.len(),
        decode_string(buf, pos) is Ok,
    ensures
        pos < end_of(decode_string(buf, pos)) <= buf.len(),
        cut_at(decode_string(buf, pos), decode_string(buf.subrange(0, k), pos), k),
{
    let part = buf.subrange(0, k);
    let colon = digits_end(buf, pos);
    lemma_digits_end_digits(buf, pos);
    lemma_digits_end_cut(buf, pos, k);
    let len = decimal_value(buf.subrange(pos, colon)) as int;
    let end = colon + 1 + len;
    if colon < k {
        assert(part.subrange(pos, colon) =~= buf.subrange(pos, colon));
        assert(part[colon] == buf[colon]);
        if end <= k {
            assert(part.subrange(colon + 1, end) =~= buf.subrange(colon + 1, end));
        }
    }
}

/// An integer that decodes ends behind its start and within the buffer; the
/// first `k` bytes give the same where it ends within them, and fail where
/// they cut it short.
pub proof fn lemma_integer_cut(buf: Seq<u8>, pos: int, k: int)
    requires
        0 <= pos < k <= buf.len(),
        decode_integer(buf, pos) is Ok,
    ensures
        pos < end_of(decode_integer(buf, pos)) <= buf.len(),
        cut_at(decode_integer(buf, pos), decode_integer(buf.subrange(0, k), pos), k),
{
    let part = buf.subrange(0, k);
    let end = find_byte(buf, pos + 1, 0x65);
    lemma_find_byte_none(buf, pos + 1, 0x65);
    lemma_find_byte_cut(buf, pos + 1, k, 0x65);
    if end < k {
        assert(part.subrange(pos + 1, end) =~= buf.subrange(pos + 1, end));
    }
}

/// A value that decodes ends behind its start and within the buffer; the
/// first `k` bytes give the same value where it ends within them, and fail
/// where they cut it short.
pub proof fn lemma_value_cut(buf: Seq<u8>, pos: int, k: int)
    requires
        0 <= pos <= k <= buf.len(),
        decode_value(buf, pos) is Ok,
    ensures
        pos < end_of(decode_value(buf, pos)) <= buf.len(),
        cut_at(decode_value(buf, pos), decode_value(buf.subrange(0, k), pos), k),
    decreases buf.len() - pos, 0int, buf.len() - k,
{
    let part = buf.subrange(0, k);
    if pos < k {
        assert(part[pos] == buf[pos]);
        if is_digit(buf[pos]) {
            lemma_string_cut(buf, pos, k);
        } else if buf[pos] == 0x69 {
            lemma_integer_cut(buf, pos, k);
        } else if buf[pos] == 0x6c {
            lemma_items_cut(buf, pos + 1, k);
        } else if buf[pos] == 0x64 {
            lemma_entries_cut(buf, pos + 1, k);
        }
    } else if k < buf.len() {
        lemma_value_cut(buf, pos, buf.len() as int);
    }
}

/// The same for the elements of a list up to its closing `e`.
pub proof fn lemma_items_cut(buf: Seq<u8>, pos: int, k: int)
    requires
        0 <= pos <= k <= buf.len(),
        decode_items(buf, pos) is Ok,
    ensures
        pos < end_of(decode_items(buf, pos)) <= buf.len(),
        cut_at(decode_items(buf, pos), decode_items(buf.subrange(0, k), pos), k),
    decreases buf.len() - pos, 1int, buf.len() - k,
{
    let part = buf.subrange(0, k);
    if pos < k {
        assert(part[pos] == buf[pos]);
    }
    if buf[pos] != 0x65 {
        let next = end_of(decode_value(buf, pos));
        lemma_value_cut(buf, pos, k);
        if next <= k {
            lemma_items_cut(buf, next, k);
        } else {
            lemma_items_cut(buf, next, buf.len() as int);
        }
    }
}

/// The same for the entries of a dictionary up to its closing `e`.
pub proof fn lemma_entries_cut(buf: Seq<u8>, pos: int, k: int)
    requires
        0 <= pos <= k <= buf.len(),
        decode_entries(buf, pos) is Ok,
    ensures
        pos < end_of(decode_entries(buf, pos)) <= buf.len(),
        cut_at(decode_entries(buf, pos), decode_entries(buf.subrange(0, k), pos), k),
    decreases buf.len() - pos, 1int, buf.len() - k,
{
    let part = buf.subrange(0, k);
    if pos < k {
        assert(part[pos] == buf[pos]);
    }
    if buf[pos] != 0x65 {
        let mid = end_of(decode_value(buf, pos));
        lemma_value_cut(buf, pos, k);
        let next = end_of(decode_value(buf, mid));
        if mid <= k {
            lemma_value_cut(buf, mid, k);
        } else {
            lemma_value_cut(buf, mid, buf.len() as int);
        }
        if next <= k {
            lemma_entries_cut(buf, next, k);
        } else {
            lemma_entries_cut(buf, next, buf.len() as int);
        }
    }
}

/// Where a buffer holds the encoding of a value and nothing else, no proper
/// prefix of it decodes: a decoder never takes a truncated encoding for a
/// shorter value.
pub proof fn lemma_proper_prefix_fails(buf: Seq<u8>, v: Bencode, k: int)
    requires
        decode_value(buf, 0) == Ok::<(Bencode, int), DecodeError>((v, buf.len() as int)),
        0 <= k < buf.len(),
    ensures
        decode_value(buf.subrange(0, k), 0) is Err,
{
    lemma_value_cut(buf, 0, k);
}

/// A value decodes to the same value and end whatever follows its encoding:
/// decoding the encoding alone yields the value and the encoding's length.
pub proof fn lemma_encoding_stands_alone(buf: Seq<u8>, v: Bencode, end: int)
    requires
        decode_value(buf, 0) == Ok::<(Bencode, int), DecodeError>((v, end)),
    ensures
        0 < end <= buf.len(),
        decode_value(buf.subrange(0, end), 0) == Ok::<(Bencode, int), DecodeError>((v, end)),
        buf.subrange(0, end).len() == end,
{
    lemma_value_cut(buf, 0, buf.len() as int);
    lemma_value_cut(buf, 0, end);
}


/// A decoding result with its end position moved forward by `by`.
pub open spec fn shifted<T>(r: Result<(T, int), DecodeError>, by: int) -> Result<(T, int), DecodeError> {
    match r {
        Ok((v, end)) => Ok((v, end + by)),
        Err(e) => Err(e),
    }
}

/// The digit run of a suffix is that of the buffer, counted from the
/// suffix's start.
pub proof fn lemma_digits_end_shift(buf: Seq<u8>, pos: int, q: int)
    requires
        0 <= pos <= buf.len(),
        0 <= q,
    ensures
        digits_end(buf, pos + q) == digits_end(buf.subrange(pos, buf.len() as int), q) + pos,
    decreases buf.len() - pos - q,
{
    let suffix = buf.subrange(pos, buf.len() as int);
    if pos + q < buf.len() {
        assert(suffix[q] == buf[pos + q]);
        if is_digit(buf[pos + q]) {
            lemma_digits_end_shift(buf, pos, q + 1);
        }
    }
}

/// The first `b` of a suffix is that of the buffer, counted from the
/// suffix's start.
pub proof fn lemma_find_byte_shift(buf: Seq<u8>, pos: int, q: int, b: u8)
    requires
        0 <= pos <= buf.len(),
        0 <= q,
    ensures
        find_byte(buf, pos + q, b) == find_byte(buf.subrange(pos, buf.len() as int), q, b) + pos,
    decreases buf.len() - pos - q,
{
    let suffix = buf.subrange(pos, buf.len() as int);
    if pos + q < buf.len() {
        assert(suffix[q] == buf[pos + q]);
        if buf[pos + q] != b {
            lemma_find_byte_shift(buf, pos, q + 1, b);
        }
    }
}

/// Decoding at `pos + q` in a buffer is decoding at `q` in the suffix that
/// starts at `pos`: the same value or error, the end counted from the
/// suffix's start.
pub proof fn lemma_value_shift(buf: Seq<u8>, pos: int, q: int)
    requires
        0 <= pos <= buf.len(),
        0 <= q,
    ensures
        decode_value(buf, pos + q) == shifted(decode_value(buf.subrange(pos, buf.len() as int), q), pos),
    decreases buf.len() - pos - q, 0int,
{
    let suffix = buf.subrange(pos, buf.len() as int);
    if pos + q < buf.len() {
        assert(suffix[q] == buf[pos + q]);
        if is_digit(buf[pos + q]) {
            lemma_digits_end_shift(buf, pos, q);
            lemma_digits_end_digits(suffix, q);
            let colon = digits_end(suffix, q);
            let len = decimal_value(suffix.subrange(q, colon)) as int;
            assert(buf.subrange(pos + q, pos + colon) =~= suffix.subrange(q, colon));
            if colon < suffix.len() {
                assert(suffix[colon] == buf[pos + colon]);
                if colon + 1 + len <= suffix.len() {
                    assert(buf.subrange(pos + colon + 1, pos + colon + 1 + len) =~= suffix.subrange(
                        colon + 1,
                        colon + 1 + len,
                    ));
                }
            }
        } else if buf[pos + q] == 0x69 {
            lemma_find_byte_shift(buf, pos, q + 1, 0x65);
            lemma_find_byte_none(suffix, q + 1, 0x65);
            let end = find_byte(suffix, q + 1, 0x65);
            assert(buf.subrange(pos + q + 1, pos + end) =~= suffix.subrange(q + 1, end));
        } else if buf[pos + q] == 0x6c {
            lemma_items_shift(buf, pos, q + 1);
        } else if buf[pos + q] == 0x64 {
            lemma_entries_shift(buf, pos, q + 1);
        }
    }
}

/// The same for the elements of a list up to its closing `e`.
pub proof fn lemma_items_shift(buf: Seq<u8>, pos: int, q: int)
    requires
        0 <= pos <= buf.len(),
        0 <= q,
    ensures
        decode_items(buf, pos + q) == shifted(decode_items(buf.subrange(pos, buf.len() as int), q), pos),
    decreases buf.len() - pos - q, 1int,
{
    let suffix = buf.subrange(pos, buf.len() as int);
    if pos + q < buf.len() {
        assert(suffix[q] == buf[pos + q]);
        if buf[pos + q] != 0x65 {
            lemma_value_shift(buf, pos, q);
            if let Ok((v, next)) = decode_value(suffix, q) {
                if q < next <= suffix.len() {
                    lemma_items_shift(buf, pos, next);
                }
            }
        }
    }
}

/// The same for the entries of a dictionary up to its closing `e`.
pub proof fn lemma_entries_shift(buf: Seq<u8>, pos: int, q: int)
    requires
        0 <= pos <= buf.len(),
        0 <= q,
    ensures
        decode_entries(buf, pos + q) == shifted(decode_entries(buf.subrange(pos, buf.len() as int), q), pos),
    decreases buf.len() - pos - q, 1int,
{
    let suffix = buf.subrange(pos, buf.len() as int);
    if pos + q < buf.len() {
        assert(suffix[q] == buf[pos + q]);
        if buf[pos + q] != 0x65 {
            lemma_value_shift(buf, pos, q);
            if let Ok((key, mid)) = decode_value(suffix, q) {
                if q < mid <= suffix.len() {
                    lemma_value_shift(buf, pos, mid);
                    if let Ok((v, next)) = decode_value(suffix, mid) {
                        if mid < next <= suffix.len() {
                            lemma_entries_shift(buf, pos, next);
                        }
                    }
                }
            }
        }
    }
}

/// Decoding at an offset is decoding the suffix that starts there: the
/// decoder may be applied to any suffix of a buffer, and what it consumes
/// there is what it consumes at the offset.
pub proof fn lemma_decode_on_suffix(buf: Seq<u8>, offset: int)
    requires
        0 <= offset <= buf.len(),
    ensures
        decode_value(buf, offset) == shifted(decode_value(buf.subrange(offset, buf.len() as int), 0), offset),
{
    lemma_value_shift(buf, offset, 0);
}


/// What the first `k` bytes decode to at `pos`, the whole buffer decodes to
/// as well.
pub proof fn lemma_value_extends(buf: Seq<u8>, pos: int, k: int)
    requires
        0 <= pos <= k <= buf.len(),
        decode_value(buf.subrange(0, k), pos) is Ok,
    ensures
        decode_value(buf, pos) == decode_value(buf.subrange(0, k), pos),
    decreases k - pos, 0int,
{
    let part = buf.subrange(0, k);
    assert(part[pos] == buf[pos]);
    if is_digit(buf[pos]) {
        lemma_digits_end_digits(part, pos);
        lemma_digits_end_cut(buf, pos, k);
        let colon = digits_end(part, pos);
        let len = decimal_value(part.subrange(pos, colon)) as int;
        assert(part.subrange(pos, colon) =~= buf.subrange(pos, colon));
        assert(part[colon] == buf[colon]);
        assert(part.subrange(colon + 1, colon + 1 + len) =~= buf.subrange(colon + 1, colon + 1 + len));
    } else if buf[pos] == 0x69 {
        lemma_find_byte_none(part, pos + 1, 0x65);
        lemma_find_byte_cut(buf, pos + 1, k, 0x65);
        let end = find_byte(part, pos + 1, 0x65);
        assert(part.subrange(pos + 1, end) =~= buf.subrange(pos + 1, end));
    } else if buf[pos] == 0x6c {
        lemma_items_extends(buf, pos + 1, k);
    } else if buf[pos] == 0x64 {
        lemma_entries_extends(buf, pos + 1, k);
    }
}

/// The same for the elements of a list up to its closing `e`.
pub proof fn lemma_items_extends(buf: Seq<u8>, pos: int, k: int)
    requires
        0 <= pos <= k <= buf.len(),
        decode_items(buf.subrange(0, k), pos) is Ok,
    ensures
        decode_items(buf, pos) == decode_items(buf.subrange(0, k), pos),
    decreases k - pos, 1int,
{
    let part = buf.subrange(0, k);
    assert(part[pos] == buf[pos]);
    if buf[pos] != 0x65 {
        lemma_value_extends(buf, pos, k);
        lemma_items_extends(buf, end_of(decode_value(part, pos)), k);
    }
}

/// The same for the entries of a dictionary up to its closing `e`.
pub proof fn lemma_entries_extends(buf: Seq<u8>, pos: int, k: int)
    requires
        0 <= pos <= k <= buf.len(),
        decode_entries(buf.subrange(0, k), pos) is Ok,
    ensures
        decode_entries(buf, pos) == decode_entries(buf.subrange(0, k), pos),
    decreases k - pos, 1int,
{
    let part = buf.subrange(0, k);
    assert(part[pos] == buf[pos]);
    if buf[pos] != 0x65 {
        lemma_value_extends(buf, pos, k);
        let mid = end_of(decode_value(part, pos));
        lemma_value_extends(buf, mid, k);
        lemma_entries_extends(buf, end_of(decode_value(part, mid)), k);
    }
}

/// Bytes behind an encoding change nothing: where `encoding` decodes to `v`
/// and is consumed whole, `encoding` followed by any `rest` decodes to `v`
/// and consumes exactly the length of `encoding`.
pub proof fn lemma_trailing_bytes_ignored(encoding: Seq<u8>, rest: Seq<u8>, v: Bencode)
    requires
        decode_value(encoding, 0) == Ok::<(Bencode, int), DecodeError>((v, encoding.len() as int)),
    ensures
        decode_value(encoding + rest, 0) == Ok::<(Bencode, int), DecodeError>((v, encoding.len() as int)),
{
    let whole = encoding + rest;
    assert(whole.subrange(0, encoding.len() as int) =~= encoding);
    lemma_value_extends(whole, 0, encoding.len() as int);
}

} // verus!
