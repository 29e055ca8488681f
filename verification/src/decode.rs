//! The executable bencode decoder, proved against the model decoder.

use vstd::prelude::*;
use vstd::slice::slice_subrange;
use vstd::slice::slice_to_vec;
use crate::bencode::Bencode;
use crate::bencode::BencodeValue;
use crate::bencode::DecodeError;
use crate::bencode::Decoded;
use crate::bencode::DecodedEntries;
use crate::bencode::DecodedItems;
use crate::bencode::decimal_value;
use crate::bencode::decode_entries;
use crate::bencode::decode_integer;
use crate::bencode::decode_items;
use crate::bencode::decode_string;
use crate::bencode::decode_value;
use crate::bencode::digits_end;
use crate::bencode::entry_views;
use crate::bencode::find_byte;
use crate::bencode::is_digit;
use crate::bencode::lemma_decimal_prefix_le;
use crate::bencode::lemma_dictionary_view;
use crate::bencode::lemma_digits_end_run;
use crate::bencode::lemma_list_view;
use crate::bencode::lemma_find_byte_run;
use crate::bencode::literal_digits;
use crate::bencode::views;
use crate::bencode::with_item;

verus! {

/// Whether an executable result is what the model decoder `expected`.
pub open spec fn agrees(res: Result<(BencodeValue, usize), DecodeError>, expected: Decoded) -> bool {
    match res {
        Ok((v, end)) => expected == Ok::<(Bencode, int), DecodeError>((v@, end as int)),
        Err(e) => expected == Err::<(Bencode, int), DecodeError>(e),
    }
}

/// The elements `head`, followed by what `tail` decoded.
pub open spec fn items_after(head: Seq<Bencode>, tail: DecodedItems) -> DecodedItems {
    match tail {
        Ok((rest, end)) => Ok((head + rest, end)),
        Err(e) => Err(e),
    }
}

/// The entries `head`, followed by what `tail` decoded.
pub open spec fn entries_after(head: Seq<(Seq<u8>, Bencode)>, tail: DecodedEntries) -> DecodedEntries {
    match tail {
        Ok((rest, end)) => Ok((head + rest, end)),
        Err(e) => Err(e),
    }
}

fn digit_at(buf: &[u8], i: usize) -> (r: bool)
    requires
        i < buf@.len(),
    ensures
        r == is_digit(buf@[i as int]),
{
    0x30 <= buf[i] && buf[i] <= 0x39
}

/// Decodes the byte string whose length prefix starts at `pos`.
fn decode_string_at(buf: &[u8], pos: usize) -> (res: Result<(BencodeValue, usize), DecodeError>)
    requires
        pos < buf@.len(),
        is_digit(buf@[pos as int]),
    ensures
        agrees(res, decode_string(buf@, pos as int)),
        res matches Ok((_, end)) ==> pos < end <= buf@.len(),
{
    let n: usize = buf.len();
    let mut i: usize = pos;
    let mut acc: u128 = 0;
    proof {
        assert(buf@.subrange(pos as int, pos as int) =~= Seq::<u8>::empty());
    }
    while i < n && digit_at(buf, i)
        invariant
            n == buf@.len(),
            pos <= i <= n,
            forall|j: int| pos <= j < i ==> is_digit(#[trigger] buf@[j]),
            acc == decimal_value(buf@.subrange(pos as int, i as int)),
            acc <= n,
        decreases n - i,
    {
        let d: u128 = (buf[i] - 0x30) as u128;
        let next: u128 = acc * 10 + d;
        proof {
            assert(buf@.subrange(pos as int, i + 1).drop_last() =~= buf@.subrange(pos as int, i as int));
            assert(next == decimal_value(buf@.subrange(pos as int, i + 1)));
        }
        if next > n as u128 {
            proof {
                lemma_digits_end_run(buf@, pos as int, i + 1);
                let colon = digits_end(buf@, pos as int);
                let run = buf@.subrange(pos as int, colon);
                lemma_decimal_prefix_le(run, i + 1 - pos);
                assert(run.subrange(0, i + 1 - pos) =~= buf@.subrange(pos as int, i + 1));
            }
            return Err(DecodeError::MalformedLength);
        }
        acc = next;
        i += 1;
    }
    proof {
        lemma_digits_end_run(buf@, pos as int, i as int);
        assert(digits_end(buf@, pos as int) == i);
    }
    if i >= n || buf[i] != 0x3a {
        return Err(DecodeError::MalformedLength);
    }
    let len: usize = acc as usize;
    let start: usize = i + 1;
    if len > n - start {
        return Err(DecodeError::MalformedLength);
    }
    let end: usize = start + len;
    let bytes = slice_to_vec(slice_subrange(buf, start, end));
    Ok((BencodeValue::ByteString(bytes), end))
}

/// Decodes the integer whose `i` stands at `pos`.
fn decode_integer_at(buf: &[u8], pos: usize) -> (res: Result<(BencodeValue, usize), DecodeError>)
    requires
        pos < buf@.len(),
    ensures
        agrees(res, decode_integer(buf@, pos as int)),
        res matches Ok((_, end)) ==> pos < end <= buf@.len(),
{
    let n: usize = buf.len();
    let mut end: usize = pos + 1;
    while end < n && buf[end] != 0x65
        invariant
            n == buf@.len(),
            pos + 1 <= end <= n,
            forall|j: int| pos + 1 <= j < end ==> #[trigger] buf@[j] != 0x65,
        decreases n - end,
    {
        end += 1;
    }
    proof {
        lemma_find_byte_run(buf@, pos + 1, end as int, 0x65);
        assert(find_byte(buf@, pos + 1, 0x65) == end);
    }
    if end >= n {
        return Err(DecodeError::MalformedInteger);
    }
    let ghost text = buf@.subrange(pos + 1, end as int);
    let ghost digits = literal_digits(text);
    let mut i: usize = pos + 1;
    let mut negative = false;
    if i < end && (buf[i] == 0x2d || buf[i] == 0x2b) {
        negative = buf[i] == 0x2d;
        i += 1;
    }
    let first: usize = i;
    proof {
        assert(digits =~= buf@.subrange(first as int, end as int));
        assert(buf@.subrange(first as int, first as int) =~= Seq::<u8>::empty());
    }
    if first == end {
        return Err(DecodeError::MalformedInteger);
    }
    let limit: u128 = 0x8000_0000_0000_0000;
    let mut acc: u128 = 0;
    while i < end
        invariant
            n == buf@.len(),
            first <= i <= end < n,
            find_byte(buf@, pos + 1, 0x65) == end,
            text == buf@.subrange(pos + 1, end as int),
            digits == literal_digits(text),
            negative == (text.len() > 0 && text[0] == 0x2d),
            digits == buf@.subrange(first as int, end as int),
            forall|j: int| first <= j < i ==> is_digit(#[trigger] buf@[j]),
            acc == decimal_value(buf@.subrange(first as int, i as int)),
            acc <= limit,
            limit == 0x8000_0000_0000_0000,
        decreases end - i,
    {
        if !digit_at(buf, i) {
            proof {
                assert(digits[i - first] == buf@[i as int]);
            }
            return Err(DecodeError::MalformedInteger);
        }
        let d: u128 = (buf[i] - 0x30) as u128;
        let next: u128 = acc * 10 + d;
        proof {
            assert(buf@.subrange(first as int, i + 1).drop_last() =~= buf@.subrange(first as int, i as int));
            assert(next == decimal_value(buf@.subrange(first as int, i + 1)));
        }
        if next > limit {
            proof {
                lemma_decimal_prefix_le(digits, i + 1 - first);
                assert(digits.subrange(0, i + 1 - first) =~= buf@.subrange(first as int, i + 1));
            }
            return Err(DecodeError::MalformedInteger);
        }
        acc = next;
        i += 1;
    }
    proof {
        assert forall|j: int| 0 <= j < digits.len() implies is_digit(#[trigger] digits[j]) by {
            assert(digits[j] == buf@[first + j]);
        }
    }
    if negative {
        let value: i64 = if acc == limit {
            i64::MIN
        } else {
            -(acc as i64)
        };
        Ok((BencodeValue::Integer(value), end + 1))
    } else if acc == limit {
        Err(DecodeError::MalformedInteger)
    } else {
        Ok((BencodeValue::Integer(acc as i64), end + 1))
    }
}

/// Decodes the value that starts at `pos` and returns it with the position
/// just behind its encoding.
pub fn decode_at(buf: &[u8], pos: usize) -> (res: Result<(BencodeValue, usize), DecodeError>)
    ensures
        agrees(res, decode_value(buf@, pos as int)),
        res matches Ok((_, end)) ==> pos < end <= buf@.len(),
    decreases buf@.len() - pos,
{
    let n: usize = buf.len();
    if pos >= n {
        return Err(DecodeError::UnrecognizedTag);
    }
    let tag: u8 = buf[pos];
    if digit_at(buf, pos) {
        decode_string_at(buf, pos)
    } else if tag == 0x69 {
        decode_integer_at(buf, pos)
    } else if tag == 0x6c {
        let mut items: Vec<BencodeValue> = Vec::new();
        let mut ptr: usize = pos + 1;
        proof {
            let tail = decode_items(buf@, ptr as int);
            assert(views(items@) =~= Seq::<Bencode>::empty());
            if let Ok((rest, end)) = tail {
                assert(views(items@) + rest =~= rest);
            }
        }
        loop
            invariant
                n == buf@.len(),
                pos < ptr <= n,
                !is_digit(buf@[pos as int]),
                buf@[pos as int] == 0x6c,
                decode_items(buf@, pos + 1) == items_after(views(items@), decode_items(buf@, ptr as int)),
            decreases n - ptr,
        {
            if ptr >= n {
                return Err(DecodeError::UnrecognizedTag);
            }
            if buf[ptr] == 0x65 {
                proof {
                    assert(views(items@) + Seq::<Bencode>::empty() =~= views(items@));
                    lemma_list_view(items);
                }
                return Ok((BencodeValue::List(items), ptr + 1));
            }
            match decode_at(buf, ptr) {
                Err(e) => {
                    return Err(e);
                },
                Ok((v, next)) => {
                    proof {
                        let tail = decode_items(buf@, next as int);
                        assert(decode_items(buf@, ptr as int) == with_item(v@, tail));
                        assert(views(items@.push(v)) =~= views(items@).push(v@));
                        if let Ok((rest, end)) = tail {
                            assert(views(items@) + (seq![v@] + rest) =~= views(items@).push(v@) + rest);
                        }
                    }
                    items.push(v);
                    ptr = next;
                },
            }
        }
    } else if tag == 0x64 {
        let mut entries: Vec<(Vec<u8>, BencodeValue)> = Vec::new();
        let mut ptr: usize = pos + 1;
        proof {
            let tail = decode_entries(buf@, ptr as int);
            assert(entry_views(entries@) =~= Seq::<(Seq<u8>, Bencode)>::empty());
            if let Ok((rest, end)) = tail {
                assert(entry_views(entries@) + rest =~= rest);
            }
        }
        loop
            invariant
                n == buf@.len(),
                pos < ptr <= n,
                !is_digit(buf@[pos as int]),
                buf@[pos as int] == 0x64,
                decode_entries(buf@, pos + 1) == entries_after(
                    entry_views(entries@),
                    decode_entries(buf@, ptr as int),
                ),
            decreases n - ptr,
        {
            if ptr >= n {
                return Err(DecodeError::UnrecognizedTag);
            }
            if buf[ptr] == 0x65 {
                proof {
                    assert(entry_views(entries@) + Seq::<(Seq<u8>, Bencode)>::empty() =~= entry_views(
                        entries@,
                    ));
                    lemma_dictionary_view(entries);
                }
                return Ok((BencodeValue::Dictionary(entries), ptr + 1));
            }
            let key: Vec<u8> = match decode_at(buf, ptr) {
                Err(e) => {
                    return Err(e);
                },
                Ok((BencodeValue::ByteString(key), mid)) => {
                    ptr = mid;
                    key
                },
                Ok(_) => {
                    return Err(DecodeError::NonStringKey);
                },
            };
            match decode_at(buf, ptr) {
                Err(e) => {
                    return Err(e);
                },
                Ok((v, next)) => {
                    proof {
                        let tail = decode_entries(buf@, next as int);
                        assert(entry_views(entries@.push((key, v))) =~= entry_views(entries@).push((key@, v@)));
                        if let Ok((rest, end)) = tail {
                            assert(entry_views(entries@) + (seq![(key@, v@)] + rest) =~= entry_views(
                                entries@,
                            ).push((key@, v@)) + rest);
                        }
                    }
                    entries.push((key, v));
                    ptr = next;
                },
            }
        }
    } else {
        Err(DecodeError::UnrecognizedTag)
    }
}

/// Decodes the value that starts at `offset` in `buffer` and returns it with
/// the number of bytes that its encoding takes.
pub fn decode(buffer: &[u8], offset: usize) -> (res: Result<(BencodeValue, usize), DecodeError>)
    ensures
        match res {
            Ok((v, consumed)) => decode_value(buffer@, offset as int) == Ok::<(Bencode, int), DecodeError>(
                (v@, offset + consumed),
            ) && 0 < consumed && offset + consumed <= buffer@.len(),
            Err(e) => decode_value(buffer@, offset as int) == Err::<(Bencode, int), DecodeError>(e),
        },
{
    match decode_at(buffer, offset) {
        Ok((v, end)) => Ok((v, end - offset)),
        Err(e) => Err(e),
    }
}

} // verus!
