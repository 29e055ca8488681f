//! Torrent metadata and its info-hash.

use vstd::prelude::*;
use vstd::slice::slice_subrange;
use vstd::slice::slice_to_vec;
use vstd::utf8::decode_utf8;
use vstd::utf8::valid_utf8;
use crate::bencode::Bencode;
use crate::bencode::BencodeValue;
use crate::bencode::decode_value;
use crate::bencode::entry_views;
use crate::bencode::lemma_dictionary_view;
use crate::decode::decode_at;
use crate::laws::end_of;
use crate::laws::lemma_value_cut;
use crate::trusted::sha1_digest;
use crate::trusted::sha1_of;
use crate::trusted::utf8_text;

verus! {

/// A field that torrent metadata must hold.
#[derive(Debug, Clone, Copy, PartialEq, Eq, Structural)]
pub enum Field {
    /// `announce`, a byte string of valid UTF-8.
    Announce,
    /// `info`, a dictionary.
    Info,
    /// `length` in `info`, an integer that is not negative.
    Length,
    /// `piece length` in `info`, an integer above zero.
    PieceLength,
    /// `pieces` in `info`, a byte string.
    Pieces,
}

/// Why a file is no usable torrent.
#[derive(Debug, Clone, Copy, PartialEq, Eq, Structural)]
pub enum TorrentError {
    /// The file, or what follows its `info` key, is not bencode, or the file
    /// is no dictionary.
    InvalidTorrentFile,
    /// The field is absent, holds another kind of value, or holds a number
    /// that is no length: a negative `length`, or a `piece length` that is
    /// not above zero.
    MissingField(Field),
    /// The length of `pieces` is no multiple of 20.
    MalformedPieces,
}

/// What a torrent file says of its download.
#[derive(Debug, PartialEq, Eq)]
pub struct TorrentMetadata {
    pub announce_url: String,
    pub total_length: i64,
    /// SHA-1 of the bytes that encode `info` in the file.
    pub info_hash: Vec<u8>,
    pub piece_length: i64,
    pub piece_hashes: Vec<Vec<u8>>,
}

/// The mathematical model of `TorrentMetadata`.
pub struct Metadata {
    pub announce_url: Seq<char>,
    pub total_length: int,
    pub info_hash: Seq<u8>,
    pub piece_length: int,
    pub piece_hashes: Seq<Seq<u8>>,
}

impl Metadata {
    /// Whether the length is not negative, the piece length is above zero,
    /// and the info-hash and every piece hash have the 20 bytes of a SHA-1
    /// digest.
    pub open spec fn well_formed(self) -> bool {
        &&& self.total_length >= 0
        &&& self.piece_length > 0
        &&& self.info_hash.len() == 20
        &&& forall|k: int| 0 <= k < self.piece_hashes.len() ==> (#[trigger] self.piece_hashes[k]).len() == 20
    }
}

impl View for TorrentMetadata {
    type V = Metadata;

    open spec fn view(&self) -> Metadata {
        Metadata {
            announce_url: self.announce_url@,
            total_length: self.total_length as int,
            info_hash: self.info_hash@,
            piece_length: self.piece_length as int,
            piece_hashes: Seq::new(self.piece_hashes@.len(), |k: int| self.piece_hashes@[k]@),
        }
    }
}

/// The value under `key`: that of the last entry with this key.
pub open spec fn dict_get(entries: Seq<(Seq<u8>, Bencode)>, key: Seq<u8>) -> Option<Bencode>
    decreases entries.len(),
{
    if entries.len() == 0 {
        None
    } else if entries.last().0 == key {
        Some(entries.last().1)
    } else {
        dict_get(entries.drop_last(), key)
    }
}

/// The value under `key` where `value` is a dictionary that has the key.
pub open spec fn field(value: Bencode, key: Seq<u8>) -> Option<Bencode> {
    match value {
        Bencode::Dictionary(entries) => dict_get(entries, key),
        _ => None,
    }
}

/// The first position at or after `pos` where `marker` stands in `buf`.
pub open spec fn find_marker(buf: Seq<u8>, marker: Seq<u8>, pos: int) -> Option<int>
    decreases buf.len() - pos,
{
    if pos < 0 || pos + marker.len() > buf.len() {
        None
    } else if buf.subrange(pos, pos + marker.len()) == marker {
        Some(pos)
    } else if pos < buf.len() {
        find_marker(buf, marker, pos + 1)
    } else {
        None
    }
}

/// `bytes` cut into consecutive groups of `size` bytes; a shorter rest is
/// left out.
pub open spec fn chunks(bytes: Seq<u8>, size: int) -> Seq<Seq<u8>> {
    Seq::new((bytes.len() as int / size) as nat, |k: int| bytes.subrange(k * size, k * size + size))
}

/// The key `announce`.
pub open spec fn announce_key() -> Seq<u8> {
    seq![0x61, 0x6e, 0x6e, 0x6f, 0x75, 0x6e, 0x63, 0x65]
}

/// The key `length`.
pub open spec fn length_key() -> Seq<u8> {
    seq![0x6c, 0x65, 0x6e, 0x67, 0x74, 0x68]
}

/// The key `piece length`.
pub open spec fn piece_length_key() -> Seq<u8> {
    seq![0x70, 0x69, 0x65, 0x63, 0x65, 0x20, 0x6c, 0x65, 0x6e, 0x67, 0x74, 0x68]
}

/// The key `pieces`.
pub open spec fn pieces_key() -> Seq<u8> {
    seq![0x70, 0x69, 0x65, 0x63, 0x65, 0x73]
}

/// The encoded key `4:info`, behind which the `info` dictionary starts.
pub open spec fn info_marker() -> Seq<u8> {
    seq![0x34, 0x3a, 0x69, 0x6e, 0x66, 0x6f]
}

/// The total length that `info` states: the integer under `length`, where
/// there is one and it is not negative.
pub open spec fn stated_length(info: Bencode) -> Option<int> {
    match field(info, length_key()) {
        Some(Bencode::Integer(n)) => if n >= 0 {
            Some(n)
        } else {
            None
        },
        _ => None,
    }
}

/// The piece length that `info` states: the integer under `piece length`,
/// where there is one and it is above zero.
pub open spec fn stated_piece_length(info: Bencode) -> Option<int> {
    match field(info, piece_length_key()) {
        Some(Bencode::Integer(n)) => if n > 0 {
            Some(n)
        } else {
            None
        },
        _ => None,
    }
}

/// The metadata that the decoded `info` value gives, with the tracker URL
/// and the hash found before. The fields are looked at in the order
/// `length`, `piece length`, `pieces`, and the first that fails decides the
/// error.
pub open spec fn info_metadata(info: Bencode, url: Seq<char>, hash: Seq<u8>) -> Result<Metadata, TorrentError> {
    if !(info is Dictionary) {
        Err(TorrentError::MissingField(Field::Info))
    } else if stated_length(info) is None {
        Err(TorrentError::MissingField(Field::Length))
    } else if stated_piece_length(info) is None {
        Err(TorrentError::MissingField(Field::PieceLength))
    } else {
        match field(info, pieces_key()) {
            Some(Bencode::ByteString(pieces)) => if pieces.len() % 20 == 0 {
                Ok(
                    Metadata {
                        announce_url: url,
                        total_length: stated_length(info)->0,
                        info_hash: hash,
                        piece_length: stated_piece_length(info)->0,
                        piece_hashes: chunks(pieces, 20),
                    },
                )
            } else {
                Err(TorrentError::MalformedPieces)
            },
            _ => Err(TorrentError::MissingField(Field::Pieces)),
        }
    }
}

/// The span of the file that encodes `info`: from just behind the first
/// `4:info` to the end of the value that decodes there.
pub open spec fn info_span(file: Seq<u8>) -> Option<(int, int)> {
    match find_marker(file, info_marker(), 0) {
        Some(at) => match decode_value(file, at + 6) {
            Ok((_, end)) => Some((at + 6, end)),
            Err(_) => None,
        },
        None => None,
    }
}

/// The metadata of a torrent file, or the reason why it has none. The
/// info-hash is the digest of exactly the bytes of `info_span`.
pub open spec fn parse_metadata(file: Seq<u8>) -> Result<Metadata, TorrentError> {
    match decode_value(file, 0) {
        Ok((Bencode::Dictionary(top), _)) => match dict_get(top, announce_key()) {
            Some(Bencode::ByteString(url)) => if valid_utf8(url) {
                match find_marker(file, info_marker(), 0) {
                    Some(at) => match decode_value(file, at + 6) {
                        Ok((info, end)) => info_metadata(
                            info,
                            decode_utf8(url),
                            sha1_digest(file.subrange(at + 6, end)),
                        ),
                        Err(_) => Err(TorrentError::InvalidTorrentFile),
                    },
                    None => Err(TorrentError::MissingField(Field::Info)),
                }
            } else {
                Err(TorrentError::MissingField(Field::Announce))
            },
            _ => Err(TorrentError::MissingField(Field::Announce)),
        },
        _ => Err(TorrentError::InvalidTorrentFile),
    }
}

/// Whether two byte strings are equal.
pub fn bytes_equal(a: &[u8], b: &[u8]) -> (r: bool)
    ensures
        r == (a@ == b@),
{
    if a.len() != b.len() {
        return false;
    }
    let mut i: usize = 0;
    while i < a.len()
        invariant
            a@.len() == b@.len(),
            i <= a@.len(),
            forall|j: int| 0 <= j < i ==> a@[j] == b@[j],
        decreases a@.len() - i,
    {
        if a[i] != b[i] {
            return false;
        }
        i += 1;
    }
    proof {
        assert(a@ =~= b@);
    }
    true
}

impl BencodeValue {
    /// The value under `key` in a dictionary; `None` where the key is absent
    /// or `self` is no dictionary. Of several entries with the key the last
    /// one counts.
    pub fn get(&self, key: &[u8]) -> (r: Option<&BencodeValue>)
        ensures
            match r {
                Some(v) => field(self@, key@) == Some(v@),
                None => field(self@, key@) is None,
            },
    {
        match self {
            BencodeValue::Dictionary(entries) => {
                proof {
                    lemma_dictionary_view(*entries);
                    assert(entry_views(entries@).subrange(0, entries@.len() as int) =~= entry_views(entries@));
                }
                let ghost all = entry_views(entries@);
                let mut i: usize = entries.len();
                while i > 0
                    invariant
                        i <= entries@.len(),
                        all == entry_views(entries@),
                        field(self@, key@) == dict_get(all, key@),
                        dict_get(all, key@) == dict_get(all.subrange(0, i as int), key@),
                    decreases i,
                {
                    i -= 1;
                    proof {
                        assert(all.subrange(0, i + 1).drop_last() =~= all.subrange(0, i as int));
                        assert(all.subrange(0, i + 1).last() == all[i as int]);
                        assert(all[i as int] == (entries@[i as int].0@, entries@[i as int].1@));
                    }
                    if bytes_equal(entries[i].0.as_slice(), key) {
                        return Some(&entries[i].1);
                    }
                }
                None
            },
            _ => None,
        }
    }
}

/// The first position at or after `from` where `marker` stands in `buf`.
pub fn find_bytes(buf: &[u8], marker: &[u8], from: usize) -> (r: Option<usize>)
    ensures
        match r {
            Some(at) => find_marker(buf@, marker@, from as int) == Some(at as int) && from <= at && at
                + marker@.len() <= buf@.len(),
            None => find_marker(buf@, marker@, from as int) is None,
        },
{
    if marker.len() > buf.len() {
        return None;
    }
    let last: usize = buf.len() - marker.len();
    if from > last {
        return None;
    }
    let mut pos: usize = from;
    while pos <= last
        invariant
            last + marker@.len() == buf@.len(),
            from <= pos <= last + 1,
            buf@.len() <= usize::MAX,
            marker@.len() == marker.len(),
            find_marker(buf@, marker@, from as int) == find_marker(buf@, marker@, pos as int),
        decreases last + 1 - pos,
    {
        if bytes_equal(slice_subrange(buf, pos, pos + marker.len()), marker) {
            return Some(pos);
        }
        proof {
            if marker@.len() == 0 {
                assert(buf@.subrange(pos as int, pos as int) =~= marker@);
            }
        }
        pos += 1;
    }
    None
}

/// Cuts `bytes` into consecutive groups of 20 bytes.
pub fn split_hashes(bytes: &[u8]) -> (out: Vec<Vec<u8>>)
    ensures
        Seq::new(out@.len(), |k: int| out@[k]@) == chunks(bytes@, 20),
{
    let count: usize = bytes.len() / 20;
    let mut out: Vec<Vec<u8>> = Vec::new();
    let mut i: usize = 0;
    while i < count
        invariant
            count == bytes@.len() / 20,
            bytes@.len() <= usize::MAX,
            i <= count,
            out@.len() == i,
            forall|k: int| 0 <= k < i ==> out@[k]@ == bytes@.subrange(k * 20, k * 20 + 20),
        decreases count - i,
    {
        assert(i * 20 + 20 <= bytes@.len());
        let piece = slice_to_vec(slice_subrange(bytes, i * 20, i * 20 + 20));
        out.push(piece);
        i += 1;
    }
    proof {
        assert(Seq::new(out@.len(), |k: int| out@[k]@) =~= chunks(bytes@, 20));
    }
    out
}

fn key_bytes(which: Field) -> (k: Vec<u8>)
    ensures
        k@ == match which {
            Field::Announce => announce_key(),
            Field::Info => info_marker(),
            Field::Length => length_key(),
            Field::PieceLength => piece_length_key(),
            Field::Pieces => pieces_key(),
        },
{
    let k: Vec<u8> = match which {
        Field::Announce => vec![0x61, 0x6e, 0x6e, 0x6f, 0x75, 0x6e, 0x63, 0x65],
        Field::Info => vec![0x34, 0x3a, 0x69, 0x6e, 0x66, 0x6f],
        Field::Length => vec![0x6c, 0x65, 0x6e, 0x67, 0x74, 0x68],
        Field::PieceLength => vec![0x70, 0x69, 0x65, 0x63, 0x65, 0x20, 0x6c, 0x65, 0x6e, 0x67, 0x74, 0x68],
        Field::Pieces => vec![0x70, 0x69, 0x65, 0x63, 0x65, 0x73],
    };
    proof {
        assert(k@ =~= match which {
            Field::Announce => announce_key(),
            Field::Info => info_marker(),
            Field::Length => length_key(),
            Field::PieceLength => piece_length_key(),
            Field::Pieces => pieces_key(),
        });
    }
    k
}

/// Builds the metadata from the decoded `info` value, the tracker URL and
/// the info-hash. A negative `length` and a `piece length` that is not above
/// zero are refused like an absent field.
pub fn metadata_from_info(info: &BencodeValue, url: String, hash: Vec<u8>) -> (res: Result<
    TorrentMetadata,
    TorrentError,
>)
    ensures
        match res {
            Ok(m) => info_metadata(info@, url@, hash@) == Ok::<Metadata, TorrentError>(m@),
            Err(e) => info_metadata(info@, url@, hash@) == Err::<Metadata, TorrentError>(e),
        },
        res matches Ok(m) ==> (hash@.len() == 20 ==> m@.well_formed()),
{
    match info {
        BencodeValue::Dictionary(_) => {},
        _ => {
            return Err(TorrentError::MissingField(Field::Info));
        },
    }
    let length_key = key_bytes(Field::Length);
    let total_length: i64 = match info.get(length_key.as_slice()) {
        Some(BencodeValue::Integer(n)) => *n,
        _ => {
            return Err(TorrentError::MissingField(Field::Length));
        },
    };
    if total_length < 0 {
        return Err(TorrentError::MissingField(Field::Length));
    }
    let piece_length_key = key_bytes(Field::PieceLength);
    let piece_length: i64 = match info.get(piece_length_key.as_slice()) {
        Some(BencodeValue::Integer(n)) => *n,
        _ => {
            return Err(TorrentError::MissingField(Field::PieceLength));
        },
    };
    if piece_length <= 0 {
        return Err(TorrentError::MissingField(Field::PieceLength));
    }
    let pieces_key = key_bytes(Field::Pieces);
    let pieces: &Vec<u8> = match info.get(pieces_key.as_slice()) {
        Some(BencodeValue::ByteString(p)) => p,
        _ => {
            return Err(TorrentError::MissingField(Field::Pieces));
        },
    };
    if pieces.len() % 20 != 0 {
        return Err(TorrentError::MalformedPieces);
    }
    let piece_hashes = split_hashes(pieces.as_slice());
    proof {
        let parts = chunks(pieces@, 20);
        assert forall|k: int| 0 <= k < parts.len() implies (#[trigger] parts[k]).len() == 20 by {
            assert(k * 20 + 20 <= pieces@.len());
        }
    }
    Ok(TorrentMetadata { announce_url: url, total_length, info_hash: hash, piece_length, piece_hashes })
}

/// Extracts the metadata of the torrent file `file_bytes`.
///
/// The `info` dictionary is taken to start just behind the first `4:info`
/// in the file, also where that occurrence lies inside another value: a
/// file with such a decoy is not told apart from an honest one. The
/// info-hash is the digest of the file's own bytes from there to the end of
/// the value that decodes there.
pub fn parse(file_bytes: &[u8]) -> (res: Result<TorrentMetadata, TorrentError>)
    ensures
        match res {
            Ok(m) => parse_metadata(file_bytes@) == Ok::<Metadata, TorrentError>(m@),
            Err(e) => parse_metadata(file_bytes@) == Err::<Metadata, TorrentError>(e),
        },
        res matches Ok(m) ==> m@.well_formed(),
        res matches Ok(m) ==> match info_span(file_bytes@) {
            Some((start, end)) => m@.info_hash == sha1_digest(file_bytes@.subrange(start, end)),
            None => false,
        },
{
    let top = match decode_at(file_bytes, 0) {
        Ok((top, _)) => top,
        Err(_) => {
            return Err(TorrentError::InvalidTorrentFile);
        },
    };
    match top {
        BencodeValue::Dictionary(_) => {},
        _ => {
            return Err(TorrentError::InvalidTorrentFile);
        },
    }
    let announce_key = key_bytes(Field::Announce);
    let url: String = match top.get(announce_key.as_slice()) {
        Some(BencodeValue::ByteString(bytes)) => match utf8_text(bytes.as_slice()) {
            Some(text) => text.to_owned(),
            None => {
                return Err(TorrentError::MissingField(Field::Announce));
            },
        },
        _ => {
            return Err(TorrentError::MissingField(Field::Announce));
        },
    };
    let marker = key_bytes(Field::Info);
    let at: usize = match find_bytes(file_bytes, marker.as_slice(), 0) {
        Some(at) => at,
        None => {
            return Err(TorrentError::MissingField(Field::Info));
        },
    };
    assert(marker@.len() == 6);
    assert(at + 6 <= file_bytes.len());
    let start: usize = at + 6;
    let (info, end) = match decode_at(file_bytes, start) {
        Ok(found) => found,
        Err(_) => {
            return Err(TorrentError::InvalidTorrentFile);
        },
    };
    let hash = sha1_of(slice_subrange(file_bytes, start, end));
    metadata_from_info(&info, url, hash)
}


/// Where the marker is found it stands within the buffer, at or after `pos`.
pub proof fn lemma_find_marker_bounds(buf: Seq<u8>, marker: Seq<u8>, pos: int)
    requires
        find_marker(buf, marker, pos) is Some,
    ensures
        pos <= find_marker(buf, marker, pos)->0,
        0 <= find_marker(buf, marker, pos)->0,
        find_marker(buf, marker, pos)->0 + marker.len() <= buf.len(),
        buf.subrange(find_marker(buf, marker, pos)->0, find_marker(buf, marker, pos)->0 + marker.len())
            == marker,
    decreases buf.len() - pos,
{
    if pos < 0 || pos + marker.len() > buf.len() {
    } else if buf.subrange(pos, pos + marker.len()) == marker {
    } else if pos < buf.len() {
        lemma_find_marker_bounds(buf, marker, pos + 1);
    }
}

/// The info-hash of a torrent file is a function of its bytes: whenever the
/// file has metadata, the hash is the SHA-1 digest of the span that starts
/// just behind the first `4:info` and ends where the value decoded there
/// ends. The span lies within the file and is not empty.
pub proof fn lemma_info_hash_of_span(file: Seq<u8>, m: Metadata)
    requires
        parse_metadata(file) == Ok::<Metadata, TorrentError>(m),
    ensures
        match info_span(file) {
            Some((start, end)) => 6 <= start < end <= file.len() && file.subrange(start - 6, start)
                == info_marker() && decode_value(file, start) is Ok && end_of(decode_value(file, start))
                == end && m.info_hash == sha1_digest(file.subrange(start, end)),
            None => false,
        },
{
    lemma_find_marker_bounds(file, info_marker(), 0);
    let at = find_marker(file, info_marker(), 0)->0;
    lemma_value_cut(file, at + 6, file.len() as int);
}


/// Whatever file has metadata, its length is not negative, its piece length
/// is above zero, and each of its piece hashes has 20 bytes.
pub proof fn lemma_metadata_in_range(file: Seq<u8>, m: Metadata)
    requires
        parse_metadata(file) == Ok::<Metadata, TorrentError>(m),
    ensures
        m.total_length >= 0,
        m.piece_length > 0,
        forall|k: int| 0 <= k < m.piece_hashes.len() ==> (#[trigger] m.piece_hashes[k]).len() == 20,
{
    let at = find_marker(file, info_marker(), 0)->0;
    let info = decode_value(file, at + 6)->Ok_0.0;
    let pieces = field(info, pieces_key())->0->ByteString_0;
    assert(m.piece_hashes == chunks(pieces, 20));
    assert forall|k: int| 0 <= k < m.piece_hashes.len() implies (#[trigger] m.piece_hashes[k]).len() == 20 by {
        assert(k * 20 + 20 <= pieces.len());
    }
}

} // verus!
