//! The text in which metadata and peers are shown.

use vstd::prelude::*;
use vstd::string::StringExecFns;
use crate::decimal::decimal_string;
use crate::decimal::decimal_text;
use crate::trusted::hex_encode;
use crate::trusted::hex_encoded;
use crate::torrent::Metadata;
use crate::torrent::TorrentMetadata;
use crate::tracker::Endpoint;
use crate::tracker::PeerEndpoint;

verus! {

/// The views of a vector of texts.
pub open spec fn texts(lines: Seq<String>) -> Seq<Seq<char>> {
    Seq::new(lines.len(), |k: int| lines[k]@)
}

/// The lines that describe metadata: the tracker URL, the length, the
/// info-hash in hexadecimal, the piece length, a heading, and each piece
/// hash in hexadecimal.
pub open spec fn info_lines(m: Metadata) -> Seq<Seq<char>> {
    seq![
        "Tracker URL: "@ + m.announce_url,
        "Length: "@ + decimal_text(m.total_length),
        "Info Hash: "@ + hex_encoded(m.info_hash),
        "Piece Length: "@ + decimal_text(m.piece_length),
        "Piece Hashes:"@,
    ] + Seq::new(m.piece_hashes.len(), |k: int| hex_encoded(m.piece_hashes[k]))
}

/// An endpoint as text: the four octets in decimal with dots between them,
/// `:` and the port.
pub open spec fn address_text(e: Endpoint) -> Seq<char> {
    decimal_text(e.ip[0] as int) + "."@ + decimal_text(e.ip[1] as int) + "."@ + decimal_text(e.ip[2] as int)
        + "."@ + decimal_text(e.ip[3] as int) + ":"@ + decimal_text(e.port)
}

fn labelled(label: &str, text: &str) -> (line: String)
    ensures
        line@ == label@ + text@,
{
    let mut line = String::from_str(label);
    line.append(text);
    line
}

/// Describes the metadata line by line.
pub fn describe(metadata: &TorrentMetadata) -> (lines: Vec<String>)
    ensures
        texts(lines@) == info_lines(metadata@),
{
    let mut lines: Vec<String> = Vec::new();
    lines.push(labelled("Tracker URL: ", metadata.announce_url.as_str()));
    lines.push(labelled("Length: ", decimal_string(metadata.total_length).as_str()));
    lines.push(labelled("Info Hash: ", hex_encode(metadata.info_hash.as_slice()).as_str()));
    lines.push(labelled("Piece Length: ", decimal_string(metadata.piece_length).as_str()));
    lines.push(String::from_str("Piece Hashes:"));
    let ghost head = texts(lines@);
    let mut k: usize = 0;
    while k < metadata.piece_hashes.len()
        invariant
            k <= metadata.piece_hashes@.len(),
            head.len() == 5,
            lines@.len() == 5 + k,
            texts(lines@).subrange(0, 5) == head,
            forall|j: int| 0 <= j < k ==> (#[trigger] lines@[5 + j])@ == hex_encoded(metadata.piece_hashes@[j]@),
        decreases metadata.piece_hashes@.len() - k,
    {
        let ghost before = texts(lines@);
        lines.push(hex_encode(metadata.piece_hashes[k].as_slice()));
        proof {
            assert(texts(lines@).subrange(0, 5) =~= before.subrange(0, 5));
        }
        k += 1;
    }
    proof {
        let all = texts(lines@);
        assert(all.subrange(0, 5) == head);
        assert forall|j: int| 0 <= j < all.len() implies all[j] == info_lines(metadata@)[j] by {
            if j < 5 {
                assert(all[j] == all.subrange(0, 5)[j]);
            } else {
                assert(all[j] == lines@[5 + (j - 5)]@);
            }
        }
        assert(all =~= info_lines(metadata@));
    }
    lines
}

impl PeerEndpoint {
    /// The endpoint as text, such as `192.168.1.1:6881`.
    pub fn address(&self) -> (text: String)
        ensures
            text@ == address_text(self@),
    {
        let mut text = decimal_string(self.ip[0] as i64);
        text.append(".");
        text.append(decimal_string(self.ip[1] as i64).as_str());
        text.append(".");
        text.append(decimal_string(self.ip[2] as i64).as_str());
        text.append(".");
        text.append(decimal_string(self.ip[3] as i64).as_str());
        text.append(":");
        text.append(decimal_string(self.port as i64).as_str());
        text
    }
}

} // verus!
