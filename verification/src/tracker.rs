//! The tracker announce: the request URL and the compact peer list.

use vstd::prelude::*;
use vstd::string::StringExecFns;
use crate::bencode::Bencode;
use crate::bencode::BencodeValue;
use crate::bencode::decode_value;
use crate::decode::decode_at;
use crate::decimal::decimal_string;
use crate::decimal::decimal_text;
use crate::trusted::form_encoded;
use crate::trusted::form_urlencode;
use crate::torrent::Metadata;
use crate::torrent::TorrentMetadata;
use crate::torrent::field;

verus! {

/// Why an announce gave no peer list.
#[derive(Debug, Clone, Copy, PartialEq, Eq, Structural)]
pub enum TrackerError {
    /// The request could not be sent or its answer could not be read.
    NetworkError,
    /// The answer is no bencoded dictionary, or its `peers` is no compact
    /// list: no byte string, or one whose length is no multiple of 6.
    TrackerProtocolError,
}

/// The address of a peer.
#[derive(Debug, Clone, Copy, PartialEq, Eq)]
pub struct PeerEndpoint {
    /// The IPv4 address, first octet first.
    pub ip: [u8; 4],
    pub port: u16,
}

/// The mathematical model of `PeerEndpoint`.
pub struct Endpoint {
    pub ip: Seq<u8>,
    pub port: int,
}

impl View for PeerEndpoint {
    type V = Endpoint;

    open spec fn view(&self) -> Endpoint {
        Endpoint { ip: self.ip@, port: self.port as int }
    }
}

/// The endpoint that the six bytes from `at` encode: four address octets,
/// then the port with its high byte first.
pub open spec fn endpoint_at(bytes: Seq<u8>, at: int) -> Endpoint {
    Endpoint { ip: bytes.subrange(at, at + 4), port: bytes[at + 4] as int * 256 + bytes[at + 5] as int }
}

/// The endpoints of a compact peer list, one for each group of six bytes.
pub open spec fn compact_endpoints(bytes: Seq<u8>) -> Seq<Endpoint> {
    Seq::new((bytes.len() / 6) as nat, |k: int| endpoint_at(bytes, 6 * k))
}

/// The views of a vector of endpoints.
pub open spec fn endpoint_views(peers: Seq<PeerEndpoint>) -> Seq<Endpoint> {
    Seq::new(peers.len(), |k: int| peers[k]@)
}

/// The key `peers`.
pub open spec fn peers_key() -> Seq<u8> {
    seq![0x70, 0x65, 0x65, 0x72, 0x73]
}

/// The peers that a decoded tracker answer lists.
pub open spec fn answer_peers(answer: Bencode) -> Result<Seq<Endpoint>, TrackerError> {
    if !(answer is Dictionary) {
        Err(TrackerError::TrackerProtocolError)
    } else {
        match field(answer, peers_key()) {
            None => Ok(Seq::empty()),
            Some(Bencode::ByteString(bytes)) => if bytes.len() % 6 == 0 {
                Ok(compact_endpoints(bytes))
            } else {
                Err(TrackerError::TrackerProtocolError)
            },
            Some(_) => Err(TrackerError::TrackerProtocolError),
        }
    }
}

/// The peers that the body of a tracker answer lists.
pub open spec fn body_peers(body: Seq<u8>) -> Result<Seq<Endpoint>, TrackerError> {
    match decode_value(body, 0) {
        Ok((answer, _)) => answer_peers(answer),
        Err(_) => Err(TrackerError::TrackerProtocolError),
    }
}

/// The announce URL: the tracker URL, `/?` and the query.
pub open spec fn announce_text(m: Metadata, peer_id: Seq<u8>, port: int) -> Seq<char> {
    m.announce_url + "/?info_hash="@ + form_encoded(m.info_hash) + "&peer_id="@ + form_encoded(peer_id)
        + "&port="@ + decimal_text(port) + "&uploaded=0&downloaded=0&left="@ + decimal_text(
        m.total_length,
    ) + "&compact=1"@
}

/// Builds the URL of the announce request. The info-hash and the peer id
/// stand in it byte for byte in form-urlencoded text.
pub fn announce_url(metadata: &TorrentMetadata, peer_id: &[u8], port: u16) -> (url: String)
    ensures
        url@ == announce_text(metadata@, peer_id@, port as int),
{
    let hash_text = form_urlencode(metadata.info_hash.as_slice());
    let peer_text = form_urlencode(peer_id);
    let port_text = decimal_string(port as i64);
    let left_text = decimal_string(metadata.total_length);
    let mut url = String::from_str(metadata.announce_url.as_str());
    url.append("/?info_hash=");
    url.append(hash_text.as_str());
    url.append("&peer_id=");
    url.append(peer_text.as_str());
    url.append("&port=");
    url.append(port_text.as_str());
    url.append("&uploaded=0&downloaded=0&left=");
    url.append(left_text.as_str());
    url.append("&compact=1");
    url
}

/// Decodes a compact peer list: six bytes for each peer.
pub fn compact_peers(bytes: &[u8]) -> (res: Result<Vec<PeerEndpoint>, TrackerError>)
    ensures
        res is Ok <==> bytes@.len() % 6 == 0,
        res matches Ok(peers) ==> endpoint_views(peers@) == compact_endpoints(bytes@),
        res matches Err(e) ==> e == TrackerError::TrackerProtocolError,
{
    if bytes.len() % 6 != 0 {
        return Err(TrackerError::TrackerProtocolError);
    }
    let count: usize = bytes.len() / 6;
    let mut peers: Vec<PeerEndpoint> = Vec::new();
    let mut k: usize = 0;
    while k < count
        invariant
            count == bytes@.len() / 6,
            bytes@.len() <= usize::MAX,
            k <= count,
            peers@.len() == k,
            forall|j: int| 0 <= j < k ==> (#[trigger] peers@[j])@ == endpoint_at(bytes@, 6 * j),
        decreases count - k,
    {
        assert(6 * k + 6 <= bytes@.len());
        let at: usize = 6 * k;
        let ip: [u8; 4] = [bytes[at], bytes[at + 1], bytes[at + 2], bytes[at + 3]];
        let high: u16 = bytes[at + 4] as u16;
        let low: u16 = bytes[at + 5] as u16;
        let peer = PeerEndpoint { ip, port: high * 256 + low };
        proof {
            assert(ip@ =~= bytes@.subrange(at as int, at + 4));
        }
        peers.push(peer);
        k += 1;
    }
    proof {
        assert(endpoint_views(peers@) =~= compact_endpoints(bytes@));
    }
    Ok(peers)
}

/// The peers that a decoded tracker answer lists: none where it has no
/// `peers`.
pub fn peers_of_answer(answer: &BencodeValue) -> (res: Result<Vec<PeerEndpoint>, TrackerError>)
    ensures
        match res {
            Ok(peers) => answer_peers(answer@) == Ok::<Seq<Endpoint>, TrackerError>(endpoint_views(peers@)),
            Err(e) => answer_peers(answer@) == Err::<Seq<Endpoint>, TrackerError>(e),
        },
{
    match answer {
        BencodeValue::Dictionary(_) => {},
        _ => {
            return Err(TrackerError::TrackerProtocolError);
        },
    }
    let key: Vec<u8> = vec![0x70, 0x65, 0x65, 0x72, 0x73];
    proof {
        assert(key@ =~= peers_key());
    }
    match answer.get(key.as_slice()) {
        None => {
            let peers: Vec<PeerEndpoint> = Vec::new();
            proof {
                assert(endpoint_views(peers@) =~= Seq::<Endpoint>::empty());
            }
            Ok(peers)
        },
        Some(BencodeValue::ByteString(bytes)) => compact_peers(bytes.as_slice()),
        Some(_) => Err(TrackerError::TrackerProtocolError),
    }
}

/// Decodes the body of a tracker answer into its peers.
pub fn decode_peers(body: &[u8]) -> (res: Result<Vec<PeerEndpoint>, TrackerError>)
    ensures
        match res {
            Ok(peers) => body_peers(body@) == Ok::<Seq<Endpoint>, TrackerError>(endpoint_views(peers@)),
            Err(e) => body_peers(body@) == Err::<Seq<Endpoint>, TrackerError>(e),
        },
{
    match decode_at(body, 0) {
        Ok((answer, _)) => peers_of_answer(&answer),
        Err(_) => Err(TrackerError::TrackerProtocolError),
    }
}

} // verus!
