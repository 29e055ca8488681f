//! The 68-byte peer handshake: framing and validation.

use vstd::prelude::*;
use vstd::slice::slice_subrange;
use vstd::slice::slice_to_vec;
use crate::torrent::bytes_equal;

verus! {

/// Why a handshake gave no peer id.
#[derive(Debug, Clone, Copy, PartialEq, Eq, Structural)]
pub enum HandshakeError {
    /// The connection to the peer could not be made.
    ConnectionError,
    /// The answer does not start with the length 19 and the protocol name.
    HandshakeMismatch,
    /// The answer has fewer than 68 bytes.
    IncompleteHandshake,
}

/// The protocol name, `BitTorrent protocol`, in ASCII.
pub open spec fn protocol_name() -> Seq<u8> {
    seq![
        0x42, 0x69, 0x74, 0x54, 0x6f, 0x72, 0x72, 0x65, 0x6e, 0x74, 0x20, 0x70, 0x72, 0x6f, 0x74, 0x6f, 0x63,
        0x6f, 0x6c,
    ]
}

/// The handshake message: the name's length, the name, eight reserved zero
/// bytes, the info-hash and the sender's peer id.
pub open spec fn handshake_frame(info_hash: Seq<u8>, peer_id: Seq<u8>) -> Seq<u8> {
    seq![19u8] + protocol_name() + Seq::new(8, |i: int| 0u8) + info_hash + peer_id
}

/// What a peer's answer yields: its peer id, bytes 48 to 67, where the answer
/// is complete and starts as a handshake must.
pub open spec fn handshake_reply(response: Seq<u8>) -> Result<Seq<u8>, HandshakeError> {
    if response.len() < 68 {
        Err(HandshakeError::IncompleteHandshake)
    } else if response[0] != 19 || response.subrange(1, 20) != protocol_name() {
        Err(HandshakeError::HandshakeMismatch)
    } else {
        Ok(response.subrange(48, 68))
    }
}

/// What a peer's answer yields where it must also name the torrent asked
/// for: as `handshake_reply`, and a mismatch where bytes 28 to 47 differ from
/// `info_hash`.
pub open spec fn handshake_reply_for(response: Seq<u8>, info_hash: Seq<u8>) -> Result<Seq<u8>, HandshakeError> {
    match handshake_reply(response) {
        Ok(id) => if response.subrange(28, 48) == info_hash {
            Ok(id)
        } else {
            Err(HandshakeError::HandshakeMismatch)
        },
        Err(e) => Err(e),
    }
}

fn protocol_name_bytes() -> (name: Vec<u8>)
    ensures
        name@ == protocol_name(),
{
    let name: Vec<u8> = vec![
        0x42, 0x69, 0x74, 0x54, 0x6f, 0x72, 0x72, 0x65, 0x6e, 0x74, 0x20, 0x70, 0x72, 0x6f, 0x74, 0x6f, 0x63,
        0x6f, 0x6c,
    ];
    proof {
        assert(name@ =~= protocol_name());
    }
    name
}

/// Builds the handshake message for `info_hash` and the sender's `peer_id`.
/// With both 20 bytes long it has 68 bytes.
pub fn build_handshake(info_hash: &[u8], peer_id: &[u8]) -> (frame: Vec<u8>)
    ensures
        frame@ == handshake_frame(info_hash@, peer_id@),
        frame@.len() == 28 + info_hash@.len() + peer_id@.len(),
        frame@[0] == 19,
        frame@.subrange(1, 20) == protocol_name(),
        forall|i: int| 20 <= i < 28 ==> frame@[i] == 0,
        info_hash@.len() == 20 && peer_id@.len() == 20 ==> frame@.len() == 68 && frame@.subrange(28, 48)
            == info_hash@ && frame@.subrange(48, 68) == peer_id@,
{
    let name = protocol_name_bytes();
    let mut frame: Vec<u8> = Vec::new();
    frame.push(19);
    frame.extend_from_slice(name.as_slice());
    let mut i: usize = 0;
    while i < 8
        invariant
            i <= 8,
            frame@ == seq![19u8] + protocol_name() + Seq::new(i as nat, |i: int| 0u8),
        decreases 8 - i,
    {
        frame.push(0);
        i += 1;
        proof {
            assert(frame@ =~= seq![19u8] + protocol_name() + Seq::new(i as nat, |i: int| 0u8));
        }
    }
    frame.extend_from_slice(info_hash);
    frame.extend_from_slice(peer_id);
    proof {
        let hl = info_hash@.len() as int;
        let pl = peer_id@.len() as int;
        assert(frame@ =~= handshake_frame(info_hash@, peer_id@));
        assert(frame@.subrange(1, 20) =~= protocol_name());
        if hl == 20 && pl == 20 {
            assert(frame@.subrange(28, 48) =~= info_hash@);
            assert(frame@.subrange(48, 68) =~= peer_id@);
        }
    }
    frame
}

/// Validates the start of a peer's answer to the handshake and returns the
/// peer's id.
///
/// The info-hash that the answer carries in bytes 28 to 47 is not looked at:
/// an answer for another torrent is accepted here. `read_handshake_for`
/// compares it with the hash that was sent.
pub fn read_handshake(response: &[u8]) -> (res: Result<Vec<u8>, HandshakeError>)
    ensures
        match res {
            Ok(id) => handshake_reply(response@) == Ok::<Seq<u8>, HandshakeError>(id@),
            Err(e) => handshake_reply(response@) == Err::<Seq<u8>, HandshakeError>(e),
        },
{
    if response.len() < 68 {
        return Err(HandshakeError::IncompleteHandshake);
    }
    let name = protocol_name_bytes();
    if response[0] != 19 || !bytes_equal(slice_subrange(response, 1, 20), name.as_slice()) {
        return Err(HandshakeError::HandshakeMismatch);
    }
    Ok(slice_to_vec(slice_subrange(response, 48, 68)))
}


/// Validates a peer's answer to the handshake sent for `info_hash` and
/// returns the peer's id: the answer must be complete, start as a handshake
/// must, and carry `info_hash` in bytes 28 to 47.
pub fn read_handshake_for(response: &[u8], info_hash: &[u8]) -> (res: Result<Vec<u8>, HandshakeError>)
    ensures
        match res {
            Ok(id) => handshake_reply_for(response@, info_hash@) == Ok::<Seq<u8>, HandshakeError>(id@),
            Err(e) => handshake_reply_for(response@, info_hash@) == Err::<Seq<u8>, HandshakeError>(e),
        },
{
    match read_handshake(response) {
        Ok(id) => {
            if bytes_equal(slice_subrange(response, 28, 48), info_hash) {
                Ok(id)
            } else {
                Err(HandshakeError::HandshakeMismatch)
            }
        },
        Err(e) => Err(e),
    }
}

} // verus!
