//! The handshake that opens a connection between two peers.

use vstd::prelude::*;
use crate::io_primitives::bytes_equal;

verus! {

/// The protocol name that a handshake carries: "BitTorrent protocol".
pub open spec fn protocol_name() -> Seq<u8> {
    seq![66u8, 105, 116, 84, 111, 114, 114, 101, 110, 116, 32, 112, 114, 111, 116, 111, 99, 111, 108]
}

/// A handshake: the length of the protocol name, the name, eight reserved zero
/// bytes, the torrent's info hash and our peer id.
pub open spec fn handshake_spec(info_hash: Seq<u8>, my_id: Seq<u8>) -> Seq<u8> {
    seq![19u8] + protocol_name() + Seq::new(8, |i: int| 0u8) + info_hash + my_id
}

fn push_all(dst: &mut Vec<u8>, src: &[u8])
    ensures
        final(dst)@ == old(dst)@ + src@,
{
    let mut i: usize = 0;
    while i < src.len()
        invariant
            i <= src@.len(),
            dst@ == old(dst)@ + src@.take(i as int),
        decreases src.len() - i,
    {
        dst.push(src[i]);
        assert(dst@ =~= old(dst)@ + src@.take(i + 1));
        i = i + 1;
    }
    assert(src@.take(src@.len() as int) =~= src@);
}

/// The handshake that we send for the torrent with `info_hash`, as peer `my_id`.
pub fn handshake_message(info_hash: &Vec<u8>, my_id: &String) -> (r: Vec<u8>)
    ensures
        r@ == handshake_spec(info_hash@, vstd::utf8::encode_utf8(my_id@)),
{
    let mut to_write: Vec<u8> = Vec::new();
    to_write.push(19u8);
    let name: Vec<u8> = vec![66u8, 105, 116, 84, 111, 114, 114, 101, 110, 116, 32, 112, 114, 111, 116, 111, 99, 111, 108];
    push_all(&mut to_write, name.as_slice());
    let zeros: Vec<u8> = vec![0u8; 8];
    push_all(&mut to_write, zeros.as_slice());
    push_all(&mut to_write, info_hash.as_slice());
    push_all(&mut to_write, my_id.as_str().as_bytes());
    assert(zeros@ =~= Seq::new(8, |i: int| 0u8));
    assert(to_write@ =~= handshake_spec(info_hash@, vstd::utf8::encode_utf8(my_id@)));
    to_write
}

/// How many bytes follow the first byte of a peer's handshake, whose first byte
/// says the length of its protocol name: the name, eight reserved bytes, the info
/// hash and the peer id.
pub fn handshake_rest_length(pstrlen: u8) -> (r: usize)
    ensures
        r == pstrlen + 48,
{
    pstrlen as usize + 48
}

/// What a peer's handshake tells: the info hash and the peer id.
#[derive(Debug)]
pub struct HandshakeReply {
    pub info_hash: Vec<u8>,
    pub peer_id: Vec<u8>,
}

/// Reads the info hash and the peer id from the part of a handshake after its first
/// byte `pstrlen`.
pub fn parse_handshake_rest(pstrlen: u8, rest: &Vec<u8>) -> (r: HandshakeReply)
    requires
        rest@.len() == pstrlen + 48,
    ensures
        r.info_hash@ == rest@.subrange(pstrlen + 8, pstrlen + 28),
        r.peer_id@ == rest@.subrange(pstrlen + 28, pstrlen + 48),
{
    let start = pstrlen as usize + 8;
    let mut info_hash: Vec<u8> = Vec::new();
    let mut i: usize = 0;
    while i < 20
        invariant
            i <= 20,
            start == pstrlen + 8,
            rest@.len() == pstrlen + 48,
            info_hash@ == rest@.subrange(start as int, start + i),
        decreases 20 - i,
    {
        info_hash.push(rest[start + i]);
        assert(info_hash@ =~= rest@.subrange(start as int, start + i + 1));
        i = i + 1;
    }
    let mut peer_id: Vec<u8> = Vec::new();
    let mut j: usize = 0;
    while j < 20
        invariant
            j <= 20,
            start == pstrlen + 8,
            rest@.len() == pstrlen + 48,
            peer_id@ == rest@.subrange(start + 20, start + 20 + j),
        decreases 20 - j,
    {
        peer_id.push(rest[start + 20 + j]);
        assert(peer_id@ =~= rest@.subrange(start + 20, start + 20 + j + 1));
        j = j + 1;
    }
    HandshakeReply { info_hash, peer_id }
}

/// Why an outgoing handshake failed on our side.
#[derive(Debug, Clone, Copy, PartialEq, Eq)]
pub enum HandshakeError {
    InvalidInfoHash,
}

/// Checks the info hash of a peer's reply to our handshake against the torrent's.
pub fn check_reply_info_hash(reply_info_hash: &Vec<u8>, info_hash: &Vec<u8>) -> (r: Result<(), HandshakeError>)
    ensures
        r is Ok <==> reply_info_hash@ == info_hash@,
        r is Err ==> r == Err::<(), HandshakeError>(HandshakeError::InvalidInfoHash),
{
    if !bytes_equal(reply_info_hash.as_slice(), info_hash.as_slice()) {
        return Err(HandshakeError::InvalidInfoHash);
    }
    Ok(())
}

/// A handshake that we send is read back by its receiver, after the first byte, as
/// carrying our info hash and peer id, where both are 20 bytes long.
pub proof fn lemma_handshake_received(info_hash: Seq<u8>, my_id: Seq<u8>)
    requires
        info_hash.len() == 20,
        my_id.len() == 20,
    ensures
        ({
            let hs = handshake_spec(info_hash, my_id);
            let pstrlen = hs[0];
            &&& pstrlen == 19
            &&& hs.skip(1).len() == pstrlen + 48
            &&& hs.skip(1).subrange(pstrlen + 8, pstrlen + 28) == info_hash
            &&& hs.skip(1).subrange(pstrlen + 28, pstrlen + 48) == my_id
        }),
{
    let hs = handshake_spec(info_hash, my_id);
    assert(hs.skip(1).subrange(27, 47) =~= info_hash);
    assert(hs.skip(1).subrange(47, 67) =~= my_id);
}

} // verus!
