//! The messages of the peer wire protocol: their framing, how they are built,
//! how a received message changes a download, and how a message is reassembled
//! from what arrives on a connection.

use vstd::prelude::*;
use crate::io_primitives::{be_u32_bytes, be_u32_value, bytes_to_u32, u32_at, u32_at_spec, u32_to_bytes};
use crate::decider::BlockRequest;
use crate::config::MAX_INCOMING_MESSAGES_PER_TICK_PER_DOWNLOAD;
use crate::download::{all_pieces_complete, block_marked_in, BlockDoneEffects, Download, IncomingBlockRequest, Peer};

verus! {

pub const TYPE_CHOKED: u8 = 0;
pub const TYPE_UNCHOKED: u8 = 1;
pub const TYPE_INTERESTED: u8 = 2;
pub const TYPE_NOT_INTERESTED: u8 = 3;
pub const TYPE_HAVE: u8 = 4;
pub const TYPE_BITFIELD: u8 = 5;
pub const TYPE_REQUEST: u8 = 6;
pub const TYPE_PIECE: u8 = 7;

/// A message as it goes on the wire: its length (type byte included) as four
/// big-endian bytes, the type byte, and the payload.
pub open spec fn framed(msgtype: u8, payload: Seq<u8>) -> Seq<u8> {
    be_u32_bytes((payload.len() + 1) as u32) + seq![msgtype] + payload
}

/// Frames a message of type `msgtype` with `payload` for sending.
pub fn frame_message(msgtype: u8, payload: &Vec<u8>) -> (r: Vec<u8>)
    requires
        payload@.len() + 1 <= u32::MAX,
    ensures
        r@ == framed(msgtype, payload@),
{
    let mut to_write = u32_to_bytes((payload.len() + 1) as u32);
    to_write.push(msgtype);
    let mut i: usize = 0;
    while i < payload.len()
        invariant
            i <= payload@.len(),
            payload@.len() + 1 <= u32::MAX,
            to_write@ == be_u32_bytes((payload@.len() + 1) as u32) + seq![msgtype] + payload@.take(i as int),
        decreases payload.len() - i,
    {
        to_write.push(payload[i]);
        assert(payload@.take(i + 1) =~= payload@.take(i as int).push(payload@[i as int]));
        assert(to_write@ =~= be_u32_bytes((payload@.len() + 1) as u32) + seq![msgtype] + payload@.take(i + 1));
        i = i + 1;
    }
    assert(payload@.take(payload@.len() as int) =~= payload@);
    to_write
}

/// The message that tells a peer we are interested in its pieces.
pub fn interested_message() -> (r: Vec<u8>)
    ensures
        r@ == framed(TYPE_INTERESTED, Seq::empty()),
{
    let payload: Vec<u8> = Vec::new();
    frame_message(TYPE_INTERESTED, &payload)
}

/// The message that tells a peer it may request blocks from us.
pub fn unchoke_message() -> (r: Vec<u8>)
    ensures
        r@ == framed(TYPE_UNCHOKED, Seq::empty()),
{
    let payload: Vec<u8> = Vec::new();
    frame_message(TYPE_UNCHOKED, &payload)
}

/// The message that tells a peer we have piece `piece_id` (its low 32 bits).
pub fn have_message(piece_id: usize) -> (r: Vec<u8>)
    ensures
        r@ == framed(TYPE_HAVE, be_u32_bytes(piece_id as u32)),
{
    let payload = u32_to_bytes(piece_id as u32);
    frame_message(TYPE_HAVE, &payload)
}

/// Whether bit `i` of a bitfield is set: the bits are taken from the most
/// significant bit of the first byte on.
pub open spec fn bitfield_bit(bytes: Seq<u8>, i: int) -> bool {
    ((bytes[i / 8] >> ((7 - i % 8) as u8)) & 1u8) == 1u8
}

/// The number of bytes of a bitfield of `n` bits.
pub open spec fn bitfield_len(n: nat) -> nat {
    (n + 7) / 8
}

proof fn lemma_mask_bit(b: u8, s: u8)
    requires
        s < 8,
    ensures
        ((b & (1u8 << s)) != 0) == (((b >> s) & 1u8) == 1u8),
{
    assert(((b & (1u8 << s)) != 0) == (((b >> s) & 1u8) == 1u8)) by (bit_vector)
        requires s < 8;
}

proof fn lemma_or_bit(b: u8, s: u8, t: u8)
    requires
        s < 8,
        t < 8,
    ensures
        (((b | (1u8 << s)) >> t) & 1u8) == (if s == t { 1u8 } else { (b >> t) & 1u8 }),
{
    assert((((b | (1u8 << s)) >> t) & 1u8) == (if s == t { 1u8 } else { (b >> t) & 1u8 })) by (bit_vector)
        requires s < 8, t < 8;
}

proof fn lemma_zero_bit(t: u8)
    requires
        t < 8,
    ensures
        ((0u8 >> t) & 1u8) == 0u8,
{
    assert(((0u8 >> t) & 1u8) == 0u8) by (bit_vector);
}

/// The bitfield of `flags`: bit `i` set exactly when `flags[i]`, the bits after the
/// last flag clear.
pub fn encode_bitfield(flags: &Vec<bool>) -> (r: Vec<u8>)
    ensures
        r@.len() == bitfield_len(flags@.len()),
        forall|i: int| 0 <= i < flags@.len() ==> bitfield_bit(r@, i) == flags@[i],
        forall|i: int| flags@.len() <= i < 8 * r@.len() ==> !bitfield_bit(r@, i),
{
    let n = flags.len();
    let nbytes = n / 8 + if n % 8 == 0 { 0 } else { 1 };
    assert(nbytes == bitfield_len(n as nat));
    let mut payload: Vec<u8> = vec![0u8; nbytes];
    assert forall|k: int| 0 <= k < 8 * nbytes implies !bitfield_bit(payload@, k) by {
        assert(payload@[k / 8] == 0u8);
        lemma_zero_bit((7 - k % 8) as u8);
    }
    let mut i: usize = 0;
    while i < n
        invariant
            n == flags@.len(),
            i <= n,
            nbytes == bitfield_len(n as nat),
            payload@.len() == nbytes,
            forall|k: int| 0 <= k < i ==> bitfield_bit(payload@, k) == flags@[k],
            forall|k: int| i <= k < 8 * nbytes ==> !bitfield_bit(payload@, k),
        decreases n - i,
    {
        let bytes_index = i / 8;
        let index_into_byte = i % 8;
        assert(bytes_index < nbytes);
        if flags[i] {
            let shift: u8 = (7 - index_into_byte) as u8;
            let mask: u8 = 1u8 << shift;
            let old_byte = payload[bytes_index];
            let ghost before = payload@;
            payload.set(bytes_index, old_byte | mask);
            assert forall|k: int| 0 <= k < 8 * nbytes && k != i implies bitfield_bit(payload@, k) == bitfield_bit(before, k) by {
                if k / 8 == bytes_index {
                    lemma_or_bit(old_byte, shift, (7 - k % 8) as u8);
                }
            }
            proof { lemma_or_bit(old_byte, shift, shift); }
            assert forall|k: int| i + 1 <= k < 8 * nbytes implies !bitfield_bit(payload@, k) by {
                assert(bitfield_bit(payload@, k) == bitfield_bit(before, k));
            }
            assert forall|k: int| 0 <= k < i + 1 implies bitfield_bit(payload@, k) == flags@[k] by {
                if k < i {
                    assert(bitfield_bit(payload@, k) == bitfield_bit(before, k));
                }
            }
        }
        i = i + 1;
    }
    payload
}

/// What a received bitfield says of `num_pieces` pieces: the bits after the type byte.
pub fn decode_bitfield(message: &Vec<u8>, num_pieces: usize) -> (r: Vec<bool>)
    requires
        message@.len() >= 1 + bitfield_len(num_pieces as nat),
    ensures
        r@.len() == num_pieces,
        forall|i: int| 0 <= i < num_pieces ==> r@[i] == bitfield_bit(message@.skip(1), i),
{
    let mut has_piece: Vec<bool> = Vec::new();
    let mut i: usize = 0;
    while i < num_pieces
        invariant
            i <= num_pieces,
            message@.len() >= 1 + bitfield_len(num_pieces as nat),
            has_piece@.len() == i,
            forall|k: int| 0 <= k < i ==> has_piece@[k] == bitfield_bit(message@.skip(1), k),
        decreases num_pieces - i,
    {
        let bytes_index = i / 8;
        let index_into_byte = i % 8;
        let byte = message[1 + bytes_index];
        let shift: u8 = (7 - index_into_byte) as u8;
        let mask: u8 = 1u8 << shift;
        let value = (byte & mask) != 0;
        proof {
            lemma_mask_bit(byte, shift);
            assert(message@.skip(1)[(i / 8) as int] == byte);
        }
        has_piece.push(value);
        i = i + 1;
    }
    has_piece
}

fn append_bytes(dst: &mut Vec<u8>, src: &Vec<u8>)
    ensures
        final(dst)@ == old(dst)@ + src@,
{
    let mut i: usize = 0;
    while i < src.len()
        invariant
            i <= src@.len(),
            dst@ == old(dst)@ + src@.take(i as int),
        decreases src.len() - i,
    {
        dst.push(src[i]);
        assert(src@.take(i + 1) =~= src@.take(i as int).push(src@[i as int]));
        assert(dst@ =~= old(dst)@ + src@.take(i + 1));
        i = i + 1;
    }
    assert(src@.take(src@.len() as int) =~= src@);
}

/// The flags "piece complete" of the pieces of a download.
pub open spec fn piece_flags(d: Download) -> Seq<bool> {
    d.pieces@.map_values(|p: crate::download::Piece| p.downloaded)
}

/// Whether `m` is a framed bitfield message for `flags`.
pub open spec fn is_bitfield_message(m: Seq<u8>, flags: Seq<bool>) -> bool {
    exists|payload: Seq<u8>| {
        &&& m == framed(TYPE_BITFIELD, payload)
        &&& payload.len() == bitfield_len(flags.len())
        &&& forall|i: int| 0 <= i < flags.len() ==> bitfield_bit(payload, i) == flags[i]
        &&& forall|i: int| flags.len() <= i < 8 * payload.len() ==> !bitfield_bit(payload, i)
    }
}

/// The message that tells a peer which pieces we have.
pub fn bitfield_message(download: &Download) -> (r: Vec<u8>)
    requires
        bitfield_len(download.pieces@.len()) + 1 <= u32::MAX,
    ensures
        is_bitfield_message(r@, piece_flags(*download)),
{
    let mut flags: Vec<bool> = Vec::new();
    let mut i: usize = 0;
    while i < download.pieces.len()
        invariant
            i <= download.pieces@.len(),
            flags@.len() == i,
            forall|k: int| 0 <= k < i ==> flags@[k] == download.pieces@[k].downloaded,
        decreases download.pieces.len() - i,
    {
        flags.push(download.pieces[i].downloaded);
        i = i + 1;
    }
    assert(flags@ =~= piece_flags(*download));
    let payload = encode_bitfield(&flags);
    let r = frame_message(TYPE_BITFIELD, &payload);
    assert(r@ == framed(TYPE_BITFIELD, payload@));
    r
}

/// The message that asks a peer for block `block_id` of piece `piece_id`: the
/// piece index, the block's offset in the piece and its length.
pub fn request_message(download: &Download, piece_id: usize, block_id: usize) -> (r: Vec<u8>)
    requires
        piece_id < download.pieces@.len(),
        block_id < download.pieces@[piece_id as int].blocks@.len(),
    ensures
        r@ == framed(TYPE_REQUEST, be_u32_bytes(piece_id as u32)
            + be_u32_bytes(download.pieces@[piece_id as int].blocks@[block_id as int].offset as u32)
            + be_u32_bytes(download.pieces@[piece_id as int].blocks@[block_id as int].len)),
{
    let block = &download.pieces[piece_id].blocks[block_id];
    let mut payload = u32_to_bytes(piece_id as u32);
    append_bytes(&mut payload, &u32_to_bytes(block.offset as u32));
    append_bytes(&mut payload, &u32_to_bytes(block.len));
    frame_message(TYPE_REQUEST, &payload)
}

/// The messages to send, in order, for a planned block request: the request for
/// the block, preceded by a message telling the peer we are interested in it where
/// we have not told it so yet.
pub fn outgoing_request_frames(download: &Download, request: &BlockRequest) -> (r: Vec<Vec<u8>>)
    requires
        request.peer_id < download.peers@.len(),
        request.piece_id < download.pieces@.len(),
        request.block_id < download.pieces@[request.piece_id as int].blocks@.len(),
    ensures
        r@.len() == if download.peers@[request.peer_id as int].we_interested { 1int } else { 2int },
        !download.peers@[request.peer_id as int].we_interested ==> r@[0]@ == framed(TYPE_INTERESTED, Seq::empty()),
        r@[r@.len() - 1]@ == framed(TYPE_REQUEST, be_u32_bytes(request.piece_id as u32)
            + be_u32_bytes(download.pieces@[request.piece_id as int].blocks@[request.block_id as int].offset as u32)
            + be_u32_bytes(download.pieces@[request.piece_id as int].blocks@[request.block_id as int].len)),
{
    let mut frames: Vec<Vec<u8>> = Vec::new();
    if !download.peers[request.peer_id].we_interested {
        frames.push(interested_message());
    }
    frames.push(request_message(download, request.piece_id, request.block_id));
    frames
}

/// The message that sends a peer a block: the piece index, the block's offset in
/// the piece, and the data.
pub fn piece_message(piece_id: usize, begin: usize, data: &Vec<u8>) -> (r: Vec<u8>)
    requires
        data@.len() + 9 <= u32::MAX,
    ensures
        r@ == framed(TYPE_PIECE, be_u32_bytes(piece_id as u32) + be_u32_bytes(begin as u32) + data@),
{
    let mut payload = u32_to_bytes(piece_id as u32);
    append_bytes(&mut payload, &u32_to_bytes(begin as u32));
    append_bytes(&mut payload, data);
    frame_message(TYPE_PIECE, &payload)
}

/// Where in the torrent's data the block that `request` asks for starts.
pub fn block_read_offset(download: &Download, request: &IncomingBlockRequest) -> (r: u64)
    requires
        request.piece_id * (download.piece_length as u64) + request.begin <= u64::MAX,
    ensures
        r == request.piece_id * (download.piece_length as u64) + request.begin,
{
    (request.piece_id as u64) * (download.piece_length as u64) + (request.begin as u64)
}

/// The block request that a request message of peer `peer_id` carries: piece index,
/// offset in the piece and length, each four bytes after the type byte.
pub fn to_incoming_block_request(peer_id: usize, message: &Vec<u8>) -> (r: IncomingBlockRequest)
    requires
        message@.len() >= 13,
    ensures
        r.peer_id == peer_id,
        r.piece_id == u32_at_spec(message@, 1),
        r.begin == u32_at_spec(message@, 5),
        r.length == u32_at_spec(message@, 9),
{
    let pieceindex = u32_at(message.as_slice(), 1);
    let begin = u32_at(message.as_slice(), 5);
    let length = u32_at(message.as_slice(), 9);
    IncomingBlockRequest { begin: begin as usize, length: length as usize, piece_id: pieceindex as usize, peer_id: peer_id }
}

/// What the caller is to do after a message was processed: nothing more, or write
/// a received block at `offset` of the torrent's data, then check the piece where
/// `effects.piece_done` (see `Download::on_piece_done`) and move the download to
/// its place where `effects.download_done`.
#[derive(Debug)]
pub enum MessageOutcome {
    Nothing,
    StoreBlock { offset: u64, data: Vec<u8>, piece_id: usize, block_id: usize, effects: BlockDoneEffects },
}

/// The piece index of a piece message.
pub open spec fn piece_index_of(m: Seq<u8>) -> int {
    u32_at_spec(m, 1)
}

/// The offset in its piece of the block of a piece message.
pub open spec fn block_begin_of(m: Seq<u8>) -> int {
    u32_at_spec(m, 5)
}

/// Where the block of a piece message lies in the torrent's data.
pub open spec fn block_position_of(m: Seq<u8>, piece_length: i64) -> int {
    piece_index_of(m) * piece_length + block_begin_of(m)
}

/// Whether a message from peer `peer_id` can be processed: it has a type byte and
/// all the fields that its type carries, and what they name exists. Where this does
/// not hold the message would make the client panic.
pub open spec fn message_acceptable(m: Seq<u8>, d: Download, peer_id: int) -> bool {
    &&& 0 <= peer_id < d.peers@.len()
    &&& m.len() >= 1
    &&& m[0] == TYPE_HAVE ==> m.len() >= 5 && u32_at_spec(m, 1) < d.peers@[peer_id].has_piece@.len()
    &&& m[0] == TYPE_BITFIELD ==> m.len() >= 1 + bitfield_len(d.pieces@.len())
    &&& m[0] == TYPE_REQUEST ==> m.len() >= 13
    &&& m[0] == TYPE_PIECE ==> {
        &&& m.len() >= 9
        &&& piece_index_of(m) < d.pieces@.len()
        &&& block_begin_of(m) / 16384 < d.pieces@[piece_index_of(m)].blocks@.len()
        &&& i64::MIN <= piece_index_of(m) * d.piece_length <= i64::MAX
        &&& i64::MIN <= block_position_of(m, d.piece_length) <= i64::MAX
        &&& d.peers@[peer_id].outstanding_block_requests > i32::MIN
        &&& d.stats.downloaded + (m.len() - 9) <= u64::MAX
    }
}

/// Checks `message_acceptable`.
pub fn message_acceptable_check(message: &Vec<u8>, download: &Download, peer_id: usize) -> (r: bool)
    ensures
        r == message_acceptable(message@, *download, peer_id as int),
{
    if peer_id >= download.peers.len() || message.len() < 1 {
        return false;
    }
    let t = message[0];
    if t == TYPE_HAVE {
        if message.len() < 5 {
            return false;
        }
        let piece = u32_at(message.as_slice(), 1);
        return (piece as usize) < download.peers[peer_id].has_piece.len();
    }
    if t == TYPE_BITFIELD {
        let n = download.pieces.len();
        let nbytes = n / 8 + if n % 8 == 0 { 0 } else { 1 };
        return message.len() - 1 >= nbytes;
    }
    if t == TYPE_REQUEST {
        return message.len() >= 13;
    }
    if t == TYPE_PIECE {
        if message.len() < 9 {
            return false;
        }
        let pieceindex = u32_at(message.as_slice(), 1);
        let begin = u32_at(message.as_slice(), 5);
        if (pieceindex as usize) >= download.pieces.len() {
            return false;
        }
        if ((begin / 16384) as usize) >= download.pieces[pieceindex as usize].blocks.len() {
            return false;
        }
        let pi: i128 = pieceindex as i128;
        let pl: i128 = download.piece_length as i128;
        assert(-0x1_0000_0000_0000_0000_0000_0000 <= pi * pl <= 0x1_0000_0000_0000_0000_0000_0000) by (nonlinear_arith)
            requires 0 <= pi <= 0xffff_ffff, -0x8000_0000_0000_0000 <= pl <= 0x7fff_ffff_ffff_ffff;
        let product: i128 = pi * pl;
        if product < (i64::MIN as i128) || product > (i64::MAX as i128) {
            return false;
        }
        let position: i128 = product + (begin as i128);
        if position < (i64::MIN as i128) || position > (i64::MAX as i128) {
            return false;
        }
        if download.peers[peer_id].outstanding_block_requests == i32::MIN {
            return false;
        }
        let blocklen = (message.len() - 9) as u64;
        return blocklen <= u64::MAX - download.stats.downloaded;
    }
    true
}

/// The peers after peer `peer_id` was changed into `peer`.
pub open spec fn peer_changed(before: Seq<Peer>, after: Seq<Peer>, peer_id: int, peer: Peer) -> bool {
    after == before.update(peer_id, peer)
}

/// What processing message `m` from peer `peer_id` does to download `d`, giving
/// `after` and the outcome `r`:
/// choke and unchoke set whether the peer chokes us; interested, not interested and
/// unknown types change nothing; have marks the piece as the peer's; a bitfield
/// replaces what the peer has; a request is queued; a piece counts as one less
/// outstanding request, marks its block as arrived, adds its length to the bytes
/// downloaded, and asks the caller to store it.
pub open spec fn processed(m: Seq<u8>, d: Download, peer_id: int, after: Download, r: MessageOutcome) -> bool {
    let peer = d.peers@[peer_id];
    let t = m[0];
    if t == TYPE_CHOKED || t == TYPE_UNCHOKED {
        &&& peer_changed(d.peers@, after.peers@, peer_id, Peer { we_choked: t == TYPE_CHOKED, ..peer })
        &&& after == (Download { peers: after.peers, ..d })
        &&& r is Nothing
    } else if t == TYPE_HAVE {
        &&& after.peers@[peer_id].has_piece@ == peer.has_piece@.update(u32_at_spec(m, 1), true)
        &&& peer_changed(d.peers@, after.peers@, peer_id, Peer { has_piece: after.peers@[peer_id].has_piece, ..peer })
        &&& after == (Download { peers: after.peers, ..d })
        &&& r is Nothing
    } else if t == TYPE_BITFIELD {
        &&& after.peers@[peer_id].has_piece@ == Seq::new(d.pieces@.len(), |i: int| bitfield_bit(m.skip(1), i))
        &&& peer_changed(d.peers@, after.peers@, peer_id, Peer { has_piece: after.peers@[peer_id].has_piece, ..peer })
        &&& after == (Download { peers: after.peers, ..d })
        &&& r is Nothing
    } else if t == TYPE_REQUEST {
        &&& after.pending_block_requests@ == d.pending_block_requests@.push(IncomingBlockRequest {
            peer_id: peer_id as usize,
            begin: u32_at_spec(m, 5) as usize,
            length: u32_at_spec(m, 9) as usize,
            piece_id: u32_at_spec(m, 1) as usize,
        })
        &&& after == (Download { pending_block_requests: after.pending_block_requests, ..d })
        &&& r is Nothing
    } else if t == TYPE_PIECE {
        let piece_id = piece_index_of(m);
        let block_id = block_begin_of(m) / 16384;
        &&& peer_changed(d.peers@, after.peers@, peer_id,
            Peer { outstanding_block_requests: (peer.outstanding_block_requests - 1) as i32, ..peer })
        &&& block_marked_in(d.pieces@, after.pieces@, piece_id, block_id)
        &&& after.stats.downloaded == d.stats.downloaded + (m.len() - 9)
        &&& after.stats.uploaded == d.stats.uploaded
        &&& after.downloaded == (d.downloaded || all_pieces_complete(after.pieces@))
        &&& after == (Download { peers: after.peers, pieces: after.pieces, stats: after.stats, downloaded: after.downloaded, ..d })
        &&& r matches MessageOutcome::StoreBlock { offset, data, piece_id: rp, block_id: rb, effects } && {
            &&& offset == block_position_of(m, d.piece_length) as u64
            &&& data@ == m.skip(9)
            &&& rp == piece_id
            &&& rb == block_id
            &&& effects.piece_done == after.pieces@[piece_id].downloaded
            &&& effects.download_done == all_pieces_complete(after.pieces@)
        }
    } else {
        &&& after == d
        &&& r is Nothing
    }
}

fn set_peer(download: &mut Download, peer_id: usize, peer: Peer)
    requires
        peer_id < old(download).peers@.len(),
    ensures
        final(download).peers@ == old(download).peers@.update(peer_id as int, peer),
        *final(download) == (Download { peers: final(download).peers, ..*old(download) }),
{
    let _ = download.peers.remove(peer_id);
    download.peers.insert(peer_id, peer);
    assert(download.peers@ =~= old(download).peers@.update(peer_id as int, peer));
}

fn take_peer(download: &mut Download, peer_id: usize) -> (r: Peer)
    requires
        peer_id < old(download).peers@.len(),
    ensures
        r == old(download).peers@[peer_id as int],
        final(download).peers@ == old(download).peers@.remove(peer_id as int),
        *final(download) == (Download { peers: final(download).peers, ..*old(download) }),
{
    download.peers.remove(peer_id)
}

fn restore_peer(download: &mut Download, peer_id: usize, peer: Peer)
    requires
        peer_id <= old(download).peers@.len(),
    ensures
        final(download).peers@ == old(download).peers@.insert(peer_id as int, peer),
        *final(download) == (Download { peers: final(download).peers, ..*old(download) }),
{
    download.peers.insert(peer_id, peer);
}

fn process_choke(message: &Vec<u8>, download: &mut Download, peer_id: usize) -> (r: MessageOutcome)
    requires
        message_acceptable(message@, *old(download), peer_id as int),
        message@[0] == TYPE_CHOKED || message@[0] == TYPE_UNCHOKED,
    ensures
        processed(message@, *old(download), peer_id as int, *final(download), r),
{
    let choked = message[0] == TYPE_CHOKED;
    let mut peer = take_peer(download, peer_id);
    peer.we_choked = choked;
    restore_peer(download, peer_id, peer);
    assert(download.peers@ =~= old(download).peers@.update(peer_id as int, Peer { we_choked: choked, ..old(download).peers@[peer_id as int] }));
    MessageOutcome::Nothing
}

fn on_have(message: &Vec<u8>, download: &mut Download, peer_id: usize) -> (r: MessageOutcome)
    requires
        message_acceptable(message@, *old(download), peer_id as int),
        message@[0] == TYPE_HAVE,
    ensures
        processed(message@, *old(download), peer_id as int, *final(download), r),
{
    let piece_id = u32_at(message.as_slice(), 1) as usize;
    let mut peer = take_peer(download, peer_id);
    peer.has_piece.set(piece_id, true);
    restore_peer(download, peer_id, peer);
    assert(download.peers@ =~= old(download).peers@.update(peer_id as int, Peer { has_piece: download.peers@[peer_id as int].has_piece, ..old(download).peers@[peer_id as int] }));
    MessageOutcome::Nothing
}

fn on_bitfield(message: &Vec<u8>, download: &mut Download, peer_id: usize) -> (r: MessageOutcome)
    requires
        message_acceptable(message@, *old(download), peer_id as int),
        message@[0] == TYPE_BITFIELD,
    ensures
        processed(message@, *old(download), peer_id as int, *final(download), r),
{
    let num_pieces = download.pieces.len();
    let has_piece = decode_bitfield(message, num_pieces);
    assert(has_piece@ =~= Seq::new(num_pieces as nat, |i: int| bitfield_bit(message@.skip(1), i)));
    let mut peer = take_peer(download, peer_id);
    peer.has_piece = has_piece;
    restore_peer(download, peer_id, peer);
    assert(download.peers@ =~= old(download).peers@.update(peer_id as int, Peer { has_piece: download.peers@[peer_id as int].has_piece, ..old(download).peers@[peer_id as int] }));
    MessageOutcome::Nothing
}

fn on_request(message: &Vec<u8>, download: &mut Download, peer_id: usize) -> (r: MessageOutcome)
    requires
        message_acceptable(message@, *old(download), peer_id as int),
        message@[0] == TYPE_REQUEST,
    ensures
        processed(message@, *old(download), peer_id as int, *final(download), r),
{
    download.add_incoming_block_request(to_incoming_block_request(peer_id, message));
    MessageOutcome::Nothing
}

fn on_piece(message: &Vec<u8>, download: &mut Download, peer_id: usize) -> (r: MessageOutcome)
    requires
        message_acceptable(message@, *old(download), peer_id as int),
        message@[0] == TYPE_PIECE,
    ensures
        processed(message@, *old(download), peer_id as int, *final(download), r),
{
    let pieceindex = u32_at(message.as_slice(), 1);
    let begin = u32_at(message.as_slice(), 5);
    let blocklen = (message.len() - 9) as u64;
    let block_id = (begin / 16384) as usize;
    let seek_pos: u64 = ((pieceindex as i64) * download.piece_length + (begin as i64)) as u64;
    let mut data: Vec<u8> = Vec::new();
    let mut i: usize = 9;
    while i < message.len()
        invariant
            9 <= i <= message@.len(),
            data@ == message@.subrange(9, i as int),
        decreases message.len() - i,
    {
        data.push(message[i]);
        assert(data@ =~= message@.subrange(9, i + 1));
        i = i + 1;
    }
    assert(data@ =~= message@.skip(9));
    let mut peer = take_peer(download, peer_id);
    peer.outstanding_block_requests = peer.outstanding_block_requests - 1;
    restore_peer(download, peer_id, peer);
    assert(download.peers@ =~= old(download).peers@.update(peer_id as int, Peer {
        outstanding_block_requests: (old(download).peers@[peer_id as int].outstanding_block_requests - 1) as i32,
        ..old(download).peers@[peer_id as int] }));
    let effects = download.set_block_downloaded(pieceindex as usize, block_id);
    download.stats.add_downloaded(blocklen);
    MessageOutcome::StoreBlock { offset: seek_pos, data: data, piece_id: pieceindex as usize, block_id: block_id, effects: effects }
}

/// Processes a message received from peer `peer_id` (see `processed`).
pub fn process_message(message: Vec<u8>, download: &mut Download, peer_id: usize) -> (r: MessageOutcome)
    requires
        message_acceptable(message@, *old(download), peer_id as int),
    ensures
        processed(message@, *old(download), peer_id as int, *final(download), r),
{
    let resptype = message[0];
    if resptype == TYPE_CHOKED || resptype == TYPE_UNCHOKED {
        process_choke(&message, download, peer_id)
    } else if resptype == TYPE_HAVE {
        on_have(&message, download, peer_id)
    } else if resptype == TYPE_BITFIELD {
        on_bitfield(&message, download, peer_id)
    } else if resptype == TYPE_REQUEST {
        on_request(&message, download, peer_id)
    } else if resptype == TYPE_PIECE {
        on_piece(&message, download, peer_id)
    } else {
        MessageOutcome::Nothing
    }
}

/// What a receiver holds after a chunk of a message's body arrives: with `buf`
/// received before and `next` the message's announced length, the bytes received so
/// far, and the message once it is complete (the held bytes are then cleared).
pub open spec fn receive_step(buf: Seq<u8>, next: nat, chunk: Seq<u8>) -> (Seq<u8>, Option<Seq<u8>>) {
    let b = buf + chunk;
    if b.len() == next { (Seq::empty(), Some(b)) } else { (b, None) }
}

/// The chunks `chunks` one after the other.
pub open spec fn concat_chunks(chunks: Seq<Seq<u8>>) -> Seq<u8>
    decreases chunks.len(),
{
    if chunks.len() == 0 { Seq::empty() } else { concat_chunks(chunks.drop_last()) + chunks.last() }
}

/// What a receiver holds after the chunks `chunks` of a body of announced length
/// `next` arrive one after the other, starting with nothing held.
pub open spec fn receive_chunks(next: nat, chunks: Seq<Seq<u8>>) -> (Seq<u8>, Option<Seq<u8>>)
    decreases chunks.len(),
{
    if chunks.len() == 0 {
        (Seq::empty(), None)
    } else {
        receive_step(receive_chunks(next, chunks.drop_last()).0, next, chunks.last())
    }
}

/// Whether `after` and `r` are what taking the length bytes `sizebytes` gives for
/// `before` (see `on_message_length`).
pub open spec fn length_taken(before: Peer, sizebytes: Seq<u8>, after: Peer, r: bool) -> bool {
    &&& after.next_message_length == be_u32_value(sizebytes[0], sizebytes[1], sizebytes[2], sizebytes[3])
    &&& r == (after.next_message_length != 0)
    &&& after == (Peer { next_message_length: after.next_message_length, ..before })
}

/// Whether `after` and `r` are what taking the message bytes `bytes` gives for
/// `before` (see `on_message_bytes`): `r` is the message, once complete.
pub open spec fn bytes_taken(before: Peer, bytes: Seq<u8>, after: Peer, r: Option<Seq<u8>>) -> bool {
    let step = receive_step(before.buf@, before.next_message_length as nat, bytes);
    &&& after.buf@ == step.0
    &&& r == step.1
    &&& after.next_message_length == if r is Some { 0 } else { before.next_message_length }
    &&& after == (Peer { buf: after.buf, next_message_length: after.next_message_length, ..before })
}

/// Whether `peer` is receiving the message body `body`: it waits for `body`'s
/// length and holds a proper prefix of it.
pub open spec fn receiving(peer: Peer, body: Seq<u8>) -> bool {
    &&& peer.next_message_length == body.len()
    &&& peer.buf@.len() < body.len()
    &&& peer.buf@ == body.take(peer.buf@.len() as int)
}

/// What one attempt to receive a message from a peer gave: a whole message,
/// nothing (no bytes yet, a message not yet complete, or a keep-alive), or an
/// error on the connection.
pub enum ReceiveResult {
    Message,
    Nothing,
    Failed,
}

/// What to do with a peer after an attempt to receive from it: try again, stop
/// for this tick, or drop the connection.
pub enum ReceiveStep {
    ReadAgain,
    Stop,
    Reset,
}

/// The next step of receiving from one peer in a tick, after `attempts` attempts
/// (this one included) whose last gave `result`: another attempt only after a
/// whole message and while fewer than the allowed number of attempts were made;
/// the connection is dropped after an error.
pub fn next_receive_step(attempts: u32, result: ReceiveResult) -> (r: ReceiveStep)
    ensures
        result is Failed ==> r is Reset,
        result is Nothing ==> r is Stop,
        result is Message ==> (if attempts < MAX_INCOMING_MESSAGES_PER_TICK_PER_DOWNLOAD { r is ReadAgain } else { r is Stop }),
{
    match result {
        ReceiveResult::Failed => ReceiveStep::Reset,
        ReceiveResult::Nothing => ReceiveStep::Stop,
        ReceiveResult::Message => {
            if attempts < MAX_INCOMING_MESSAGES_PER_TICK_PER_DOWNLOAD {
                ReceiveStep::ReadAgain
            } else {
                ReceiveStep::Stop
            }
        },
    }
}

/// Whether `peer` is waiting for the four length bytes of its next message.
pub fn expects_length(peer: &Peer) -> (r: bool)
    ensures
        r == (peer.next_message_length == 0),
{
    peer.next_message_length == 0
}

/// Takes the four length bytes of a peer's next message. A length of zero is a
/// keep-alive: `false`, and the peer keeps waiting for a length.
pub fn on_message_length(peer: &mut Peer, sizebytes: &[u8]) -> (r: bool)
    requires
        sizebytes@.len() >= 4,
        old(peer).next_message_length == 0,
    ensures
        final(peer).next_message_length == be_u32_value(sizebytes@[0], sizebytes@[1], sizebytes@[2], sizebytes@[3]),
        r == (final(peer).next_message_length != 0),
        *final(peer) == (Peer { next_message_length: final(peer).next_message_length, ..*old(peer) }),
        length_taken(*old(peer), sizebytes@, *final(peer), r),
{
    let message_size = bytes_to_u32(sizebytes);
    peer.next_message_length = message_size;
    message_size != 0
}

/// How many bytes of the message being received are still to come.
pub fn remaining_message_bytes(peer: &Peer) -> (r: u32)
    requires
        peer.buf@.len() <= peer.next_message_length,
    ensures
        r == peer.next_message_length - peer.buf@.len(),
{
    peer.next_message_length - peer.buf.len() as u32
}

/// Takes bytes of the message being received; gives the message once all its
/// bytes arrived, and then waits for the next message's length.
pub fn on_message_bytes(peer: &mut Peer, bytes: &[u8]) -> (r: Option<Vec<u8>>)
    requires
        old(peer).buf@.len() + bytes@.len() <= old(peer).next_message_length,
    ensures
        final(peer).buf@ == receive_step(old(peer).buf@, old(peer).next_message_length as nat, bytes@).0,
        r matches Some(m) ==> receive_step(old(peer).buf@, old(peer).next_message_length as nat, bytes@).1 == Some(m@),
        r is None ==> receive_step(old(peer).buf@, old(peer).next_message_length as nat, bytes@).1 is None,
        final(peer).next_message_length == if r is Some { 0 } else { old(peer).next_message_length },
        *final(peer) == (Peer { buf: final(peer).buf, next_message_length: final(peer).next_message_length, ..*old(peer) }),
        bytes_taken(*old(peer), bytes@, *final(peer), match r { Some(m) => Some(m@), None => None }),
{
    let mut i: usize = 0;
    while i < bytes.len()
        invariant
            i <= bytes@.len(),
            peer.buf@ == old(peer).buf@ + bytes@.take(i as int),
            *peer == (Peer { buf: peer.buf, ..*old(peer) }),
        decreases bytes.len() - i,
    {
        peer.buf.push(bytes[i]);
        assert(peer.buf@ =~= old(peer).buf@ + bytes@.take(i + 1));
        i = i + 1;
    }
    assert(bytes@.take(bytes@.len() as int) =~= bytes@);
    if peer.buf.len() == peer.next_message_length as usize {
        let mut result: Vec<u8> = Vec::new();
        std::mem::swap(&mut result, &mut peer.buf);
        peer.next_message_length = 0;
        Some(result)
    } else {
        None
    }
}

proof fn lemma_receive_chunks_prefix(next: nat, chunks: Seq<Seq<u8>>)
    requires
        concat_chunks(chunks).len() < next,
    ensures
        receive_chunks(next, chunks) == (concat_chunks(chunks), Option::<Seq<u8>>::None),
    decreases chunks.len(),
{
    if chunks.len() > 0 {
        lemma_receive_chunks_prefix(next, chunks.drop_last());
    }
}

/// A message framed for sending is received whole: its four length bytes announce
/// a message, and when its body arrives in any chunks, nothing is handed out before
/// the last chunk, and after it the message is its type byte and payload, with
/// nothing left held.
pub proof fn lemma_framed_message_received(t: u8, payload: Seq<u8>, chunks: Seq<Seq<u8>>)
    requires
        payload.len() + 1 <= u32::MAX,
        chunks.len() > 0,
        forall|i: int| 0 <= i < chunks.len() ==> (#[trigger] chunks[i]).len() > 0,
        concat_chunks(chunks) == framed(t, payload).skip(4),
    ensures
        be_u32_value(framed(t, payload)[0], framed(t, payload)[1], framed(t, payload)[2], framed(t, payload)[3]) == payload.len() + 1,
        receive_chunks((payload.len() + 1) as nat, chunks) == (Seq::<u8>::empty(), Some(seq![t] + payload)),
        forall|j: int| 0 <= j < chunks.len() ==> (#[trigger] receive_chunks((payload.len() + 1) as nat, chunks.take(j))).1 is None,
{
    let n = (payload.len() + 1) as u32;
    crate::io_primitives::lemma_u32_roundtrip(n);
    assert(framed(t, payload).skip(4) =~= seq![t] + payload);
    let rest = chunks.drop_last();
    assert(concat_chunks(chunks) == concat_chunks(rest) + chunks.last());
    assert(concat_chunks(rest).len() < n);
    lemma_receive_chunks_prefix(n as nat, rest);
    assert forall|j: int| 0 <= j < chunks.len() implies (#[trigger] receive_chunks((payload.len() + 1) as nat, chunks.take(j))).1 is None by {
        lemma_concat_prefix_shorter(chunks, j);
        lemma_receive_chunks_prefix(n as nat, chunks.take(j));
    }
}

/// The first chunks of a sequence of chunks, one after the other, are a prefix of
/// all of them one after the other.
proof fn lemma_concat_take_prefix(chunks: Seq<Seq<u8>>, k: int)
    requires
        0 <= k <= chunks.len(),
    ensures
        concat_chunks(chunks.take(k)).len() <= concat_chunks(chunks).len(),
        concat_chunks(chunks.take(k)) == concat_chunks(chunks).take(concat_chunks(chunks.take(k)).len() as int),
    decreases chunks.len(),
{
    if k == chunks.len() {
        assert(chunks.take(k) =~= chunks);
        assert(concat_chunks(chunks).take(concat_chunks(chunks).len() as int) =~= concat_chunks(chunks));
    } else {
        let rest = chunks.drop_last();
        lemma_concat_take_prefix(rest, k);
        assert(rest.take(k) =~= chunks.take(k));
        let m = concat_chunks(chunks.take(k)).len() as int;
        assert(concat_chunks(chunks) == concat_chunks(rest) + chunks.last());
        assert((concat_chunks(rest) + chunks.last()).take(m) =~= concat_chunks(rest).take(m));
    }
}

/// Taking the next chunk of a message body that a peer is receiving: before the
/// last chunk, nothing is handed out and the peer holds a longer prefix of the
/// body; with the last chunk, the body is handed out and nothing is held.
pub proof fn lemma_message_bytes_received(body: Seq<u8>, before: Peer, chunk: Seq<u8>, after: Peer, r: Option<Seq<u8>>)
    requires
        receiving(before, body),
        before.buf@.len() + chunk.len() <= body.len(),
        chunk == body.subrange(before.buf@.len() as int, (before.buf@.len() + chunk.len()) as int),
        bytes_taken(before, chunk, after, r),
    ensures
        before.buf@.len() + chunk.len() < body.len() ==> {
            &&& r is None
            &&& receiving(after, body)
            &&& after.buf@ == before.buf@ + chunk
        },
        before.buf@.len() + chunk.len() == body.len() ==> {
            &&& r == Some(body)
            &&& after.buf@.len() == 0
            &&& after.next_message_length == 0
        },
{
    let m = before.buf@.len() as int;
    assert(before.buf@ + chunk =~= body.take(m + chunk.len()));
    if m + chunk.len() == body.len() {
        assert(body.take(m + chunk.len()) =~= body);
    }
}

/// Taking the four length bytes of a message framed for sending, while waiting
/// for a length with nothing held, starts receiving the message's body.
pub proof fn lemma_message_length_received(t: u8, payload: Seq<u8>, before: Peer, after: Peer, r: bool)
    requires
        payload.len() + 1 <= u32::MAX,
        before.next_message_length == 0,
        before.buf@.len() == 0,
        length_taken(before, framed(t, payload).take(4), after, r),
    ensures
        r,
        receiving(after, seq![t] + payload),
        after.buf@.len() == 0,
        after.next_message_length == payload.len() + 1,
{
    crate::io_primitives::lemma_u32_roundtrip((payload.len() + 1) as u32);
    let f = framed(t, payload);
    assert(f.take(4)[0] == f[0] && f.take(4)[1] == f[1] && f.take(4)[2] == f[2] && f.take(4)[3] == f[3]);
    assert(after.buf@ =~= (seq![t] + payload).take(0));
}

/// What the peer holds after the length bytes and the first `k` chunks of a
/// framed message's body were taken, where `k` is before the last chunk.
proof fn lemma_calls_state(
    body: Seq<u8>,
    peers: Seq<Peer>,
    chunks: Seq<Seq<u8>>,
    results: Seq<Option<Seq<u8>>>,
    k: int,
)
    requires
        concat_chunks(chunks) == body,
        forall|i: int| 0 <= i < chunks.len() ==> (#[trigger] chunks[i]).len() > 0,
        peers.len() == chunks.len() + 2,
        results.len() == chunks.len(),
        receiving(peers[1], body),
        peers[1].buf@.len() == 0,
        forall|j: int| 0 <= j < chunks.len() ==> bytes_taken(peers[j + 1], #[trigger] chunks[j], peers[j + 2], results[j]),
        0 <= k < chunks.len(),
    ensures
        receiving(peers[k + 1], body),
        peers[k + 1].buf@ == concat_chunks(chunks.take(k)),
    decreases k,
{
    if k == 0 {
        assert(peers[1].buf@ =~= concat_chunks(chunks.take(0)));
    } else {
        lemma_calls_state(body, peers, chunks, results, k - 1);
        lemma_concat_prefix_shorter(chunks, k);
        lemma_concat_take_prefix(chunks, k);
        let m = concat_chunks(chunks.take(k - 1)).len() as int;
        assert(chunks.take(k).drop_last() =~= chunks.take(k - 1));
        assert(concat_chunks(chunks.take(k)) == concat_chunks(chunks.take(k - 1)) + chunks[k - 1]);
        let c = chunks[k - 1];
        assert(c =~= body.subrange(m, m + c.len())) by {
            assert forall|i: int| 0 <= i < c.len() implies c[i] == body[m + i] by {
                assert(concat_chunks(chunks.take(k))[m + i] == c[i]);
            }
        }
        lemma_message_bytes_received(body, peers[k], c, peers[k + 1], results[k - 1]);
    }
}

/// A message framed for sending, received by a peer that waits for a length with
/// nothing held, through `on_message_length` on its four length bytes and then
/// `on_message_bytes` on its body in any number of non-empty chunks (the states of
/// the peer between the calls are `peers`, what the calls return `results`): the
/// length call announces the body; each call before the last chunk hands out
/// nothing and leaves the peer holding a prefix of the body (the chunks so far)
/// and waiting for the body's length; the call on the last chunk hands out the type
/// byte and the payload, and leaves the peer waiting for a length with nothing held.
pub proof fn lemma_framed_message_calls(
    t: u8,
    payload: Seq<u8>,
    peers: Seq<Peer>,
    length_result: bool,
    chunks: Seq<Seq<u8>>,
    results: Seq<Option<Seq<u8>>>,
)
    requires
        payload.len() + 1 <= u32::MAX,
        chunks.len() > 0,
        forall|i: int| 0 <= i < chunks.len() ==> (#[trigger] chunks[i]).len() > 0,
        concat_chunks(chunks) == framed(t, payload).skip(4),
        peers.len() == chunks.len() + 2,
        results.len() == chunks.len(),
        peers[0].next_message_length == 0,
        peers[0].buf@.len() == 0,
        length_taken(peers[0], framed(t, payload).take(4), peers[1], length_result),
        forall|j: int| 0 <= j < chunks.len() ==> bytes_taken(peers[j + 1], #[trigger] chunks[j], peers[j + 2], results[j]),
    ensures
        length_result,
        peers[1].next_message_length == payload.len() + 1,
        forall|j: int| 0 <= j < chunks.len() - 1 ==> {
            &&& (#[trigger] results[j]) is None
            &&& peers[j + 2].next_message_length == payload.len() + 1
            &&& peers[j + 2].buf@ == concat_chunks(chunks.take(j + 1))
            &&& peers[j + 2].buf@ == (seq![t] + payload).take(peers[j + 2].buf@.len() as int)
        },
        results[chunks.len() - 1] == Some(seq![t] + payload),
        peers[chunks.len() as int + 1].buf@.len() == 0,
        peers[chunks.len() as int + 1].next_message_length == 0,
{
    let body = seq![t] + payload;
    assert(framed(t, payload).skip(4) =~= body);
    lemma_message_length_received(t, payload, peers[0], peers[1], length_result);
    let n = chunks.len() as int;
    assert forall|j: int| 0 <= j < n - 1 implies {
        &&& (#[trigger] results[j]) is None
        &&& peers[j + 2].next_message_length == payload.len() + 1
        &&& peers[j + 2].buf@ == concat_chunks(chunks.take(j + 1))
        &&& peers[j + 2].buf@ == body.take(peers[j + 2].buf@.len() as int)
    } by {
        lemma_calls_state(body, peers, chunks, results, j + 1);
        lemma_calls_state(body, peers, chunks, results, j);
        lemma_concat_prefix_shorter(chunks, j + 1);
    }
    lemma_calls_state(body, peers, chunks, results, n - 1);
    let m = concat_chunks(chunks.take(n - 1)).len() as int;
    assert(chunks.take(n - 1) =~= chunks.drop_last());
    assert(concat_chunks(chunks) == concat_chunks(chunks.drop_last()) + chunks.last());
    let c = chunks[n - 1];
    assert(c =~= body.subrange(m, m + c.len())) by {
        assert forall|i: int| 0 <= i < c.len() implies c[i] == body[m + i] by {
            assert(concat_chunks(chunks)[m + i] == c[i]);
        }
    }
    lemma_message_bytes_received(body, peers[n], c, peers[n + 1], results[n - 1]);
}

proof fn lemma_concat_prefix_shorter(chunks: Seq<Seq<u8>>, j: int)
    requires
        0 <= j < chunks.len(),
        forall|i: int| 0 <= i < chunks.len() ==> (#[trigger] chunks[i]).len() > 0,
    ensures
        concat_chunks(chunks.take(j)).len() < concat_chunks(chunks).len(),
    decreases chunks.len(),
{
    let rest = chunks.drop_last();
    if j == chunks.len() - 1 {
        assert(chunks.take(j) =~= rest);
        assert(chunks.last().len() > 0);
    } else {
        assert forall|i: int| 0 <= i < rest.len() implies (#[trigger] rest[i]).len() > 0 by {
            assert(rest[i] == chunks[i]);
        }
        lemma_concat_prefix_shorter(rest, j);
        assert(rest.take(j) =~= chunks.take(j));
    }
}

/// A bitfield message that we send for some flags is read back, after its four
/// length bytes, by the receiving side as those same flags, for as many pieces as
/// there are flags; and a receiver with that many pieces accepts it.
pub proof fn lemma_bitfield_received(sent: Seq<u8>, flags: Seq<bool>)
    requires
        is_bitfield_message(sent, flags),
    ensures
        sent.skip(4).len() >= 1 + bitfield_len(flags.len()),
        sent.skip(4)[0] == TYPE_BITFIELD,
        Seq::new(flags.len(), |i: int| bitfield_bit(sent.skip(4).skip(1), i)) == flags,
{
    let payload = choose|payload: Seq<u8>| {
        &&& sent == framed(TYPE_BITFIELD, payload)
        &&& payload.len() == bitfield_len(flags.len())
        &&& forall|i: int| 0 <= i < flags.len() ==> bitfield_bit(payload, i) == flags[i]
        &&& forall|i: int| flags.len() <= i < 8 * payload.len() ==> !bitfield_bit(payload, i)
    };
    assert(sent.skip(4) =~= seq![TYPE_BITFIELD] + payload);
    assert(sent.skip(4).skip(1) =~= payload);
    assert(Seq::new(flags.len(), |i: int| bitfield_bit(sent.skip(4).skip(1), i)) =~= flags);
}

/// A request message that we send for a block is read back, after its four length
/// bytes, as a request for that piece, offset and length.
pub proof fn lemma_request_received(piece: u32, offset: u32, length: u32)
    ensures
        ({
            let body = framed(TYPE_REQUEST, be_u32_bytes(piece) + be_u32_bytes(offset) + be_u32_bytes(length)).skip(4);
            &&& body.len() == 13
            &&& body[0] == TYPE_REQUEST
            &&& u32_at_spec(body, 1) == piece
            &&& u32_at_spec(body, 5) == offset
            &&& u32_at_spec(body, 9) == length
        }),
{
    let body = framed(TYPE_REQUEST, be_u32_bytes(piece) + be_u32_bytes(offset) + be_u32_bytes(length)).skip(4);
    assert(body =~= seq![TYPE_REQUEST] + be_u32_bytes(piece) + be_u32_bytes(offset) + be_u32_bytes(length));
    crate::io_primitives::lemma_u32_roundtrip(piece);
    crate::io_primitives::lemma_u32_roundtrip(offset);
    crate::io_primitives::lemma_u32_roundtrip(length);
}

/// A piece message that we send is read back, after its four length bytes, as
/// carrying that piece index, offset and data.
pub proof fn lemma_piece_received(piece: u32, begin: u32, data: Seq<u8>)
    requires
        data.len() + 9 <= u32::MAX,
    ensures
        ({
            let body = framed(TYPE_PIECE, be_u32_bytes(piece) + be_u32_bytes(begin) + data).skip(4);
            &&& body.len() == data.len() + 9
            &&& body[0] == TYPE_PIECE
            &&& piece_index_of(body) == piece
            &&& block_begin_of(body) == begin
            &&& body.skip(9) == data
        }),
{
    let body = framed(TYPE_PIECE, be_u32_bytes(piece) + be_u32_bytes(begin) + data).skip(4);
    assert(body =~= seq![TYPE_PIECE] + be_u32_bytes(piece) + be_u32_bytes(begin) + data);
    assert(body.skip(9) =~= data);
    crate::io_primitives::lemma_u32_roundtrip(piece);
    crate::io_primitives::lemma_u32_roundtrip(begin);
}

/// A have message that we send for a piece is read back, after its four length
/// bytes, as naming that piece.
pub proof fn lemma_have_received(piece: u32)
    ensures
        ({
            let body = framed(TYPE_HAVE, be_u32_bytes(piece)).skip(4);
            &&& body.len() == 5
            &&& body[0] == TYPE_HAVE
            &&& u32_at_spec(body, 1) == piece
        }),
{
    let body = framed(TYPE_HAVE, be_u32_bytes(piece)).skip(4);
    assert(body =~= seq![TYPE_HAVE] + be_u32_bytes(piece));
    crate::io_primitives::lemma_u32_roundtrip(piece);
}

/// Processing a message never takes back that a block or a piece arrived.
pub proof fn lemma_processing_keeps_arrivals(m: Seq<u8>, d: Download, peer_id: int, after: Download, r: MessageOutcome)
    requires
        message_acceptable(m, d, peer_id),
        processed(m, d, peer_id, after, r),
    ensures
        after.pieces@.len() == d.pieces@.len(),
        forall|p: int| 0 <= p < d.pieces@.len() && (#[trigger] d.pieces@[p]).downloaded ==> after.pieces@[p].downloaded,
        forall|p: int, b: int| 0 <= p < d.pieces@.len() && 0 <= b < d.pieces@[p].blocks@.len()
            && (#[trigger] d.pieces@[p].blocks@[b]).downloaded ==> after.pieces@[p].blocks@[b].downloaded,
        d.downloaded ==> after.downloaded,
{
    if m[0] == TYPE_PIECE {
        let pi = piece_index_of(m);
        let bi = block_begin_of(m) / 16384;
        assert forall|p: int, b: int| 0 <= p < d.pieces@.len() && 0 <= b < d.pieces@[p].blocks@.len()
            && (#[trigger] d.pieces@[p].blocks@[b]).downloaded implies after.pieces@[p].blocks@[b].downloaded by {
            if p == pi {
                if b == bi {
                } else {
                    assert(after.pieces@[p].blocks@[b] == d.pieces@[p].blocks@[b]);
                }
            } else {
                assert(after.pieces@[p] == d.pieces@[p]);
            }
        }
        assert forall|p: int| 0 <= p < d.pieces@.len() && (#[trigger] d.pieces@[p]).downloaded implies after.pieces@[p].downloaded by {
            if p != pi {
                assert(after.pieces@[p] == d.pieces@[p]);
            }
        }
    }
}

/// A bitfield message sent for as many flags as the download has pieces is
/// accepted by the receiving side, from any of its peers: its payload of
/// `ceil(pieces / 8)` bytes is long enough.
pub proof fn lemma_sent_bitfield_acceptable(m: Seq<u8>, flags: Seq<bool>, d: Download, peer_id: int)
    requires
        is_bitfield_message(m, flags),
        flags.len() == d.pieces@.len(),
        0 <= peer_id < d.peers@.len(),
    ensures
        message_acceptable(m.skip(4), d, peer_id),
        m.skip(4).len() == 1 + (d.pieces@.len() + 7) / 8,
{
    lemma_bitfield_received(m, flags);
    let payload = choose|payload: Seq<u8>| {
        &&& m == framed(TYPE_BITFIELD, payload)
        &&& payload.len() == bitfield_len(flags.len())
        &&& forall|i: int| 0 <= i < flags.len() ==> bitfield_bit(payload, i) == flags[i]
        &&& forall|i: int| flags.len() <= i < 8 * payload.len() ==> !bitfield_bit(payload, i)
    };
    assert(m.skip(4) =~= seq![TYPE_BITFIELD] + payload);
}

} // verus!
