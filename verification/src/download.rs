//! The state of one download: its pieces and blocks, its peers, its statistics,
//! and the layout that a torrent's metadata gives it.

use vstd::prelude::*;
use crypto::digest::Digest;
use std::collections::VecDeque;
use crate::announcement::PeerInfo;
use crate::torrent_entries::TorrentEntry;
use crate::text::{join_spec, join_strings, string_views};
use crate::io_primitives::bytes_equal;

verus! {

/// A file of a download: its path below the download's location (empty for a
/// single-file torrent) and its length.
#[derive(Debug)]
pub struct DownloadFile {
    pub path: String,
    pub length: i64,
}

/// How to open a file of a download: where it is, and whether it is opened for writing.
#[derive(Debug)]
pub struct FilePlan {
    pub path_from_download_root: String,
    pub actual_path: String,
    pub write: bool,
}

/// A piece: whether it is complete, its expected SHA-1, its blocks, and where it
/// lies in the torrent's data.
#[derive(Debug)]
pub struct Piece {
    pub downloaded: bool,
    pub sha: Vec<u8>,
    pub blocks: Vec<Block>,
    pub offset: u32,
    pub len: u32,
}

/// A block of a piece: whether it arrived, where it lies in its piece, and which
/// peer it was last requested from, and when.
#[derive(Debug)]
pub struct Block {
    pub downloaded: bool,
    pub offset: u64,
    pub len: u32,
    pub request_record: Option<BlockRequestRecord>,
}

/// That a block was requested from a peer, at a time in milliseconds since the epoch.
#[derive(Debug, Clone, Copy)]
pub struct BlockRequestRecord {
    pub peer_id: usize,
    pub time: u64,
}

/// A block that a peer asked us for.
#[derive(Debug, Clone, Copy)]
pub struct IncomingBlockRequest {
    pub peer_id: usize,
    pub begin: usize,
    pub length: usize,
    pub piece_id: usize,
}

/// A piece's expected hash, as listed in the metadata.
#[derive(Debug, Clone)]
pub struct PieceInfo {
    pub downloaded: bool,
    pub sha: Vec<u8>,
}

/// A file of a multi-file torrent, as the metadata lists it.
#[derive(Debug)]
pub struct FileSerializable {
    pub length: i64,
    pub path: Vec<String>,
}

/// The `info` dictionary of a torrent's metadata.
#[derive(Debug)]
pub struct TorrentInfoSerializable {
    pub name: String,
    pub length: i64,
    pub piece_length: i64,
    pub pieces: Vec<u8>,
    pub files: Vec<FileSerializable>,
}

/// A torrent's metadata, with the SHA-1 of its bencoded `info` dictionary.
#[derive(Debug)]
pub struct TorrentSerializable {
    pub announce: String,
    pub info: TorrentInfoSerializable,
    pub info_hash: Vec<u8>,
}

/// A peer of a download. `connected` tells whether a connection to it is open;
/// the connection itself is held by the caller.
#[derive(Debug)]
pub struct Peer {
    pub connected: bool,
    pub buf: Vec<u8>,
    pub next_message_length: u32,
    pub we_interested: bool,
    pub we_choked: bool,
    pub they_interested: bool,
    pub peer_info: Option<PeerInfo>,
    pub outstanding_block_requests: i32,
    pub has_piece: Vec<bool>,
    pub last_reconnect_attempt: u64,
    pub last_incoming_message: u64,
    pub reconnect_attempts: u32,
    pub being_connected: bool,
}

impl Peer {
    /// A peer with nothing received yet: choking us, not interested, having no piece.
    pub fn new(connected: bool, peer_info: Option<PeerInfo>, num_pieces: usize) -> (r: Peer)
        ensures
            r.connected == connected,
            r.peer_info == peer_info,
            r.buf@.len() == 0,
            r.next_message_length == 0,
            !r.we_interested,
            r.we_choked,
            !r.they_interested,
            r.outstanding_block_requests == 0,
            r.has_piece@ == Seq::new(num_pieces as nat, |i: int| false),
            r.last_reconnect_attempt == 0,
            r.last_incoming_message == 0,
            r.reconnect_attempts == 0,
            !r.being_connected,
    {
        let has_piece: Vec<bool> = vec![false; num_pieces];
        assert(has_piece@ =~= Seq::new(num_pieces as nat, |i: int| false));
        Peer {
            connected: connected,
            buf: Vec::new(),
            next_message_length: 0,
            peer_info: peer_info,
            we_interested: false,
            we_choked: true,
            they_interested: false,
            outstanding_block_requests: 0,
            has_piece: has_piece,
            last_reconnect_attempt: 0,
            last_incoming_message: 0,
            reconnect_attempts: 0,
            being_connected: false,
        }
    }

    /// Whether the peer connected to us (rather than being announced by a tracker).
    pub fn is_incoming(&self) -> (r: bool)
        ensures
            r == self.peer_info.is_none(),
    {
        self.peer_info.is_none()
    }

    /// Whether a connection to the peer is open.
    pub fn is_connected(&self) -> (r: bool)
        ensures
            r == self.connected,
    {
        self.connected
    }
}

/// How many bytes were downloaded and uploaded.
#[derive(Debug, Clone, Copy)]
pub struct Stats {
    pub downloaded: u64,
    pub uploaded: u64,
}

impl Stats {
    pub fn new() -> (r: Stats)
        ensures
            r.downloaded == 0,
            r.uploaded == 0,
    {
        Stats { downloaded: 0, uploaded: 0 }
    }

    pub fn downloaded(&self) -> (r: u64)
        ensures
            r == self.downloaded,
    {
        self.downloaded
    }

    pub fn uploaded(&self) -> (r: u64)
        ensures
            r == self.uploaded,
    {
        self.uploaded
    }

    pub fn add_downloaded(&mut self, delta: u64)
        requires
            old(self).downloaded + delta <= u64::MAX,
        ensures
            final(self).downloaded == old(self).downloaded + delta,
            final(self).uploaded == old(self).uploaded,
    {
        self.downloaded = self.downloaded + delta;
    }

    pub fn add_uploaded(&mut self, delta: u64)
        requires
            old(self).uploaded + delta <= u64::MAX,
        ensures
            final(self).uploaded == old(self).uploaded + delta,
            final(self).downloaded == old(self).downloaded,
    {
        self.uploaded = self.uploaded + delta;
    }
}

impl Block {
    pub fn set_downloaded(&mut self)
        ensures
            final(self).downloaded,
            final(self).offset == old(self).offset,
            final(self).len == old(self).len,
            final(self).request_record == old(self).request_record,
    {
        self.downloaded = true;
    }

    pub fn downloaded(&self) -> (r: bool)
        ensures
            r == self.downloaded,
    {
        self.downloaded
    }

    pub fn offset(&self) -> (r: u64)
        ensures
            r == self.offset,
    {
        self.offset
    }

    pub fn len(&self) -> (r: u32)
        ensures
            r == self.len,
    {
        self.len
    }

    pub fn request_record(&self) -> (r: &Option<BlockRequestRecord>)
        ensures
            *r == self.request_record,
    {
        &self.request_record
    }

    pub fn set_request_record(&mut self, request_record: Option<BlockRequestRecord>)
        ensures
            final(self).request_record == request_record,
            final(self).downloaded == old(self).downloaded,
            final(self).offset == old(self).offset,
            final(self).len == old(self).len,
    {
        self.request_record = request_record;
    }
}

/// Whether every block of `blocks` arrived.
pub open spec fn all_blocks_downloaded(blocks: Seq<Block>) -> bool {
    forall|b: int| 0 <= b < blocks.len() ==> (#[trigger] blocks[b]).downloaded
}

/// `block` with its `downloaded` flag set.
pub open spec fn block_marked(block: Block) -> Block {
    Block { downloaded: true, ..block }
}

impl Piece {
    pub fn downloaded(&self) -> (r: bool)
        ensures
            r == self.downloaded,
    {
        self.downloaded
    }

    pub fn len(&self) -> (r: u32)
        ensures
            r == self.len,
    {
        self.len
    }

    /// Marks a block as arrived; the piece is complete once all its blocks arrived.
    pub fn set_block_downloaded(&mut self, block_id: usize)
        requires
            block_id < old(self).blocks@.len(),
        ensures
            final(self).blocks@ == old(self).blocks@.update(block_id as int, block_marked(old(self).blocks@[block_id as int])),
            final(self).downloaded == (old(self).downloaded || all_blocks_downloaded(final(self).blocks@)),
            final(self).sha == old(self).sha,
            final(self).offset == old(self).offset,
            final(self).len == old(self).len,
    {
        let mut block = self.blocks.remove(block_id);
        block.set_downloaded();
        self.blocks.insert(block_id, block);
        assert(self.blocks@ =~= old(self).blocks@.update(block_id as int, block_marked(old(self).blocks@[block_id as int])));
        let mut i: usize = 0;
        while i < self.blocks.len()
            invariant
                i <= self.blocks@.len(),
                forall|b: int| 0 <= b < i ==> (#[trigger] self.blocks@[b]).downloaded,
                self.blocks@ == old(self).blocks@.update(block_id as int, block_marked(old(self).blocks@[block_id as int])),
                self.downloaded == old(self).downloaded,
                self.sha == old(self).sha,
                self.offset == old(self).offset,
                self.len == old(self).len,
            decreases self.blocks.len() - i,
        {
            if !self.blocks[i].downloaded {
                return;
            }
            i = i + 1;
        }
        self.downloaded = true;
    }

    pub fn blocks(&self) -> (r: &Vec<Block>)
        ensures
            *r == self.blocks,
    {
        &self.blocks
    }

    pub fn blocks_mut(&mut self) -> (r: &mut Vec<Block>)
        ensures
            *r == old(self).blocks,
            final(self).blocks == *final(r),
            final(self).downloaded == old(self).downloaded,
            final(self).sha == old(self).sha,
            final(self).offset == old(self).offset,
            final(self).len == old(self).len,
    {
        &mut self.blocks
    }

    pub fn sha(&self) -> (r: &Vec<u8>)
        ensures
            *r == self.sha,
    {
        &self.sha
    }

    pub fn offset(&self) -> (r: u32)
        ensures
            r == self.offset,
    {
        self.offset
    }
}

/// The SHA-1 digest of `data`, as `rust-crypto` computes it.
pub uninterp spec fn sha1_digest(data: Seq<u8>) -> Seq<u8>;

/// Calls `crypto::sha1::Sha1` (rust-crypto) on `input` and returns the digest,
/// whose length the hasher gives as 160 bits (20 bytes). The hasher panics where the
/// input's length in bits overflows a `u64`, which `requires` leaves out.
#[verifier::external_body]
pub fn calculate_sha1(input: &[u8]) -> (r: Vec<u8>)
    requires
        input@.len() < 0x2000_0000_0000_0000,
    ensures
        r@ == sha1_digest(input@),
        r@.len() == 20,
{
    let mut hasher = crypto::sha1::Sha1::new();
    hasher.input(input);
    let mut buf: Vec<u8> = vec![0; hasher.output_bytes()];
    hasher.result(&mut buf);
    buf
}

/// The number of pieces that the metadata lists: one per whole 20 bytes of hashes.
pub open spec fn num_pieces_spec(t: TorrentSerializable) -> nat {
    t.info.pieces@.len() / 20
}

/// The sizes that the piece layout can be computed for without overflow and, as the
/// block count goes through a 64-bit float, without rounding.
pub open spec fn layout_ok(t: TorrentSerializable) -> bool {
    &&& 0 <= t.info.piece_length
    &&& 0 <= t.info.length < 0x20_0000_0000_0000
    &&& t.info.piece_length * num_pieces_spec(t) < 0x20_0000_0000_0000
}

/// The length of piece `i`: the piece length, but for the last piece, what remains
/// of the torrent's length after the others.
pub open spec fn piece_len_spec(t: TorrentSerializable, i: int) -> int {
    if i == num_pieces_spec(t) - 1 {
        t.info.length - t.info.piece_length * (num_pieces_spec(t) - 1)
    } else {
        t.info.piece_length as int
    }
}

/// Where piece `i` starts in the torrent's data.
pub open spec fn piece_offset_spec(t: TorrentSerializable, i: int) -> int {
    i * t.info.piece_length
}

/// How many blocks a piece of length `len` has: `ceil(len / BLOCK_SIZE)`, and none
/// for a length that is not positive.
pub open spec fn num_blocks_spec(len: int) -> nat {
    if len <= 0 { 0 } else { ((len + 16383) / 16384) as nat }
}

/// The length of block `j` of piece `i`: what remains of the torrent after the
/// block's start, at most a block size.
pub open spec fn block_len_spec(t: TorrentSerializable, i: int, j: int) -> u32 {
    let rest = t.info.length - piece_offset_spec(t, i) - j * 16384;
    (if rest < 16384 { rest } else { 16384 }) as u32
}

/// The hash that the metadata lists for piece `i`.
pub open spec fn expected_sha_spec(t: TorrentSerializable, i: int) -> Seq<u8> {
    t.info.pieces@.subrange(20 * i, 20 * i + 20)
}

/// Whether `p` is piece `i` of torrent `t` as found on disk with content `data`:
/// complete, and all its blocks too, exactly when the content's SHA-1 is the listed hash.
pub open spec fn is_initial_piece(p: Piece, t: TorrentSerializable, i: int, data: Seq<u8>) -> bool {
    let have = expected_sha_spec(t, i) == sha1_digest(data);
    &&& p.downloaded == have
    &&& p.sha@ == expected_sha_spec(t, i)
    &&& p.offset == piece_offset_spec(t, i) as u32
    &&& p.len == piece_len_spec(t, i) as u32
    &&& p.blocks@.len() == num_blocks_spec(piece_len_spec(t, i))
    &&& forall|j: int| 0 <= j < p.blocks@.len() ==> {
        &&& (#[trigger] p.blocks@[j]).downloaded == have
        &&& p.blocks@[j].offset == j * 16384
        &&& p.blocks@[j].len == block_len_spec(t, i, j)
        &&& p.blocks@[j].request_record is None
    }
}

/// Whether `pieces` are the pieces of torrent `t` with the contents `contents` on disk.
pub open spec fn is_initial_layout(pieces: Seq<Piece>, t: TorrentSerializable, contents: Seq<Vec<u8>>) -> bool {
    &&& pieces.len() == num_pieces_spec(t)
    &&& forall|i: int| 0 <= i < pieces.len() ==> is_initial_piece(#[trigger] pieces[i], t, i, contents[i]@)
}

/// The blocks of a piece of positive length `L`, as a download sets them up, all
/// start inside the piece (block `j` at `j * 16384 < L`) and together reach its
/// end: there are `ceil(L / 16384)` of them.
pub proof fn lemma_blocks_cover_piece(p: Piece, t: TorrentSerializable, i: int, data: Seq<u8>)
    requires
        is_initial_piece(p, t, i, data),
        piece_len_spec(t, i) > 0,
    ensures
        p.blocks@.len() > 0,
        forall|j: int| 0 <= j < p.blocks@.len() ==> (#[trigger] p.blocks@[j]).offset < piece_len_spec(t, i),
        p.blocks@.len() * 16384 >= piece_len_spec(t, i),
        (p.blocks@.len() - 1) * 16384 < piece_len_spec(t, i),
{
    let l = piece_len_spec(t, i);
    let n = p.blocks@.len() as int;
    assert(n == (l + 16383) / 16384);
    assert(n * 16384 >= l && (n - 1) * 16384 < l && n > 0) by (nonlinear_arith)
        requires n == (l + 16383) / 16384, l > 0;
    assert forall|j: int| 0 <= j < n implies (#[trigger] p.blocks@[j]).offset < l by {
        assert(j * 16384 <= (n - 1) * 16384) by (nonlinear_arith) requires j <= n - 1;
    }
}

/// Where each piece lies in the torrent's data, as `(offset, length)`, so that its
/// content can be read.
pub fn piece_spans(torrent: &TorrentSerializable) -> (r: Vec<(u32, u32)>)
    requires
        layout_ok(*torrent),
    ensures
        r@.len() == num_pieces_spec(*torrent),
        forall|i: int| 0 <= i < r@.len() ==> (#[trigger] r@[i]).0 == piece_offset_spec(*torrent, i) as u32
            && r@[i].1 == piece_len_spec(*torrent, i) as u32,
{
    let num_pieces = torrent.info.pieces.len() / 20;
    let mut spans: Vec<(u32, u32)> = Vec::new();
    let mut i: usize = 0;
    while i < num_pieces
        invariant
            layout_ok(*torrent),
            num_pieces == num_pieces_spec(*torrent),
            i <= num_pieces,
            spans@.len() == i,
            forall|k: int| 0 <= k < i ==> (#[trigger] spans@[k]).0 == piece_offset_spec(*torrent, k) as u32
                && spans@[k].1 == piece_len_spec(*torrent, k) as u32,
        decreases num_pieces - i,
    {
        let (offset, len) = piece_span(torrent, i);
        spans.push((offset as u32, len as u32));
        i = i + 1;
    }
    spans
}

proof fn lemma_layout_bounds(t: TorrentSerializable, i: int)
    requires
        layout_ok(t),
        0 <= i < num_pieces_spec(t),
    ensures
        0 <= piece_offset_spec(t, i) <= t.info.piece_length * (num_pieces_spec(t) - 1),
        t.info.piece_length * (num_pieces_spec(t) - 1) < 0x20_0000_0000_0000,
        -0x20_0000_0000_0000 < piece_len_spec(t, i) < 0x20_0000_0000_0000,
{
    let n = num_pieces_spec(t) as int;
    let pl = t.info.piece_length as int;
    assert(0 <= i * pl <= pl * (n - 1)) by (nonlinear_arith)
        requires 0 <= i < n, 0 <= pl;
    assert(pl * (n - 1) <= pl * n) by (nonlinear_arith)
        requires 0 <= pl, 1 <= n;
    assert(pl * n == t.info.piece_length * num_pieces_spec(t));
    assert(pl * (n - 1) == t.info.piece_length * (num_pieces_spec(t) - 1));
    assert(0 <= pl * (n - 1)) by (nonlinear_arith) requires 0 <= pl, 1 <= n;
    assert(pl <= pl * n) by (nonlinear_arith) requires 0 <= pl, 1 <= n;
}

/// The offset and length (as `i64`) of piece `i`.
fn piece_span(torrent: &TorrentSerializable, i: usize) -> (r: (i64, i64))
    requires
        layout_ok(*torrent),
        i < num_pieces_spec(*torrent),
    ensures
        r.0 == piece_offset_spec(*torrent, i as int),
        r.1 == piece_len_spec(*torrent, i as int),
        0 <= r.0 < 0x20_0000_0000_0000,
{
    proof { lemma_layout_bounds(*torrent, i as int); }
    let num_pieces = torrent.info.pieces.len() / 20;
    let piece_length_std = torrent.info.piece_length;
    let mut piece_length = piece_length_std;
    if i == num_pieces - 1 {
        let in_previous = piece_length_std * ((num_pieces - 1) as i64);
        piece_length = torrent.info.length - in_previous;
    }
    let piece_offset = (i as i64) * piece_length_std;
    (piece_offset, piece_length)
}

/// Piece `i` of `torrent`, given its content `data` as found on disk.
fn build_piece(torrent: &TorrentSerializable, i: usize, data: &Vec<u8>) -> (r: Piece)
    requires
        layout_ok(*torrent),
        i < num_pieces_spec(*torrent),
        data@.len() < 0x2000_0000_0000_0000,
    ensures
        is_initial_piece(r, *torrent, i as int, data@),
{
    let (piece_offset, piece_length) = piece_span(torrent, i);
    proof { lemma_layout_bounds(*torrent, i as int); }
    assert(20 * i + 20 <= torrent.info.pieces@.len()) by (nonlinear_arith)
        requires i < torrent.info.pieces@.len() / 20;
    let plen = torrent.info.pieces.len();
    let mut expected_hash: Vec<u8> = Vec::new();
    let from = i * 20;
    let mut k: usize = 0;
    while k < 20
        invariant
            k <= 20,
            from == 20 * i,
            from + 20 <= torrent.info.pieces@.len(),
            plen == torrent.info.pieces@.len(),
            expected_hash@ == torrent.info.pieces@.subrange(from as int, from + k),
        decreases 20 - k,
    {
        expected_hash.push(torrent.info.pieces[from + k]);
        assert(expected_hash@ =~= torrent.info.pieces@.subrange(from as int, from + k + 1));
        k = k + 1;
    }
    let actual_hash = calculate_sha1(data.as_slice());
    let have_this_piece = bytes_equal(expected_hash.as_slice(), actual_hash.as_slice());
    let num_blocks: u64 = if piece_length <= 0 {
        0
    } else {
        ((piece_length + 16383) / 16384) as u64
    };
    assert(num_blocks <= 0x1_0000_0000_0000);
    let mut blocks: Vec<Block> = Vec::new();
    let mut j: u64 = 0;
    while j < num_blocks
        invariant
            layout_ok(*torrent),
            i < num_pieces_spec(*torrent),
            piece_offset == piece_offset_spec(*torrent, i as int),
            0 <= piece_offset < 0x20_0000_0000_0000,
            num_blocks == num_blocks_spec(piece_length as int),
            num_blocks <= 0x1_0000_0000_0000,
            j <= num_blocks,
            blocks@.len() == j,
            forall|m: int| 0 <= m < j ==> {
                &&& (#[trigger] blocks@[m]).downloaded == have_this_piece
                &&& blocks@[m].offset == m * 16384
                &&& blocks@[m].len == block_len_spec(*torrent, i as int, m)
                &&& blocks@[m].request_record is None
            },
        decreases num_blocks - j,
    {
        let block_offset: u64 = j * 16384;
        let rest: i64 = torrent.info.length - piece_offset - (block_offset as i64);
        let block_len: i64 = if rest < 16384 { rest } else { 16384 };
        blocks.push(Block {
            downloaded: have_this_piece,
            offset: block_offset,
            len: block_len as u32,
            request_record: None,
        });
        j = j + 1;
    }
    Piece {
        downloaded: have_this_piece,
        sha: expected_hash,
        blocks: blocks,
        offset: piece_offset as u32,
        len: piece_length as u32,
    }
}

/// A torrent being downloaded and seeded.
#[derive(Debug)]
pub struct Download {
    pub id: u32,
    pub download_path: String,
    pub announcement_url: String,
    pub name: String,
    pub temp_location: String,
    pub files: Vec<DownloadFile>,
    pub peers: Vec<Peer>,
    pub piece_length: i64,
    pub length: i64,
    pub pieces: Vec<Piece>,
    pub info_hash: Vec<u8>,
    pub pending_block_requests: VecDeque<IncomingBlockRequest>,
    pub recently_downloaded_pieces: Vec<usize>,
    pub downloaded: bool,
    pub stats: Stats,
    /// When the tracker was last asked, in milliseconds since the epoch.
    pub last_check_with_tracker: u64,
    /// How often to ask the tracker, in seconds.
    pub tracker_interval: u64,
    pub single_file: bool,
}

/// Where a download is kept until it completes: `<download path>/<name>_part`.
pub open spec fn temp_location_spec(download_path: Seq<char>, name: Seq<char>) -> Seq<char> {
    download_path + seq!['/'] + name + seq!['_', 'p', 'a', 'r', 't']
}

/// Where a download is moved when it completes: `<download path>/<name>`.
pub open spec fn final_location_spec(download_path: Seq<char>, name: Seq<char>) -> Seq<char> {
    download_path + seq!['/'] + name
}

/// The path, below a download's location, of a file of a multi-file torrent:
/// its components, each preceded by `/`.
pub open spec fn file_path_spec(components: Seq<String>) -> Seq<char> {
    seq!['/'] + join_spec(string_views(components), seq!['/'])
}

/// Whether every piece is complete or has all its blocks.
pub open spec fn all_pieces_complete(pieces: Seq<Piece>) -> bool {
    forall|p: int| 0 <= p < pieces.len() ==> (#[trigger] pieces[p]).downloaded || all_blocks_downloaded(pieces[p].blocks@)
}

/// Whether the pieces `after` are `before` with block `b` of piece `p` marked as
/// arrived, and the piece complete where it was or all its blocks now are.
pub open spec fn block_marked_in(before: Seq<Piece>, after: Seq<Piece>, p: int, b: int) -> bool {
    &&& after.len() == before.len()
    &&& forall|k: int| 0 <= k < before.len() && k != p ==> #[trigger] after[k] == before[k]
    &&& after[p].blocks@ == before[p].blocks@.update(b, block_marked(before[p].blocks@[b]))
    &&& after[p].downloaded == (before[p].downloaded || all_blocks_downloaded(after[p].blocks@))
    &&& after[p].sha == before[p].sha
    &&& after[p].offset == before[p].offset
    &&& after[p].len == before[p].len
}

/// Whether `p` is what `Peer::new(connected, info, num_pieces)` gives.
pub open spec fn is_fresh_peer(p: Peer, connected: bool, info: Option<PeerInfo>, num_pieces: nat) -> bool {
    &&& p.connected == connected
    &&& p.peer_info == info
    &&& p.buf@.len() == 0
    &&& p.next_message_length == 0
    &&& !p.we_interested
    &&& p.we_choked
    &&& !p.they_interested
    &&& p.outstanding_block_requests == 0
    &&& p.has_piece@ == Seq::new(num_pieces, |i: int| false)
    &&& p.last_reconnect_attempt == 0
    &&& p.last_incoming_message == 0
    &&& p.reconnect_attempts == 0
    &&& !p.being_connected
}

/// Whether some peer of `peers` was announced with the address `ip`:`port`.
pub open spec fn has_peer_at(peers: Seq<Peer>, ip: Seq<char>, port: u64) -> bool {
    exists|i: int| 0 <= i < peers.len() && peer_at(#[trigger] peers[i], ip, port)
}

/// Whether `peer` was announced with the address `ip`:`port`.
pub open spec fn peer_at(peer: Peer, ip: Seq<char>, port: u64) -> bool {
    &&& peer.peer_info is Some
    &&& peer.peer_info->0.ip@ == ip
    &&& peer.peer_info->0.port == port
}

/// What `set_block_downloaded` found: whether the block's piece is complete, and
/// whether the whole download is. The caller then checks the piece's hash
/// (`Download::on_piece_done`) and moves the completed download to its place.
#[derive(Debug, Clone, Copy)]
pub struct BlockDoneEffects {
    pub piece_done: bool,
    pub download_done: bool,
}

fn location_strings(download_path: &String, name: &String) -> (r: (String, String))
    ensures
        r.0@ == temp_location_spec(download_path@, name@),
        r.1@ == final_location_spec(download_path@, name@),
{
    let mut final_location = download_path.clone();
    final_location.append("/");
    final_location.append(name.as_str());
    let mut temp_location = final_location.clone();
    temp_location.append("_part");
    proof {
        reveal_strlit("/");
        reveal_strlit("_part");
    }
    assert(final_location@ =~= final_location_spec(download_path@, name@));
    assert(temp_location@ =~= temp_location_spec(download_path@, name@));
    (temp_location, final_location)
}

/// How to open the files of a download: the completed location where it exists,
/// else the temporary one, which is the one opened for writing.
pub fn file_plans(entry: &TorrentEntry, torrent: &TorrentSerializable, final_location_exists: bool) -> (r: Vec<FilePlan>)
    ensures
        torrent.info.files@.len() == 0 ==> r@.len() == 1,
        torrent.info.files@.len() != 0 ==> r@.len() == torrent.info.files@.len(),
        forall|i: int| 0 <= i < r@.len() ==> {
            let location = if final_location_exists {
                final_location_spec(entry.download_path@, torrent.info.name@)
            } else {
                temp_location_spec(entry.download_path@, torrent.info.name@)
            };
            let from_root = if torrent.info.files@.len() == 0 {
                Seq::<char>::empty()
            } else {
                file_path_spec(torrent.info.files@[i].path@)
            };
            &&& (#[trigger] r@[i]).write == !final_location_exists
            &&& r@[i].path_from_download_root@ == from_root
            &&& r@[i].actual_path@ == location + from_root
        },
{
    let (temp_location, final_location) = location_strings(&entry.download_path, &torrent.info.name);
    let location = if final_location_exists { final_location } else { temp_location };
    let write = !final_location_exists;
    let mut plans: Vec<FilePlan> = Vec::new();
    if torrent.info.files.len() == 0 {
        let actual = location.clone();
        let from_root = String::new();
        assert(actual@ =~= location@ + from_root@);
        plans.push(FilePlan { path_from_download_root: from_root, actual_path: actual, write: write });
    } else {
        let mut i: usize = 0;
        while i < torrent.info.files.len()
            invariant
                i <= torrent.info.files@.len(),
                torrent.info.files@.len() != 0,
                plans@.len() == i,
                location@ == (if final_location_exists {
                    final_location_spec(entry.download_path@, torrent.info.name@)
                } else {
                    temp_location_spec(entry.download_path@, torrent.info.name@)
                }),
                write == !final_location_exists,
                forall|k: int| 0 <= k < i ==> {
                    &&& (#[trigger] plans@[k]).write == write
                    &&& plans@[k].path_from_download_root@ == file_path_spec(torrent.info.files@[k].path@)
                    &&& plans@[k].actual_path@ == location@ + file_path_spec(torrent.info.files@[k].path@)
                },
            decreases torrent.info.files.len() - i,
        {
            proof { reveal_strlit("/"); }
            let mut from_root = String::from_str("/");
            let joined = join_strings(&torrent.info.files[i].path, "/");
            assert("/"@ =~= seq!['/']);
            assert(from_root@ =~= seq!['/']);
            assert(joined@ == join_spec(string_views(torrent.info.files@[i as int].path@), seq!['/']));
            from_root.append(joined.as_str());
            assert(from_root@ =~= file_path_spec(torrent.info.files@[i as int].path@));
            let mut actual = location.clone();
            actual.append(from_root.as_str());
            plans.push(FilePlan { path_from_download_root: from_root, actual_path: actual, write: write });
            i = i + 1;
        }
    }
    plans
}

/// The files of a download as `Download::new` records them: for a single-file
/// torrent one file with an empty path, else one per listed file; each with the
/// torrent's length.
pub open spec fn is_file_list(files: Seq<DownloadFile>, t: TorrentSerializable) -> bool {
    &&& t.info.files@.len() == 0 ==> files.len() == 1 && files[0].path@ == Seq::<char>::empty()
    &&& t.info.files@.len() != 0 ==> files.len() == t.info.files@.len()
        && forall|i: int| 0 <= i < files.len() ==> (#[trigger] files[i]).path@ == file_path_spec(t.info.files@[i].path@)
    &&& forall|i: int| 0 <= i < files.len() ==> (#[trigger] files[i]).length == t.info.length
}

/// Whether every piece hash that the metadata lists can be hashed.
pub open spec fn contents_fit(contents: Seq<Vec<u8>>) -> bool {
    forall|i: int| 0 <= i < contents.len() ==> (#[trigger] contents[i])@.len() < 0x2000_0000_0000_0000
}

impl Download {
    /// A download of the torrent that `entry` names, with metadata `torrent`.
    /// `final_location_exists` tells whether the completed download is already in
    /// place; `piece_contents[i]` is what is on disk where piece `i` lies (see
    /// `piece_spans`). The `downloaded` flag is set from the block count while
    /// there are no pieces yet, which makes it true.
    pub fn new(
        entry: &TorrentEntry,
        torrent: &TorrentSerializable,
        final_location_exists: bool,
        piece_contents: &Vec<Vec<u8>>,
    ) -> (r: Download)
        requires
            layout_ok(*torrent),
            piece_contents@.len() == num_pieces_spec(*torrent),
            contents_fit(piece_contents@),
        ensures
            r.id == entry.id,
            r.download_path == entry.download_path,
            r.announcement_url == torrent.announce,
            r.name == torrent.info.name,
            r.temp_location@ == temp_location_spec(entry.download_path@, torrent.info.name@),
            is_file_list(r.files@, *torrent),
            r.peers@.len() == 0,
            r.piece_length == torrent.info.piece_length,
            r.length == torrent.info.length,
            is_initial_layout(r.pieces@, *torrent, piece_contents@),
            r.info_hash@ == torrent.info_hash@,
            r.pending_block_requests@.len() == 0,
            r.recently_downloaded_pieces@.len() == 0,
            r.downloaded,
            r.stats.downloaded == 0 && r.stats.uploaded == 0,
            r.last_check_with_tracker == 0,
            r.tracker_interval == 60,
            r.single_file == (torrent.info.files@.len() == 0),
    {
        let (temp_location, _final_location) = location_strings(&entry.download_path, &torrent.info.name);
        let single_file = torrent.info.files.len() == 0;
        let mut files: Vec<DownloadFile> = Vec::new();
        if single_file {
            files.push(DownloadFile { path: String::new(), length: torrent.info.length });
        } else {
            let mut i: usize = 0;
            while i < torrent.info.files.len()
                invariant
                    i <= torrent.info.files@.len(),
                    files@.len() == i,
                    forall|k: int| 0 <= k < i ==> (#[trigger] files@[k]).path@ == file_path_spec(torrent.info.files@[k].path@)
                        && files@[k].length == torrent.info.length,
                decreases torrent.info.files.len() - i,
            {
                proof { reveal_strlit("/"); }
                let mut path = String::from_str("/");
                let joined = join_strings(&torrent.info.files[i].path, "/");
                assert("/"@ =~= seq!['/']);
                assert(path@ =~= seq!['/']);
                assert(joined@ == join_spec(string_views(torrent.info.files@[i as int].path@), seq!['/']));
                path.append(joined.as_str());
                assert(path@ =~= file_path_spec(torrent.info.files@[i as int].path@));
                files.push(DownloadFile { path: path, length: torrent.info.length });
                i = i + 1;
            }
        }
        let mut download = Download {
            id: entry.id,
            download_path: entry.download_path.clone(),
            announcement_url: torrent.announce.clone(),
            name: torrent.info.name.clone(),
            temp_location: temp_location,
            files: files,
            peers: Vec::new(),
            piece_length: torrent.info.piece_length,
            length: torrent.info.length,
            pieces: Vec::new(),
            info_hash: torrent.info_hash.clone(),
            pending_block_requests: VecDeque::new(),
            downloaded: false,
            recently_downloaded_pieces: Vec::new(),
            stats: Stats::new(),
            last_check_with_tracker: 0,
            tracker_interval: 60,
            single_file: single_file,
        };
        download.downloaded = download.get_is_downloaded();
        download.init_pieces(torrent, piece_contents);
        download
    }

    /// Sets up the pieces of the download from the metadata and what is on disk
    /// where each piece lies: a piece whose content has the listed hash is complete.
    pub fn init_pieces(&mut self, torrent: &TorrentSerializable, piece_contents: &Vec<Vec<u8>>)
        requires
            layout_ok(*torrent),
            piece_contents@.len() == num_pieces_spec(*torrent),
            contents_fit(piece_contents@),
        ensures
            is_initial_layout(final(self).pieces@, *torrent, piece_contents@),
            *final(self) == (Download { pieces: final(self).pieces, ..*old(self) }),
    {
        let num_pieces = torrent.info.pieces.len() / 20;
        let mut pieces: Vec<Piece> = Vec::new();
        let mut i: usize = 0;
        while i < num_pieces
            invariant
                layout_ok(*torrent),
                num_pieces == num_pieces_spec(*torrent),
                piece_contents@.len() == num_pieces,
                contents_fit(piece_contents@),
                i <= num_pieces,
                pieces@.len() == i,
                forall|k: int| 0 <= k < i ==> is_initial_piece(#[trigger] pieces@[k], *torrent, k, piece_contents@[k]@),
            decreases num_pieces - i,
        {
            let piece = build_piece(torrent, i, &piece_contents[i]);
            pieces.push(piece);
            i = i + 1;
        }
        self.pieces = pieces;
    }

    /// Whether every block of every piece that is not complete arrived.
    fn get_is_downloaded(&self) -> (r: bool)
        ensures
            r == all_pieces_complete(self.pieces@),
    {
        let mut p: usize = 0;
        while p < self.pieces.len()
            invariant
                p <= self.pieces@.len(),
                forall|k: int| 0 <= k < p ==> (#[trigger] self.pieces@[k]).downloaded || all_blocks_downloaded(self.pieces@[k].blocks@),
            decreases self.pieces.len() - p,
        {
            let piece = &self.pieces[p];
            if !piece.downloaded {
                let mut b: usize = 0;
                while b < piece.blocks.len()
                    invariant
                        b <= piece.blocks@.len(),
                        p < self.pieces@.len(),
                        *piece == self.pieces@[p as int],
                        !piece.downloaded,
                        forall|k: int| 0 <= k < b ==> (#[trigger] piece.blocks@[k]).downloaded,
                    decreases piece.blocks.len() - b,
                {
                    if !piece.blocks[b].downloaded {
                        assert(!all_blocks_downloaded(self.pieces@[p as int].blocks@));
                        assert(!((self.pieces@[p as int]).downloaded || all_blocks_downloaded(self.pieces@[p as int].blocks@)));
                        return false;
                    }
                    b = b + 1;
                }
            }
            p = p + 1;
        }
        true
    }

    /// Adds a peer that a tracker announced, unless a peer with its address is known.
    pub fn register_outgoing_peer(&mut self, peer_info: PeerInfo)
        ensures
            has_peer_at(old(self).peers@, peer_info.ip@, peer_info.port) ==> *final(self) == *old(self),
            !has_peer_at(old(self).peers@, peer_info.ip@, peer_info.port) ==> {
                &&& final(self).peers@.len() == old(self).peers@.len() + 1
                &&& final(self).peers@.drop_last() == old(self).peers@
                &&& is_fresh_peer(final(self).peers@.last(), false, Some(peer_info), old(self).pieces@.len())
                &&& *final(self) == (Download { peers: final(self).peers, ..*old(self) })
            },
    {
        let mut i: usize = 0;
        while i < self.peers.len()
            invariant
                i <= self.peers@.len(),
                forall|k: int| 0 <= k < i ==> !peer_at(#[trigger] self.peers@[k], peer_info.ip@, peer_info.port),
            decreases self.peers.len() - i,
        {
            match &self.peers[i].peer_info {
                Some(info) => {
                    if info.ip == peer_info.ip && info.port == peer_info.port {
                        assert(peer_at(self.peers@[i as int], peer_info.ip@, peer_info.port));
                        return;
                    }
                },
                None => {},
            }
            i = i + 1;
        }
        let n = self.pieces.len();
        let ghost old_peers = self.peers@;
        self.peers.push(Peer::new(false, Some(peer_info), n));
        assert(self.peers@.drop_last() =~= old_peers);
    }

    /// Adds a peer that connected to us; returns its index.
    pub fn register_incoming_peer(&mut self) -> (r: usize)
        requires
            old(self).peers@.len() < usize::MAX,
        ensures
            r == old(self).peers@.len(),
            final(self).peers@.len() == old(self).peers@.len() + 1,
            final(self).peers@.drop_last() == old(self).peers@,
            is_fresh_peer(final(self).peers@.last(), true, None, old(self).pieces@.len()),
            *final(self) == (Download { peers: final(self).peers, ..*old(self) }),
    {
        let n = self.pieces.len();
        let ghost old_peers = self.peers@;
        self.peers.push(Peer::new(true, None, n));
        assert(self.peers@.drop_last() =~= old_peers);
        self.peers.len() - 1
    }

    pub fn peers(&self) -> (r: &Vec<Peer>)
        ensures
            *r == self.peers,
    {
        &self.peers
    }

    pub fn peers_mut(&mut self) -> (r: &mut Vec<Peer>)
        ensures
            *r == old(self).peers,
            *final(self) == (Download { peers: *final(r), ..*old(self) }),
    {
        &mut self.peers
    }

    pub fn peer(&self, peer_id: usize) -> (r: &Peer)
        requires
            peer_id < self.peers@.len(),
        ensures
            *r == self.peers@[peer_id as int],
    {
        &self.peers[peer_id]
    }

    pub fn peer_mut(&mut self, peer_id: usize) -> (r: &mut Peer)
        requires
            peer_id < old(self).peers@.len(),
        ensures
            *r == old(self).peers@[peer_id as int],
            final(self).peers@ == old(self).peers@.update(peer_id as int, *final(r)),
            *final(self) == (Download { peers: final(self).peers, ..*old(self) }),
    {
        &mut self.peers[peer_id]
    }

    /// Where a completed download is moved from and to: its temporary location, and
    /// `<download path>/<name>`.
    pub fn completion_move(&self) -> (r: (String, String))
        ensures
            r.0 == self.temp_location,
            r.1@ == final_location_spec(self.download_path@, self.name@),
    {
        let (_, dest) = location_strings(&self.download_path, &self.name);
        (self.temp_location.clone(), dest)
    }

    pub fn pieces(&self) -> (r: &Vec<Piece>)
        ensures
            *r == self.pieces,
    {
        &self.pieces
    }

    pub fn pieces_mut(&mut self) -> (r: &mut Vec<Piece>)
        ensures
            *r == old(self).pieces,
            *final(self) == (Download { pieces: *final(r), ..*old(self) }),
    {
        &mut self.pieces
    }

    pub fn stats(&self) -> (r: &Stats)
        ensures
            *r == self.stats,
    {
        &self.stats
    }

    pub fn set_stats(&mut self, stats: Stats)
        ensures
            *final(self) == (Download { stats: stats, ..*old(self) }),
    {
        self.stats = stats;
    }

    pub fn stats_mut(&mut self) -> (r: &mut Stats)
        ensures
            *r == old(self).stats,
            *final(self) == (Download { stats: *final(r), ..*old(self) }),
    {
        &mut self.stats
    }

    /// Queues a block that a peer asked for.
    pub fn add_incoming_block_request(&mut self, request: IncomingBlockRequest)
        ensures
            final(self).pending_block_requests@ == old(self).pending_block_requests@.push(request),
            *final(self) == (Download { pending_block_requests: final(self).pending_block_requests, ..*old(self) }),
    {
        self.pending_block_requests.push_back(request);
    }

    /// Marks a block as arrived, and reports whether its piece and the whole
    /// download are complete; a complete download stays marked as such.
    pub fn set_block_downloaded(&mut self, piece_id: usize, block_id: usize) -> (r: BlockDoneEffects)
        requires
            piece_id < old(self).pieces@.len(),
            block_id < old(self).pieces@[piece_id as int].blocks@.len(),
        ensures
            block_marked_in(old(self).pieces@, final(self).pieces@, piece_id as int, block_id as int),
            r.piece_done == final(self).pieces@[piece_id as int].downloaded,
            r.download_done == all_pieces_complete(final(self).pieces@),
            final(self).downloaded == (old(self).downloaded || r.download_done),
            *final(self) == (Download { pieces: final(self).pieces, downloaded: final(self).downloaded, ..*old(self) }),
    {
        let mut piece = self.pieces.remove(piece_id);
        piece.set_block_downloaded(block_id);
        let piece_done = piece.downloaded;
        let ghost old_pieces = old(self).pieces@;
        self.pieces.insert(piece_id, piece);
        assert forall|k: int| 0 <= k < old_pieces.len() && k != piece_id implies #[trigger] self.pieces@[k] == old_pieces[k] by {
            if k < piece_id {
            } else {
            }
        }
        let download_done = self.get_is_downloaded();
        if download_done {
            self.downloaded = true;
        }
        BlockDoneEffects { piece_done, download_done }
    }

    pub fn is_downloaded(&self) -> (r: bool)
        ensures
            r == self.downloaded,
    {
        self.downloaded
    }

    /// Checks a piece that just completed against its listed hash; `data` is what
    /// is now on disk where the piece lies. A matching piece is queued to be
    /// announced to peers; `false` tells the caller that the hashes differ.
    pub fn on_piece_done(&mut self, piece_id: usize, data: &Vec<u8>) -> (r: bool)
        requires
            piece_id < old(self).pieces@.len(),
            data@.len() < 0x2000_0000_0000_0000,
        ensures
            r == (old(self).pieces@[piece_id as int].sha@ == sha1_digest(data@)),
            r ==> final(self).recently_downloaded_pieces@ == old(self).recently_downloaded_pieces@.push(piece_id),
            !r ==> final(self).recently_downloaded_pieces@ == old(self).recently_downloaded_pieces@,
            *final(self) == (Download { recently_downloaded_pieces: final(self).recently_downloaded_pieces, ..*old(self) }),
    {
        let actual_hash = calculate_sha1(data.as_slice());
        let is_complete = bytes_equal(self.pieces[piece_id].sha.as_slice(), actual_hash.as_slice());
        if is_complete {
            self.recently_downloaded_pieces.push(piece_id);
        }
        is_complete
    }

    /// Forgets the connection to a peer and what was partly received from it.
    pub fn on_broken_connection(&mut self, peer_id: usize)
        requires
            peer_id < old(self).peers@.len(),
        ensures
            final(self).peers@.len() == old(self).peers@.len(),
            forall|k: int| 0 <= k < old(self).peers@.len() && k != peer_id ==> #[trigger] final(self).peers@[k] == old(self).peers@[k],
            !final(self).peers@[peer_id as int].connected,
            final(self).peers@[peer_id as int].buf@.len() == 0,
            final(self).peers@[peer_id as int].next_message_length == 0,
            final(self).peers@[peer_id as int] == (Peer {
                connected: false,
                buf: final(self).peers@[peer_id as int].buf,
                next_message_length: 0,
                ..old(self).peers@[peer_id as int]
            }),
            *final(self) == (Download { peers: final(self).peers, ..*old(self) }),
    {
        let mut peer = self.peers.remove(peer_id);
        peer.connected = false;
        peer.buf = Vec::new();
        peer.next_message_length = 0;
        self.peers.insert(peer_id, peer);
    }

    /// Records that block `block_id` of piece `piece_id` was requested.
    pub fn set_block_request_record(&mut self, piece_id: usize, block_id: usize, record: Option<BlockRequestRecord>)
        requires
            piece_id < old(self).pieces@.len(),
            block_id < old(self).pieces@[piece_id as int].blocks@.len(),
        ensures
            final(self).pieces@.len() == old(self).pieces@.len(),
            forall|k: int| 0 <= k < old(self).pieces@.len() && k != piece_id ==> #[trigger] final(self).pieces@[k] == old(self).pieces@[k],
            final(self).pieces@[piece_id as int].blocks@ == old(self).pieces@[piece_id as int].blocks@.update(
                block_id as int, Block { request_record: record, ..old(self).pieces@[piece_id as int].blocks@[block_id as int] }),
            final(self).pieces@[piece_id as int].downloaded == old(self).pieces@[piece_id as int].downloaded,
            final(self).pieces@[piece_id as int].sha == old(self).pieces@[piece_id as int].sha,
            final(self).pieces@[piece_id as int].offset == old(self).pieces@[piece_id as int].offset,
            final(self).pieces@[piece_id as int].len == old(self).pieces@[piece_id as int].len,
            *final(self) == (Download { pieces: final(self).pieces, ..*old(self) }),
    {
        let mut piece = self.pieces.remove(piece_id);
        let mut block = piece.blocks.remove(block_id);
        block.set_request_record(record);
        piece.blocks.insert(block_id, block);
        assert(piece.blocks@ =~= old(self).pieces@[piece_id as int].blocks@.update(
                block_id as int, Block { request_record: record, ..old(self).pieces@[piece_id as int].blocks@[block_id as int] }));
        let ghost old_pieces = old(self).pieces@;
        self.pieces.insert(piece_id, piece);
        assert forall|k: int| 0 <= k < old_pieces.len() && k != piece_id implies #[trigger] self.pieces@[k] == old_pieces[k] by {
            if k < piece_id {
            } else {
            }
        }
    }

    /// Adds `count` to the number of block requests outstanding with a peer.
    pub fn add_outstanding_block_requests(&mut self, peer_id: usize, count: i32)
        requires
            peer_id < old(self).peers@.len(),
            i32::MIN <= old(self).peers@[peer_id as int].outstanding_block_requests + count <= i32::MAX,
        ensures
            final(self).peers@ == old(self).peers@.update(peer_id as int, Peer {
                outstanding_block_requests: (old(self).peers@[peer_id as int].outstanding_block_requests + count) as i32,
                ..old(self).peers@[peer_id as int]
            }),
            *final(self) == (Download { peers: final(self).peers, ..*old(self) }),
    {
        let mut peer = self.peers.remove(peer_id);
        peer.outstanding_block_requests = peer.outstanding_block_requests + count;
        self.peers.insert(peer_id, peer);
        assert(self.peers@ =~= old(self).peers@.update(peer_id as int, Peer {
                outstanding_block_requests: (old(self).peers@[peer_id as int].outstanding_block_requests + count) as i32,
                ..old(self).peers@[peer_id as int]
            }));
    }
}

} // verus!
