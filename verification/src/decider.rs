//! The decisions of each tick: which blocks to request from which peers, which
//! requests of peers to serve, which peers to reconnect to, and which peers to
//! tell about newly completed pieces.

use vstd::prelude::*;
use crate::config::{MAX_OUTSTANDING_REQUESTS_PER_PEER, MAX_REQUESTS_PER_TICK_PER_DOWNLOAD, PORT, MAX_PEER_RECONNECT_ATTEMPTS, MIN_PEER_RECONNECT_INTERVAL_MS};
use crate::download::{Block, BlockRequestRecord, Download, IncomingBlockRequest, Peer};

verus! {

/// A block to request from a peer.
#[derive(Debug, Clone, Copy)]
pub struct BlockRequest {
    pub download_id: u32,
    pub peer_id: usize,
    pub piece_id: usize,
    pub block_id: usize,
}

/// A peer to tell that we now have a piece.
#[derive(Debug, Clone, Copy)]
pub struct HaveBroadcast {
    peer_id: usize,
    piece_id: usize,
}

impl HaveBroadcast {
    pub fn new(peer_id: usize, piece_id: usize) -> (r: HaveBroadcast)
        ensures
            r.spec_peer_id() == peer_id,
            r.spec_piece_id() == piece_id,
    {
        HaveBroadcast { peer_id: peer_id, piece_id: piece_id }
    }

    pub closed spec fn spec_peer_id(self) -> usize {
        self.peer_id
    }

    pub closed spec fn spec_piece_id(self) -> usize {
        self.piece_id
    }

    pub fn peer_id(&self) -> (r: usize)
        ensures
            r == self.spec_peer_id(),
    {
        self.peer_id
    }

    pub fn piece_id(&self) -> (r: usize)
        ensures
            r == self.spec_piece_id(),
    {
        self.piece_id
    }
}

/// Whether every connected peer that does not choke us knows, for every piece,
/// whether it has it: these are the peers whose pieces are looked up.
pub open spec fn peers_track_pieces(d: Download) -> bool {
    forall|q: int| 0 <= q < d.peers@.len() && (#[trigger] d.peers@[q]).connected && !d.peers@[q].we_choked
        ==> d.peers@[q].has_piece@.len() >= d.pieces@.len()
}

/// Whether block position `(p1, b1)` comes before `(p2, b2)`: by piece, then by block.
pub open spec fn pos_before(p1: int, b1: int, p2: int, b2: int) -> bool {
    p1 < p2 || (p1 == p2 && b1 < b2)
}

/// The requests of `r` for blocks before position `(p, b)`.
pub open spec fn requests_before(r: Seq<BlockRequest>, p: int, b: int) -> Seq<BlockRequest>
    decreases r.len(),
{
    if r.len() == 0 {
        Seq::empty()
    } else {
        let rest = requests_before(r.drop_last(), p, b);
        if pos_before(r.last().piece_id as int, r.last().block_id as int, p, b) { rest.push(r.last()) } else { rest }
    }
}

/// How many requests of `r` go to peer `q`.
pub open spec fn requests_to(r: Seq<BlockRequest>, q: int) -> nat
    decreases r.len(),
{
    if r.len() == 0 {
        0
    } else {
        requests_to(r.drop_last(), q) + if r.last().peer_id == q { 1nat } else { 0nat }
    }
}

/// Whether peer `q` can be asked for a block of piece `piece`, given `pending` more
/// requests to it in this tick: it is connected, not choking us, has the piece,
/// and has fewer than the allowed number of requests outstanding.
pub open spec fn peer_can_take(d: Download, q: int, piece: int, pending: int) -> bool {
    &&& 0 <= q < d.peers@.len()
    &&& d.peers@[q].connected
    &&& !d.peers@[q].we_choked
    &&& d.peers@[q].has_piece@[piece]
    &&& d.peers@[q].outstanding_block_requests + pending < MAX_OUTSTANDING_REQUESTS_PER_PEER
}

/// Whether `q` is the first peer that can be asked for a block of `piece`, after the
/// requests `earlier`.
pub open spec fn chosen_peer(d: Download, piece: int, earlier: Seq<BlockRequest>, q: int) -> bool {
    &&& peer_can_take(d, q, piece, requests_to(earlier, q) as int)
    &&& forall|q2: int| 0 <= q2 < q ==> !#[trigger] peer_can_take(d, q2, piece, requests_to(earlier, q2) as int)
}

/// Whether no peer can be asked for a block of `piece`, after the requests `earlier`.
pub open spec fn no_peer_can_take(d: Download, piece: int, earlier: Seq<BlockRequest>) -> bool {
    forall|q: int| 0 <= q < d.peers@.len() ==> !#[trigger] peer_can_take(d, q, piece, requests_to(earlier, q) as int)
}

/// Whether block `b` of piece `p` is still wanted: neither it nor its piece is
/// complete, and it was not requested yet.
pub open spec fn wants_block(d: Download, p: int, b: int) -> bool {
    &&& 0 <= p < d.pieces@.len()
    &&& !d.pieces@[p].downloaded
    &&& 0 <= b < d.pieces@[p].blocks@.len()
    &&& !d.pieces@[p].blocks@[b].downloaded
    &&& d.pieces@[p].blocks@[b].request_record is None
}

/// Whether `r` requests block `b` of piece `p`.
pub open spec fn is_requested(r: Seq<BlockRequest>, p: int, b: int) -> bool {
    exists|k: int| 0 <= k < r.len() && (#[trigger] r[k]).piece_id == p && r[k].block_id == b
}

/// Whether `r` is the requests of one tick: going through the wanted blocks in
/// order, each gets a request to the first peer that can take it, until the
/// per-tick limit is reached; a wanted block gets none only where no peer can
/// take it or the limit was reached before it.
pub open spec fn is_request_plan(d: Download, r: Seq<BlockRequest>) -> bool {
    &&& r.len() <= MAX_REQUESTS_PER_TICK_PER_DOWNLOAD
    &&& forall|k: int| 0 <= k < r.len() ==> {
        &&& (#[trigger] r[k]).download_id == d.id
        &&& wants_block(d, r[k].piece_id as int, r[k].block_id as int)
        &&& chosen_peer(d, r[k].piece_id as int, r.take(k), r[k].peer_id as int)
    }
    &&& forall|j: int, k: int| 0 <= j < k < r.len() ==>
        pos_before((#[trigger] r[j]).piece_id as int, r[j].block_id as int, (#[trigger] r[k]).piece_id as int, r[k].block_id as int)
    &&& forall|p: int, b: int| #[trigger] wants_block(d, p, b) && !is_requested(r, p, b)
        && requests_before(r, p, b).len() < MAX_REQUESTS_PER_TICK_PER_DOWNLOAD
        ==> no_peer_can_take(d, p, requests_before(r, p, b))
}

proof fn lemma_requests_before_all(r: Seq<BlockRequest>, p: int, b: int)
    requires
        forall|k: int| 0 <= k < r.len() ==> pos_before((#[trigger] r[k]).piece_id as int, r[k].block_id as int, p, b),
    ensures
        requests_before(r, p, b) == r,
    decreases r.len(),
{
    if r.len() > 0 {
        let s = r.drop_last();
        assert forall|k: int| 0 <= k < s.len() implies pos_before((#[trigger] s[k]).piece_id as int, s[k].block_id as int, p, b) by {
            assert(s[k] == r[k]);
        }
        lemma_requests_before_all(s, p, b);
        assert(s.push(r.last()) =~= r);
    }
}

proof fn lemma_requests_to_push(r: Seq<BlockRequest>, x: BlockRequest, q: int)
    ensures
        requests_to(r.push(x), q) == requests_to(r, q) + if x.peer_id == q { 1nat } else { 0nat },
{
    assert(r.push(x).drop_last() =~= r);
}

proof fn lemma_requests_to_bound(r: Seq<BlockRequest>, q: int)
    ensures
        requests_to(r, q) <= r.len(),
    decreases r.len(),
{
    if r.len() > 0 {
        lemma_requests_to_bound(r.drop_last(), q);
    }
}

/// The first peer that can take a block of `piece_id`, given the requests already
/// planned for each peer in `added`.
fn find_peer(download: &Download, piece_id: usize, added: &Vec<i32>) -> (r: Option<usize>)
    requires
        piece_id < download.pieces@.len(),
        peers_track_pieces(*download),
        added@.len() == download.peers@.len(),
        forall|q: int| 0 <= q < added@.len() ==> 0 <= #[trigger] added@[q] <= 100,
    ensures
        r matches Some(q) ==> peer_can_take(*download, q as int, piece_id as int, added@[q as int] as int)
            && forall|q2: int| 0 <= q2 < q ==> !#[trigger] peer_can_take(*download, q2, piece_id as int, added@[q2] as int),
        r is None ==> forall|q: int| 0 <= q < download.peers@.len() ==>
            !#[trigger] peer_can_take(*download, q, piece_id as int, added@[q] as int),
{
    let mut peer_index: usize = 0;
    while peer_index < download.peers.len()
        invariant
            peer_index <= download.peers@.len(),
            piece_id < download.pieces@.len(),
            peers_track_pieces(*download),
            added@.len() == download.peers@.len(),
            forall|q: int| 0 <= q < added@.len() ==> 0 <= #[trigger] added@[q] <= 100,
            forall|q2: int| 0 <= q2 < peer_index ==> !#[trigger] peer_can_take(*download, q2, piece_id as int, added@[q2] as int),
        decreases download.peers.len() - peer_index,
    {
        let peer = &download.peers[peer_index];
        if peer.connected && !peer.we_choked && peer.has_piece[piece_id]
            && (peer.outstanding_block_requests as i64) + (added[peer_index] as i64) < (MAX_OUTSTANDING_REQUESTS_PER_PEER as i64) {
            return Some(peer_index);
        }
        peer_index = peer_index + 1;
    }
    None
}

/// Whether `r` is a partial plan up to block position `(p, b)`: the part of
/// `is_request_plan` that concerns positions before `(p, b)`, with `added`
/// counting the requests to each peer.
pub open spec fn plan_so_far(d: Download, r: Seq<BlockRequest>, added: Seq<i32>, p: int, b: int) -> bool {
    &&& r.len() <= MAX_REQUESTS_PER_TICK_PER_DOWNLOAD
    &&& forall|k: int| 0 <= k < r.len() ==> {
        &&& (#[trigger] r[k]).download_id == d.id
        &&& wants_block(d, r[k].piece_id as int, r[k].block_id as int)
        &&& chosen_peer(d, r[k].piece_id as int, r.take(k), r[k].peer_id as int)
        &&& pos_before(r[k].piece_id as int, r[k].block_id as int, p, b)
    }
    &&& forall|j: int, k: int| 0 <= j < k < r.len() ==>
        pos_before((#[trigger] r[j]).piece_id as int, r[j].block_id as int, (#[trigger] r[k]).piece_id as int, r[k].block_id as int)
    &&& added.len() == d.peers@.len()
    &&& forall|q: int| 0 <= q < added.len() ==> #[trigger] added[q] == requests_to(r, q) && 0 <= added[q] <= 100
    &&& forall|p2: int, b2: int| #[trigger] wants_block(d, p2, b2) && pos_before(p2, b2, p, b) && !is_requested(r, p2, b2)
        && requests_before(r, p2, b2).len() < MAX_REQUESTS_PER_TICK_PER_DOWNLOAD
        ==> no_peer_can_take(d, p2, requests_before(r, p2, b2))
}

/// Extends a partial plan by a request for the block at `(p, b)`.
proof fn lemma_plan_push(d: Download, r: Seq<BlockRequest>, added: Seq<i32>, p: int, b: int, x: BlockRequest)
    requires
        plan_so_far(d, r, added, p, b),
        r.len() < MAX_REQUESTS_PER_TICK_PER_DOWNLOAD,
        x.piece_id == p,
        x.block_id == b,
        x.download_id == d.id,
        wants_block(d, p, b),
        chosen_peer(d, p, r, x.peer_id as int),
        x.peer_id < added.len(),
    ensures
        plan_so_far(d, r.push(x), added.update(x.peer_id as int, (added[x.peer_id as int] + 1) as i32), p, b + 1),
{
    let r2 = r.push(x);
    let added2 = added.update(x.peer_id as int, (added[x.peer_id as int] + 1) as i32);
    assert(r2.take(r.len() as int) =~= r);
    assert forall|k: int| 0 <= k < r.len() implies r2.take(k) == r.take(k) by {
        assert(r2.take(k) =~= r.take(k));
    }
    assert forall|k: int| 0 <= k < r2.len() implies {
        &&& (#[trigger] r2[k]).download_id == d.id
        &&& wants_block(d, r2[k].piece_id as int, r2[k].block_id as int)
        &&& chosen_peer(d, r2[k].piece_id as int, r2.take(k), r2[k].peer_id as int)
        &&& pos_before(r2[k].piece_id as int, r2[k].block_id as int, p, b + 1)
    } by {
        if k < r.len() {
            assert(r2[k] == r[k]);
            assert(r2.take(k) == r.take(k));
        }
    }
    assert forall|q: int| 0 <= q < added2.len() implies #[trigger] added2[q] == requests_to(r2, q) && 0 <= added2[q] <= 100 by {
        lemma_requests_to_push(r, x, q);
        lemma_requests_to_bound(r, q);
    }
    assert forall|p2: int, b2: int| #[trigger] wants_block(d, p2, b2) && pos_before(p2, b2, p, b + 1) && !is_requested(r2, p2, b2)
        && requests_before(r2, p2, b2).len() < MAX_REQUESTS_PER_TICK_PER_DOWNLOAD
        implies no_peer_can_take(d, p2, requests_before(r2, p2, b2)) by {
        assert(r2.drop_last() =~= r);
        if p2 == p && b2 == b {
            assert(r2[r.len() as int] == x);
        } else {
            assert(!pos_before(p, b, p2, b2));
            assert(requests_before(r2, p2, b2) == requests_before(r, p2, b2));
            if is_requested(r, p2, b2) {
                let k = choose|k: int| 0 <= k < r.len() && (#[trigger] r[k]).piece_id == p2 && r[k].block_id == b2;
                assert(r2[k] == r[k]);
            }
        }
    }
}

/// Skips the block at `(p, b)`, for which no peer can be asked.
proof fn lemma_plan_skip(d: Download, r: Seq<BlockRequest>, added: Seq<i32>, p: int, b: int)
    requires
        plan_so_far(d, r, added, p, b),
        wants_block(d, p, b) ==> no_peer_can_take(d, p, r),
    ensures
        plan_so_far(d, r, added, p, b + 1),
{
    lemma_requests_before_all(r, p, b);
    assert forall|p2: int, b2: int| #[trigger] wants_block(d, p2, b2) && pos_before(p2, b2, p, b + 1) && !is_requested(r, p2, b2)
        && requests_before(r, p2, b2).len() < MAX_REQUESTS_PER_TICK_PER_DOWNLOAD
        implies no_peer_can_take(d, p2, requests_before(r, p2, b2)) by {
        if p2 == p && b2 == b {
        }
    }
}

/// Moves a partial plan on to the next piece, when the blocks of this one are
/// done with: all were considered, or the per-tick limit is reached, or the piece
/// is complete.
proof fn lemma_plan_next_piece(d: Download, r: Seq<BlockRequest>, added: Seq<i32>, p: int, b: int)
    requires
        plan_so_far(d, r, added, p, b),
        0 <= p < d.pieces@.len(),
        d.pieces@[p].downloaded || b >= d.pieces@[p].blocks@.len() || r.len() >= MAX_REQUESTS_PER_TICK_PER_DOWNLOAD,
    ensures
        plan_so_far(d, r, added, p + 1, 0),
{
    assert forall|p2: int, b2: int| #[trigger] wants_block(d, p2, b2) && pos_before(p2, b2, p + 1, 0) && !is_requested(r, p2, b2)
        && requests_before(r, p2, b2).len() < MAX_REQUESTS_PER_TICK_PER_DOWNLOAD
        implies no_peer_can_take(d, p2, requests_before(r, p2, b2)) by {
        if p2 == p && b2 >= b {
            lemma_requests_before_all(r, p2, b2);
        }
    }
}

/// Plans the block requests of one tick (see `is_request_plan`).
fn plan_block_requests(download: &Download) -> (r: (Vec<BlockRequest>, Vec<i32>))
    requires
        peers_track_pieces(*download),
    ensures
        is_request_plan(*download, r.0@),
        r.1@.len() == download.peers@.len(),
        forall|q: int| 0 <= q < r.1@.len() ==> #[trigger] r.1@[q] == requests_to(r.0@, q) && 0 <= r.1@[q] <= 100,
{
    let n_peers = download.peers.len();
    let mut result: Vec<BlockRequest> = Vec::new();
    let mut added: Vec<i32> = vec![0; n_peers];
    assert(plan_so_far(*download, result@, added@, 0, 0));
    let mut p: usize = 0;
    while p < download.pieces.len()
        invariant
            p <= download.pieces@.len(),
            peers_track_pieces(*download),
            plan_so_far(*download, result@, added@, p as int, 0),
        decreases download.pieces.len() - p,
    {
        let piece = &download.pieces[p];
        if !piece.downloaded {
            let mut b: usize = 0;
            while b < piece.blocks.len() && result.len() < MAX_REQUESTS_PER_TICK_PER_DOWNLOAD
                invariant
                    p < download.pieces@.len(),
                    *piece == download.pieces@[p as int],
                    !piece.downloaded,
                    b <= piece.blocks@.len(),
                    peers_track_pieces(*download),
                    plan_so_far(*download, result@, added@, p as int, b as int),
                decreases piece.blocks.len() - b,
            {
                let block = &piece.blocks[b];
                if !block.downloaded && block.request_record.is_none() {
                    assert(wants_block(*download, p as int, b as int));
                    match find_peer(download, p, &added) {
                        Some(q) => {
                            let x = BlockRequest { block_id: b, download_id: download.id, piece_id: p, peer_id: q };
                            proof {
                                assert(added@[q as int] == requests_to(result@, q as int));
                                assert forall|q2: int| 0 <= q2 < q implies !#[trigger] peer_can_take(*download, q2, p as int, requests_to(result@, q2) as int) by {
                                    assert(added@[q2] == requests_to(result@, q2));
                                }
                                assert(chosen_peer(*download, p as int, result@, q as int));
                                lemma_plan_push(*download, result@, added@, p as int, b as int, x);
                            }
                            result.push(x);
                            let count = added[q];
                            added.set(q, count + 1);
                        },
                        None => {
                            proof {
                                assert forall|q2: int| 0 <= q2 < download.peers@.len() implies !#[trigger] peer_can_take(*download, q2, p as int, requests_to(result@, q2) as int) by {
                                    assert(added@[q2] == requests_to(result@, q2));
                                }
                            }
                            proof { lemma_plan_skip(*download, result@, added@, p as int, b as int); }
                        },
                    }
                } else {
                    proof { lemma_plan_skip(*download, result@, added@, p as int, b as int); }
                }
                b = b + 1;
            }
            proof { lemma_plan_next_piece(*download, result@, added@, p as int, b as int); }
        } else {
            proof { lemma_plan_next_piece(*download, result@, added@, p as int, 0); }
        }
        p = p + 1;
    }
    proof {
        assert forall|p2: int, b2: int| #[trigger] wants_block(*download, p2, b2) && !is_requested(result@, p2, b2)
            && requests_before(result@, p2, b2).len() < MAX_REQUESTS_PER_TICK_PER_DOWNLOAD
            implies no_peer_can_take(*download, p2, requests_before(result@, p2, b2)) by {
            assert(pos_before(p2, b2, p as int, 0));
        }
    }
    (result, added)
}

/// Whether `block` is `old` with a record that it was requested from `peer_id` at `now`.
pub open spec fn block_requested_from(block: Block, old: Block, peer_id: usize, now: u64) -> bool {
    block == (Block { request_record: Some(BlockRequestRecord { peer_id: peer_id, time: now }), ..old })
}

/// Whether the pieces `after` are `before` with the blocks that `r` requests
/// recorded as requested at `now`, and nothing else changed.
pub open spec fn requests_recorded(before: Seq<crate::download::Piece>, after: Seq<crate::download::Piece>, r: Seq<BlockRequest>, now: u64) -> bool {
    &&& after.len() == before.len()
    &&& forall|p: int| 0 <= p < before.len() ==> {
        &&& (#[trigger] after[p]).downloaded == before[p].downloaded
        &&& after[p].sha == before[p].sha
        &&& after[p].offset == before[p].offset
        &&& after[p].len == before[p].len
        &&& after[p].blocks@.len() == before[p].blocks@.len()
    }
    &&& forall|k: int| 0 <= k < r.len() ==> block_requested_from(
        after[(#[trigger] r[k]).piece_id as int].blocks@[r[k].block_id as int],
        before[r[k].piece_id as int].blocks@[r[k].block_id as int], r[k].peer_id, now)
    &&& forall|p: int, b: int| 0 <= p < before.len() && 0 <= b < before[p].blocks@.len() && !is_requested(r, p, b)
        ==> #[trigger] after[p].blocks@[b] == before[p].blocks@[b]
}

/// Decides which blocks to request from which peers in this tick (see
/// `is_request_plan`), records each as requested at `now` (milliseconds since the
/// epoch), and counts the requests as outstanding with their peers.
pub fn decide_block_requests(download: &mut Download, now: u64) -> (r: Vec<BlockRequest>)
    requires
        peers_track_pieces(*old(download)),
    ensures
        is_request_plan(*old(download), r@),
        requests_recorded(old(download).pieces@, final(download).pieces@, r@, now),
        final(download).peers@.len() == old(download).peers@.len(),
        forall|q: int| 0 <= q < old(download).peers@.len() ==> #[trigger] final(download).peers@[q] == (Peer {
            outstanding_block_requests: (old(download).peers@[q].outstanding_block_requests + requests_to(r@, q)) as i32,
            ..old(download).peers@[q]
        }),
        *final(download) == (Download { pieces: final(download).pieces, peers: final(download).peers, ..*old(download) }),
{
    let ghost d0 = *download;
    let (plan, added) = plan_block_requests(download);
    let mut i: usize = 0;
    while i < plan.len()
        invariant
            i <= plan@.len(),
            is_request_plan(d0, plan@),
            requests_recorded(d0.pieces@, download.pieces@, plan@.take(i as int), now),
            *download == (Download { pieces: download.pieces, ..d0 }),
        decreases plan.len() - i,
    {
        let req = plan[i];
        assert(plan@.take(i + 1) =~= plan@.take(i as int).push(req));
        assert(wants_block(d0, req.piece_id as int, req.block_id as int));
        proof {
            assert(!is_requested(plan@.take(i as int), req.piece_id as int, req.block_id as int)) by {
                if is_requested(plan@.take(i as int), req.piece_id as int, req.block_id as int) {
                    let k = choose|k: int| 0 <= k < i && (#[trigger] plan@.take(i as int)[k]).piece_id == req.piece_id
                        && plan@.take(i as int)[k].block_id == req.block_id;
                    assert(plan@[k] == plan@.take(i as int)[k]);
                    assert(pos_before(plan@[k].piece_id as int, plan@[k].block_id as int, plan@[i as int].piece_id as int, plan@[i as int].block_id as int));
                }
            }
        }
        let ghost before = download.pieces@;
        download.set_block_request_record(req.piece_id, req.block_id, Some(BlockRequestRecord { peer_id: req.peer_id, time: now }));
        proof {
            let t = plan@.take(i + 1);
            assert forall|k: int| 0 <= k < t.len() implies block_requested_from(
                download.pieces@[(#[trigger] t[k]).piece_id as int].blocks@[t[k].block_id as int],
                d0.pieces@[t[k].piece_id as int].blocks@[t[k].block_id as int], t[k].peer_id, now) by {
                if k < i {
                    assert(t[k] == plan@.take(i as int)[k]);
                    assert(pos_before(plan@[k].piece_id as int, plan@[k].block_id as int, plan@[i as int].piece_id as int, plan@[i as int].block_id as int));
                    assert(wants_block(d0, t[k].piece_id as int, t[k].block_id as int));
                }
            }
            assert forall|p: int, b: int| 0 <= p < d0.pieces@.len() && 0 <= b < d0.pieces@[p].blocks@.len() && !is_requested(t, p, b)
                implies #[trigger] download.pieces@[p].blocks@[b] == d0.pieces@[p].blocks@[b] by {
                assert(t[i as int] == req);
                if is_requested(plan@.take(i as int), p, b) {
                    let k = choose|k: int| 0 <= k < i && (#[trigger] plan@.take(i as int)[k]).piece_id == p
                        && plan@.take(i as int)[k].block_id == b;
                    assert(t[k] == plan@.take(i as int)[k]);
                }
            }
        }
        i = i + 1;
    }
    assert(plan@.take(plan@.len() as int) =~= plan@);
    let ghost d1 = *download;
    let mut q: usize = 0;
    while q < download.peers.len()
        invariant
            q <= download.peers@.len(),
            download.peers@.len() == d0.peers@.len(),
            added@.len() == d0.peers@.len(),
            forall|j: int| 0 <= j < added@.len() ==> #[trigger] added@[j] == requests_to(plan@, j) && 0 <= added@[j] <= 100,
            is_request_plan(d0, plan@),
            forall|j: int| 0 <= j < q ==> #[trigger] download.peers@[j] == (Peer {
                outstanding_block_requests: (d0.peers@[j].outstanding_block_requests + requests_to(plan@, j)) as i32,
                ..d0.peers@[j]
            }),
            forall|j: int| q <= j < d0.peers@.len() ==> #[trigger] download.peers@[j] == d0.peers@[j],
            *download == (Download { peers: download.peers, ..d1 }),
        decreases download.peers.len() - q,
    {
        let count = added[q];
        assert(download.peers@[q as int] == d0.peers@[q as int]);
        proof { lemma_outstanding_bounded(d0, plan@, q as int); }
        download.add_outstanding_block_requests(q, count);
        q = q + 1;
    }
    plan
}

/// Takes all the blocks that peers asked for, oldest first, to be served.
pub fn decide_incoming_block_requests(download: &mut Download) -> (r: Vec<IncomingBlockRequest>)
    ensures
        r@ == old(download).pending_block_requests@,
        final(download).pending_block_requests@.len() == 0,
        *final(download) == (Download { pending_block_requests: final(download).pending_block_requests, ..*old(download) }),
{
    let mut result: Vec<IncomingBlockRequest> = Vec::new();
    let ghost all = download.pending_block_requests@;
    while download.pending_block_requests.len() > 0
        invariant
            all == result@ + download.pending_block_requests@,
            *download == (Download { pending_block_requests: download.pending_block_requests, ..*old(download) }),
            all == old(download).pending_block_requests@,
        decreases download.pending_block_requests@.len(),
    {
        let ghost before = download.pending_block_requests@;
        match download.pending_block_requests.pop_front() {
            Some(request) => {
                assert(before == seq![request] + download.pending_block_requests@);
                result.push(request);
                assert(all =~= result@ + download.pending_block_requests@);
            },
            None => {},
        }
    }
    assert(all =~= result@);
    result
}

/// Whether a peer is one to reconnect to, before the time check: it is not
/// connected, was announced by a tracker at a port other than ours, is not being
/// connected to, and was not tried too often.
pub open spec fn reconnect_eligible(peer: Peer) -> bool {
    &&& !peer.connected
    &&& peer.peer_info is Some
    &&& peer.peer_info->0.port != PORT as u64
    &&& !peer.being_connected
    &&& peer.reconnect_attempts < MAX_PEER_RECONNECT_ATTEMPTS
}

/// Whether to reconnect to a peer at time `now`: it is eligible and the last
/// attempt was at least the minimal interval ago.
pub open spec fn should_reconnect(peer: Peer, now: u64) -> bool {
    &&& reconnect_eligible(peer)
    &&& now - peer.last_reconnect_attempt >= MIN_PEER_RECONNECT_INTERVAL_MS
}

/// Whether every eligible peer was last tried no later than `now`, so that the time
/// since can be measured.
pub open spec fn reconnect_times_known(download: Download, now: u64) -> bool {
    forall|q: int| 0 <= q < download.peers@.len() && reconnect_eligible(#[trigger] download.peers@[q])
        ==> download.peers@[q].last_reconnect_attempt <= now
}

/// The peers to reconnect to at time `now` (milliseconds since the epoch), in
/// order: none once the download is complete, else those for which
/// `should_reconnect` holds.
pub fn decide_peers_to_reconnect(download: &Download, now: u64) -> (r: Vec<usize>)
    requires
        !download.downloaded ==> reconnect_times_known(*download, now),
    ensures
        download.downloaded ==> r@.len() == 0,
        !download.downloaded ==> {
            &&& forall|k: int| 0 <= k < r@.len() ==> (#[trigger] r@[k]) < download.peers@.len()
                && should_reconnect(download.peers@[r@[k] as int], now)
            &&& forall|j: int, k: int| 0 <= j < k < r@.len() ==> (#[trigger] r@[j]) < (#[trigger] r@[k])
            &&& forall|q: int| 0 <= q < download.peers@.len() && should_reconnect(#[trigger] download.peers@[q], now)
                ==> r@.contains(q as usize)
        },
{
    let mut result: Vec<usize> = Vec::new();
    if download.is_downloaded() {
        return result;
    }
    let mut peer_id: usize = 0;
    while peer_id < download.peers.len()
        invariant
            peer_id <= download.peers@.len(),
            reconnect_times_known(*download, now),
            forall|k: int| 0 <= k < result@.len() ==> (#[trigger] result@[k]) < peer_id
                && should_reconnect(download.peers@[result@[k] as int], now),
            forall|j: int, k: int| 0 <= j < k < result@.len() ==> (#[trigger] result@[j]) < (#[trigger] result@[k]),
            forall|q: int| 0 <= q < peer_id && should_reconnect(#[trigger] download.peers@[q], now)
                ==> result@.contains(q as usize),
        decreases download.peers.len() - peer_id,
    {
        let peer = &download.peers[peer_id];
        let mut skip = false;
        if peer.connected {
            skip = true;
        } else {
            match &peer.peer_info {
                Some(peer_info) => {
                    if peer_info.port == PORT as u64 {
                        skip = true;
                    }
                },
                None => {
                    skip = true;
                },
            }
        }
        if !skip && peer.being_connected {
            skip = true;
        }
        if !skip && peer.reconnect_attempts >= MAX_PEER_RECONNECT_ATTEMPTS {
            skip = true;
        }
        if !skip {
            assert(reconnect_eligible(download.peers@[peer_id as int]));
            if now - peer.last_reconnect_attempt < MIN_PEER_RECONNECT_INTERVAL_MS {
                skip = true;
            }
        }
        let ghost before = result@;
        if !skip {
            result.push(peer_id);
            assert forall|q: int| 0 <= q < peer_id + 1 && should_reconnect(#[trigger] download.peers@[q], now)
                implies result@.contains(q as usize) by {
                if q < peer_id {
                    let k = choose|k: int| 0 <= k < before.len() && before[k] == q as usize;
                    assert(result@[k] == before[k]);
                } else {
                    assert(result@[before.len() as int] == peer_id);
                }
            }
        }
        peer_id = peer_id + 1;
    }
    result
}

/// The `(peer, piece)` pairs to announce for one completed piece: the connected
/// peers among the first `n` that do not have it, in order.
pub open spec fn have_targets(peers: Seq<Peer>, piece: usize, n: nat) -> Seq<(usize, usize)>
    decreases n,
{
    if n == 0 {
        Seq::empty()
    } else {
        let rest = have_targets(peers, piece, (n - 1) as nat);
        let q = (n - 1) as int;
        if !peers[q].has_piece@[piece as int] && peers[q].connected { rest.push(((n - 1) as usize, piece)) } else { rest }
    }
}

/// The `(peer, piece)` pairs to announce for the completed pieces `recent`, piece by piece.
pub open spec fn have_broadcast_list(peers: Seq<Peer>, recent: Seq<usize>) -> Seq<(usize, usize)>
    decreases recent.len(),
{
    if recent.len() == 0 {
        Seq::empty()
    } else {
        have_broadcast_list(peers, recent.drop_last()) + have_targets(peers, recent.last(), peers.len())
    }
}

/// The pairs that a list of broadcasts stands for.
pub open spec fn broadcast_pairs(r: Seq<HaveBroadcast>) -> Seq<(usize, usize)> {
    r.map_values(|h: HaveBroadcast| (h.spec_peer_id(), h.spec_piece_id()))
}

/// Decides which peers to tell about the pieces completed since the last tick: for
/// each such piece, the connected peers that do not have it. The list of recently
/// completed pieces is then emptied.
pub fn decide_have_broadcasts(download: &mut Download) -> (r: Vec<HaveBroadcast>)
    requires
        forall|i: int, q: int| 0 <= i < old(download).recently_downloaded_pieces@.len() && 0 <= q < old(download).peers@.len()
            ==> (#[trigger] old(download).recently_downloaded_pieces@[i]) < (#[trigger] old(download).peers@[q]).has_piece@.len(),
    ensures
        broadcast_pairs(r@) == have_broadcast_list(old(download).peers@, old(download).recently_downloaded_pieces@),
        final(download).recently_downloaded_pieces@.len() == 0,
        *final(download) == (Download { recently_downloaded_pieces: final(download).recently_downloaded_pieces, ..*old(download) }),
{
    let mut result: Vec<HaveBroadcast> = Vec::new();
    let ghost peers = download.peers@;
    let ghost recent = download.recently_downloaded_pieces@;
    let mut i: usize = 0;
    while i < download.recently_downloaded_pieces.len()
        invariant
            i <= recent.len(),
            peers == download.peers@,
            recent == download.recently_downloaded_pieces@,
            *download == *old(download),
            forall|i2: int, q: int| 0 <= i2 < recent.len() && 0 <= q < peers.len()
                ==> (#[trigger] recent[i2]) < (#[trigger] peers[q]).has_piece@.len(),
            broadcast_pairs(result@) == have_broadcast_list(peers, recent.take(i as int)),
        decreases download.recently_downloaded_pieces.len() - i,
    {
        let recent_piece = download.recently_downloaded_pieces[i];
        let ghost start = broadcast_pairs(result@);
        let mut q: usize = 0;
        while q < download.peers.len()
            invariant
                q <= peers.len(),
                i < recent.len(),
                recent_piece == recent[i as int],
                peers == download.peers@,
                forall|i2: int, q2: int| 0 <= i2 < recent.len() && 0 <= q2 < peers.len()
                    ==> (#[trigger] recent[i2]) < (#[trigger] peers[q2]).has_piece@.len(),
                broadcast_pairs(result@) == start + have_targets(peers, recent_piece, q as nat),
            decreases download.peers.len() - q,
        {
            let peer = &download.peers[q];
            assert(recent_piece < peers[q as int].has_piece@.len());
            let ghost before = result@;
            if !peer.has_piece[recent_piece] && peer.connected {
                result.push(HaveBroadcast::new(q, recent_piece));
                assert(broadcast_pairs(result@) =~= broadcast_pairs(before).push((q, recent_piece)));
            }
            q = q + 1;
        }
        assert(recent.take(i + 1).drop_last() =~= recent.take(i as int));
        i = i + 1;
    }
    assert(recent.take(recent.len() as int) =~= recent);
    download.recently_downloaded_pieces = Vec::new();
    result
}

proof fn lemma_outstanding_prefix(d: Download, r: Seq<BlockRequest>, q: int, n: int)
    requires
        is_request_plan(d, r),
        0 <= q < d.peers@.len(),
        0 <= n <= r.len(),
    ensures
        d.peers@[q].outstanding_block_requests + requests_to(r.take(n), q)
            <= if d.peers@[q].outstanding_block_requests > MAX_OUTSTANDING_REQUESTS_PER_PEER {
                d.peers@[q].outstanding_block_requests as int
            } else {
                MAX_OUTSTANDING_REQUESTS_PER_PEER as int
            },
    decreases n,
{
    if n > 0 {
        lemma_outstanding_prefix(d, r, q, n - 1);
        assert(r.take(n).drop_last() =~= r.take(n - 1));
        let x = r[n - 1];
        if x.peer_id == q {
            assert(chosen_peer(d, x.piece_id as int, r.take(n - 1), x.peer_id as int));
        }
    }
}

/// The requests of one tick never bring a peer above the allowed number of
/// outstanding requests (nor further above it, where it already was).
pub proof fn lemma_outstanding_bounded(d: Download, r: Seq<BlockRequest>, q: int)
    requires
        is_request_plan(d, r),
        0 <= q < d.peers@.len(),
    ensures
        d.peers@[q].outstanding_block_requests + requests_to(r, q)
            <= if d.peers@[q].outstanding_block_requests > MAX_OUTSTANDING_REQUESTS_PER_PEER {
                d.peers@[q].outstanding_block_requests as int
            } else {
                MAX_OUTSTANDING_REQUESTS_PER_PEER as int
            },
{
    lemma_outstanding_prefix(d, r, q, r.len() as int);
    assert(r.take(r.len() as int) =~= r);
}

/// A block requested in one tick is not wanted in the next: it is never requested
/// twice. And no block becomes wanted that was not wanted before.
pub proof fn lemma_no_repeated_requests(d: Download, r: Seq<BlockRequest>, now: u64, after: Download)
    requires
        is_request_plan(d, r),
        requests_recorded(d.pieces@, after.pieces@, r, now),
    ensures
        forall|k: int| 0 <= k < r.len() ==> !wants_block(after, (#[trigger] r[k]).piece_id as int, r[k].block_id as int),
        forall|p: int, b: int| #[trigger] wants_block(after, p, b) ==> wants_block(d, p, b) && !is_requested(r, p, b),
{
    assert forall|k: int| 0 <= k < r.len() implies !wants_block(after, (#[trigger] r[k]).piece_id as int, r[k].block_id as int) by {
        assert(wants_block(d, r[k].piece_id as int, r[k].block_id as int));
        assert(block_requested_from(
            after.pieces@[r[k].piece_id as int].blocks@[r[k].block_id as int],
            d.pieces@[r[k].piece_id as int].blocks@[r[k].block_id as int], r[k].peer_id, now));
    }
    assert forall|p: int, b: int| #[trigger] wants_block(after, p, b) implies wants_block(d, p, b) && !is_requested(r, p, b) by {
        if is_requested(r, p, b) {
            let k = choose|k: int| 0 <= k < r.len() && (#[trigger] r[k]).piece_id == p && r[k].block_id == b;
            assert(block_requested_from(
                after.pieces@[r[k].piece_id as int].blocks@[r[k].block_id as int],
                d.pieces@[r[k].piece_id as int].blocks@[r[k].block_id as int], r[k].peer_id, now));
        }
        assert(after.pieces@[p].blocks@[b] == d.pieces@[p].blocks@[b]);
    }
}


/// Filtering the requests to those before a position keeps no more of them, and
/// no more to any peer.
proof fn lemma_requests_before_fewer(r: Seq<BlockRequest>, p: int, b: int)
    ensures
        requests_before(r, p, b).len() <= r.len(),
        forall|q: int| #[trigger] requests_to(requests_before(r, p, b), q) <= requests_to(r, q),
    decreases r.len(),
{
    if r.len() > 0 {
        lemma_requests_before_fewer(r.drop_last(), p, b);
        let rest = requests_before(r.drop_last(), p, b);
        assert forall|q: int| #[trigger] requests_to(requests_before(r, p, b), q) <= requests_to(r, q) by {
            assert(requests_to(requests_before(r.drop_last(), p, b), q) <= requests_to(r.drop_last(), q));
            if pos_before(r.last().piece_id as int, r.last().block_id as int, p, b) {
                assert(rest.push(r.last()).drop_last() =~= rest);
            }
        }
    }
}

/// A wanted block is requested in a tick whenever some peer can take it: one that
/// is connected, does not choke us, has the piece, and stays below the allowed
/// number of outstanding requests with all of this tick's requests to it counted,
/// while the tick's limit is not reached. How the connection to the peer was opened
/// (by us or by it) plays no part.
pub proof fn lemma_able_peer_is_asked(d: Download, r: Seq<BlockRequest>, p: int, b: int, q: int)
    requires
        is_request_plan(d, r),
        wants_block(d, p, b),
        0 <= q < d.peers@.len(),
        d.peers@[q].connected,
        !d.peers@[q].we_choked,
        p < d.peers@[q].has_piece@.len(),
        d.peers@[q].has_piece@[p],
        d.peers@[q].outstanding_block_requests + requests_to(r, q) < MAX_OUTSTANDING_REQUESTS_PER_PEER,
        r.len() < MAX_REQUESTS_PER_TICK_PER_DOWNLOAD,
    ensures
        is_requested(r, p, b),
{
    if !is_requested(r, p, b) {
        lemma_requests_before_fewer(r, p, b);
        let rb = requests_before(r, p, b);
        assert(requests_to(rb, q) <= requests_to(r, q));
        assert(no_peer_can_take(d, p, rb));
        assert(peer_can_take(d, q, p, requests_to(rb, q) as int));
    }
}

/// The targets for one piece among the first `n` peers are exactly the connected
/// peers among them that lack the piece.
proof fn lemma_have_targets_members(peers: Seq<Peer>, piece: usize, n: nat)
    requires
        n <= peers.len(),
        peers.len() <= usize::MAX,
    ensures
        forall|q: int| 0 <= q < n && (#[trigger] peers[q]).connected && !peers[q].has_piece@[piece as int]
            ==> have_targets(peers, piece, n).contains((q as usize, piece)),
        forall|k: int| 0 <= k < have_targets(peers, piece, n).len() ==> {
            let x = #[trigger] have_targets(peers, piece, n)[k];
            &&& x.0 < n
            &&& x.1 == piece
            &&& peers[x.0 as int].connected
            &&& !peers[x.0 as int].has_piece@[piece as int]
        },
    decreases n,
{
    if n > 0 {
        lemma_have_targets_members(peers, piece, (n - 1) as nat);
        let rest = have_targets(peers, piece, (n - 1) as nat);
        let t = have_targets(peers, piece, n);
        assert forall|q: int| 0 <= q < n && (#[trigger] peers[q]).connected && !peers[q].has_piece@[piece as int]
            implies t.contains((q as usize, piece)) by {
            if q < n - 1 {
                let k = choose|k: int| 0 <= k < rest.len() && rest[k] == (q as usize, piece);
                assert(t[k] == rest[k]);
            } else {
                assert(t[rest.len() as int] == (q as usize, piece));
            }
        }
        assert forall|k: int| 0 <= k < t.len() implies {
            let x = #[trigger] t[k];
            &&& x.0 < n
            &&& x.1 == piece
            &&& peers[x.0 as int].connected
            &&& !peers[x.0 as int].has_piece@[piece as int]
        } by {
            if k < rest.len() {
                assert(t[k] == rest[k]);
            }
        }
    }
}

/// Every connected peer that lacks a recently completed piece is told about it,
/// and only such peers are told, only about such pieces.
pub proof fn lemma_have_broadcasts_reach_every_peer(peers: Seq<Peer>, recent: Seq<usize>)
    requires
        peers.len() <= usize::MAX,
    ensures
        forall|i: int, q: int| 0 <= i < recent.len() && 0 <= q < peers.len() && (#[trigger] peers[q]).connected
            && !peers[q].has_piece@[(#[trigger] recent[i]) as int]
            ==> have_broadcast_list(peers, recent).contains((q as usize, recent[i])),
        forall|k: int| 0 <= k < have_broadcast_list(peers, recent).len() ==> {
            let x = #[trigger] have_broadcast_list(peers, recent)[k];
            &&& x.0 < peers.len()
            &&& recent.contains(x.1)
            &&& peers[x.0 as int].connected
            &&& !peers[x.0 as int].has_piece@[x.1 as int]
        },
    decreases recent.len(),
{
    if recent.len() > 0 {
        let front = recent.drop_last();
        lemma_have_broadcasts_reach_every_peer(peers, front);
        lemma_have_targets_members(peers, recent.last(), peers.len());
        let a = have_broadcast_list(peers, front);
        let t = have_targets(peers, recent.last(), peers.len());
        let l = have_broadcast_list(peers, recent);
        assert(l == a + t);
        assert forall|i: int, q: int| 0 <= i < recent.len() && 0 <= q < peers.len() && (#[trigger] peers[q]).connected
            && !peers[q].has_piece@[(#[trigger] recent[i]) as int]
            implies l.contains((q as usize, recent[i])) by {
            if i < recent.len() - 1 {
                assert(front[i] == recent[i]);
                let k = choose|k: int| 0 <= k < a.len() && a[k] == (q as usize, front[i]);
                assert(l[k] == a[k]);
            } else {
                let k = choose|k: int| 0 <= k < t.len() && t[k] == (q as usize, recent.last());
                assert(l[a.len() + k] == t[k]);
            }
        }
        assert forall|k: int| 0 <= k < l.len() implies {
            let x = #[trigger] l[k];
            &&& x.0 < peers.len()
            &&& recent.contains(x.1)
            &&& peers[x.0 as int].connected
            &&& !peers[x.0 as int].has_piece@[x.1 as int]
        } by {
            if k < a.len() {
                assert(l[k] == a[k]);
                let j = choose|j: int| 0 <= j < front.len() && front[j] == a[k].1;
                assert(recent[j] == front[j]);
            } else {
                assert(l[k] == t[k - a.len()]);
                assert(recent[recent.len() - 1] == recent.last());
            }
        }
    }
}

} // verus!
