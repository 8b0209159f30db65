//! The summary of each download that is written to disk for `list` to show.

use vstd::prelude::*;
use crate::download::{Download, Peer, Piece};
use crate::text::{decimal, u64_to_decimal};

verus! {

/// What is kept of a download between runs and shown by `list`.
#[derive(Debug)]
pub struct PersistentDownloadState {
    pub uploaded: u64,
    pub downloaded: u64,
    pub total_size: u64,
    pub incoming_peers: u32,
    pub outgoing_peers: u32,
    pub connected_peers: u32,
    pub downloaded_pieces: u32,
    pub total_pieces: usize,
    pub done: bool,
    pub name: String,
    pub they_interested: u32,
    pub we_unchoked: u32,
    pub download_speed: u64,
    pub peers: Vec<PersistentPeerState>,
}

/// What `list` shows of a peer. The two durations are in milliseconds.
#[derive(Debug)]
pub struct PersistentPeerState {
    pub id: usize,
    pub ip: String,
    pub port: String,
    pub outgoing: bool,
    pub connected: bool,
    pub being_connected: bool,
    pub we_choked: bool,
    pub they_interested: bool,
    pub reconnect_attempts: u32,
    pub last_reconnect_attempt: u64,
    pub last_incoming_message: u64,
}

/// The kinds of peers that the summary counts.
pub enum PeerKind {
    /// Connected to us.
    Incoming,
    /// Announced by a tracker.
    Outgoing,
    /// With an open connection.
    Connected,
    /// Connected and interested in our pieces.
    Interested,
    /// Connected and not choking us.
    Unchoking,
}

/// Whether `p` is a peer of kind `kind`.
pub open spec fn is_kind(kind: PeerKind, p: Peer) -> bool {
    match kind {
        PeerKind::Incoming => p.peer_info is None,
        PeerKind::Outgoing => p.peer_info is Some,
        PeerKind::Connected => p.connected,
        PeerKind::Interested => p.connected && p.they_interested,
        PeerKind::Unchoking => p.connected && !p.we_choked,
    }
}

/// How many peers of `peers` are of kind `kind`.
pub open spec fn count_peers(peers: Seq<Peer>, kind: PeerKind) -> nat
    decreases peers.len(),
{
    if peers.len() == 0 {
        0
    } else {
        count_peers(peers.drop_last(), kind) + if is_kind(kind, peers.last()) { 1nat } else { 0nat }
    }
}

/// How many pieces of `pieces` are complete.
pub open spec fn count_downloaded_pieces(pieces: Seq<Piece>) -> nat
    decreases pieces.len(),
{
    if pieces.len() == 0 {
        0
    } else {
        count_downloaded_pieces(pieces.drop_last()) + if pieces.last().downloaded { 1nat } else { 0nat }
    }
}

/// Whether the times of all peers of `d` are no later than `now`.
pub open spec fn peer_times_known(d: Download, now: u64) -> bool {
    forall|q: int| 0 <= q < d.peers@.len() ==> (#[trigger] d.peers@[q]).last_reconnect_attempt <= now
        && d.peers@[q].last_incoming_message <= now
}

/// Whether `s` is what `list` shows of peer `q` of `d` at time `now`.
pub open spec fn is_peer_state(s: PersistentPeerState, d: Download, q: int, now: u64) -> bool {
    let p = d.peers@[q];
    &&& s.id == q
    &&& s.ip@ == (if p.peer_info is Some { p.peer_info->0.ip@ } else { Seq::empty() })
    &&& s.port@ == (if p.peer_info is Some { decimal(p.peer_info->0.port as nat) } else { Seq::empty() })
    &&& s.outgoing == p.peer_info is Some
    &&& s.connected == p.connected
    &&& s.being_connected == p.being_connected
    &&& s.we_choked == p.we_choked
    &&& s.they_interested == p.they_interested
    &&& s.reconnect_attempts == p.reconnect_attempts
    &&& s.last_reconnect_attempt == now - p.last_reconnect_attempt
    &&& s.last_incoming_message == now - p.last_incoming_message
}

/// What `list` shows of each peer of a download at time `now` (milliseconds since the epoch).
pub fn get_persistent_peers(download: &Download, now: u64) -> (r: Vec<PersistentPeerState>)
    requires
        peer_times_known(*download, now),
    ensures
        r@.len() == download.peers@.len(),
        forall|q: int| 0 <= q < r@.len() ==> is_peer_state(#[trigger] r@[q], *download, q, now),
{
    let mut result: Vec<PersistentPeerState> = Vec::new();
    let mut q: usize = 0;
    while q < download.peers.len()
        invariant
            q <= download.peers@.len(),
            peer_times_known(*download, now),
            result@.len() == q,
            forall|k: int| 0 <= k < q ==> is_peer_state(#[trigger] result@[k], *download, k, now),
        decreases download.peers.len() - q,
    {
        let peer = &download.peers[q];
        let (ip, port) = match &peer.peer_info {
            Some(peer_info) => (peer_info.ip.clone(), u64_to_decimal(peer_info.port)),
            None => (String::new(), String::new()),
        };
        assert(download.peers@[q as int].last_reconnect_attempt <= now);
        result.push(PersistentPeerState {
            id: q,
            ip: ip,
            port: port,
            being_connected: peer.being_connected,
            connected: peer.connected,
            last_incoming_message: now - peer.last_incoming_message,
            last_reconnect_attempt: now - peer.last_reconnect_attempt,
            reconnect_attempts: peer.reconnect_attempts,
            outgoing: peer.peer_info.is_some(),
            they_interested: peer.they_interested,
            we_choked: peer.we_choked,
        });
        q = q + 1;
    }
    result
}

proof fn lemma_count_step(peers: Seq<Peer>, i: int, kind: PeerKind)
    requires
        0 <= i < peers.len(),
    ensures
        count_peers(peers.take(i + 1), kind) == count_peers(peers.take(i), kind) + if is_kind(kind, peers[i]) { 1nat } else { 0nat },
{
    assert(peers.take(i + 1).drop_last() =~= peers.take(i));
}

proof fn lemma_count_bound(peers: Seq<Peer>, kind: PeerKind)
    ensures
        count_peers(peers, kind) <= peers.len(),
    decreases peers.len(),
{
    if peers.len() > 0 {
        lemma_count_bound(peers.drop_last(), kind);
    }
}

/// The summary of a download at time `now`: its statistics, size and name, how
/// many of its peers are incoming, outgoing, connected, interested in us and not
/// choking us (the last two among the connected), how many pieces are complete, and
/// each peer as `get_persistent_peers` shows it. `download_speed` is passed on.
pub fn download_state(download: &Download, now: u64, download_speed: u64) -> (r: PersistentDownloadState)
    requires
        peer_times_known(*download, now),
        download.peers@.len() <= u32::MAX,
        download.pieces@.len() <= u32::MAX,
    ensures
        r.uploaded == download.stats.uploaded,
        r.downloaded == download.stats.downloaded,
        r.total_size == download.length as u64,
        r.incoming_peers == count_peers(download.peers@, PeerKind::Incoming),
        r.outgoing_peers == count_peers(download.peers@, PeerKind::Outgoing),
        r.connected_peers == count_peers(download.peers@, PeerKind::Connected),
        r.they_interested == count_peers(download.peers@, PeerKind::Interested),
        r.we_unchoked == count_peers(download.peers@, PeerKind::Unchoking),
        r.downloaded_pieces == count_downloaded_pieces(download.pieces@),
        r.total_pieces == download.pieces@.len(),
        r.done == download.downloaded,
        r.name == download.name,
        r.download_speed == download_speed,
        r.peers@.len() == download.peers@.len(),
        forall|q: int| 0 <= q < r.peers@.len() ==> is_peer_state(#[trigger] r.peers@[q], *download, q, now),
{
    let ghost peers = download.peers@;
    let mut incoming_peers: u32 = 0;
    let mut outgoing_peers: u32 = 0;
    let mut connected_peers: u32 = 0;
    let mut we_unchoked: u32 = 0;
    let mut they_interested: u32 = 0;
    let mut q: usize = 0;
    while q < download.peers.len()
        invariant
            q <= peers.len(),
            peers == download.peers@,
            peers.len() <= u32::MAX,
            incoming_peers == count_peers(peers.take(q as int), PeerKind::Incoming),
            outgoing_peers == count_peers(peers.take(q as int), PeerKind::Outgoing),
            connected_peers == count_peers(peers.take(q as int), PeerKind::Connected),
            they_interested == count_peers(peers.take(q as int), PeerKind::Interested),
            we_unchoked == count_peers(peers.take(q as int), PeerKind::Unchoking),
        decreases download.peers.len() - q,
    {
        proof {
            lemma_count_step(peers, q as int, PeerKind::Incoming);
            lemma_count_step(peers, q as int, PeerKind::Outgoing);
            lemma_count_step(peers, q as int, PeerKind::Connected);
            lemma_count_step(peers, q as int, PeerKind::Interested);
            lemma_count_step(peers, q as int, PeerKind::Unchoking);
            lemma_count_bound(peers.take(q + 1), PeerKind::Incoming);
            lemma_count_bound(peers.take(q + 1), PeerKind::Outgoing);
            lemma_count_bound(peers.take(q + 1), PeerKind::Connected);
            lemma_count_bound(peers.take(q + 1), PeerKind::Interested);
            lemma_count_bound(peers.take(q + 1), PeerKind::Unchoking);
        }
        let peer = &download.peers[q];
        assert(*peer == peers[q as int]);
        if peer.peer_info.is_none() {
            incoming_peers = incoming_peers + 1;
        } else {
            outgoing_peers = outgoing_peers + 1;
        }
        if peer.connected {
            connected_peers = connected_peers + 1;
            if peer.they_interested {
                they_interested = they_interested + 1;
            }
            if !peer.we_choked {
                we_unchoked = we_unchoked + 1;
            }
        }
        q = q + 1;
    }
    assert(peers.take(peers.len() as int) =~= peers);
    let ghost pieces = download.pieces@;
    let mut downloaded_pieces: u32 = 0;
    let mut p: usize = 0;
    while p < download.pieces.len()
        invariant
            p <= pieces.len(),
            pieces == download.pieces@,
            pieces.len() <= u32::MAX,
            downloaded_pieces == count_downloaded_pieces(pieces.take(p as int)),
            downloaded_pieces <= p,
        decreases download.pieces.len() - p,
    {
        assert(pieces.take(p + 1).drop_last() =~= pieces.take(p as int));
        if download.pieces[p].downloaded {
            downloaded_pieces = downloaded_pieces + 1;
        }
        p = p + 1;
    }
    assert(pieces.take(pieces.len() as int) =~= pieces);
    PersistentDownloadState {
        uploaded: download.stats.uploaded,
        downloaded: download.stats.downloaded,
        total_size: download.length as u64,
        incoming_peers: incoming_peers,
        outgoing_peers: outgoing_peers,
        connected_peers: connected_peers,
        downloaded_pieces: downloaded_pieces,
        total_pieces: download.pieces.len(),
        done: download.downloaded,
        they_interested: they_interested,
        we_unchoked: we_unchoked,
        name: download.name.clone(),
        peers: get_persistent_peers(download, now),
        download_speed: download_speed,
    }
}

/// Every peer is either incoming or outgoing: the two counts add up to the number
/// of peers, and the connected ones are among them.
pub proof fn lemma_peer_counts(peers: Seq<Peer>)
    ensures
        count_peers(peers, PeerKind::Incoming) + count_peers(peers, PeerKind::Outgoing) == peers.len(),
        count_peers(peers, PeerKind::Interested) <= count_peers(peers, PeerKind::Connected),
        count_peers(peers, PeerKind::Unchoking) <= count_peers(peers, PeerKind::Connected),
        count_peers(peers, PeerKind::Connected) <= peers.len(),
    decreases peers.len(),
{
    if peers.len() > 0 {
        lemma_peer_counts(peers.drop_last());
    }
}

} // verus!
