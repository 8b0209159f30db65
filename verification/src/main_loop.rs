//! The decisions of the main loop that are not about blocks: whom to connect to,
//! when to ask the tracker, and how the state changes as connections open or fail
//! and as announcements arrive.

use vstd::prelude::*;
use crate::announcement::{Announcement, GetAnnouncementRequest, PeerInfo};
use crate::config::{PORT, STATE_PERSISTENCE_INTERVAL_MS};
use crate::decider::{decide_peers_to_reconnect, reconnect_times_known, should_reconnect};
use crate::download::{has_peer_at, is_fresh_peer, peer_at, Download, Peer, Stats};
use crate::io_primitives::bytes_equal;
use crate::outgoing_connections::OpenConnectionRequest;
use crate::state_persistence::PersistentDownloadState;

verus! {

/// Whether a peer is one to open a connection to: not connected, announced by a
/// tracker at a port other than ours.
pub open spec fn connectable(peer: Peer) -> bool {
    &&& !peer.connected
    &&& peer.peer_info is Some
    &&& peer.peer_info->0.port != PORT as u64
}

/// Whether `r` asks to connect to peer `q` of download `d` as `my_id`.
pub open spec fn is_connection_request(r: OpenConnectionRequest, d: Download, q: int, my_id: Seq<char>) -> bool {
    &&& r.ip@ == d.peers@[q].peer_info->0.ip@
    &&& r.port == d.peers@[q].peer_info->0.port
    &&& r.my_id@ == my_id
    &&& r.peer_id == q
    &&& r.download_id == d.id as usize
    &&& r.info_hash@ == d.info_hash@
}

/// Whether `r` asks, in order, to connect to exactly the peers of `d` for which
/// `chosen` holds.
pub open spec fn requests_for(r: Seq<OpenConnectionRequest>, d: Download, my_id: Seq<char>, chosen: spec_fn(int) -> bool) -> bool {
    &&& forall|k: int| 0 <= k < r.len() ==> (#[trigger] r[k]).peer_id < d.peers@.len()
        && chosen(r[k].peer_id as int) && is_connection_request(r[k], d, r[k].peer_id as int, my_id)
    &&& forall|j: int, k: int| 0 <= j < k < r.len() ==> (#[trigger] r[j]).peer_id < (#[trigger] r[k]).peer_id
    &&& forall|q: int| 0 <= q < d.peers@.len() && #[trigger] chosen(q) ==> exists|k: int| 0 <= k < r.len() && r[k].peer_id == q
}

fn connection_request(download: &Download, peer_id: usize, my_id: &String) -> (r: OpenConnectionRequest)
    requires
        peer_id < download.peers@.len(),
        download.peers@[peer_id as int].peer_info is Some,
    ensures
        is_connection_request(r, *download, peer_id as int, my_id@),
{
    let info = download.peers[peer_id].peer_info.as_ref().unwrap();
    let mut info_hash: Vec<u8> = Vec::new();
    let mut i: usize = 0;
    while i < download.info_hash.len()
        invariant
            i <= download.info_hash@.len(),
            info_hash@ == download.info_hash@.take(i as int),
        decreases download.info_hash.len() - i,
    {
        info_hash.push(download.info_hash[i]);
        assert(info_hash@ =~= download.info_hash@.take(i + 1));
        i = i + 1;
    }
    assert(info_hash@ =~= download.info_hash@);
    OpenConnectionRequest {
        ip: info.ip.clone(),
        port: info.port,
        my_id: my_id.clone(),
        peer_id: peer_id,
        download_id: download.id as usize,
        info_hash: info_hash,
    }
}

/// Asks to connect to every peer that is not connected and was announced at a port
/// other than ours, and marks each as being connected.
pub fn request_new_connections(download: &mut Download, my_id: &String) -> (r: Vec<OpenConnectionRequest>)
    ensures
        requests_for(r@, *old(download), my_id@, |q: int| connectable(old(download).peers@[q])),
        final(download).peers@.len() == old(download).peers@.len(),
        forall|q: int| 0 <= q < old(download).peers@.len() ==> #[trigger] final(download).peers@[q] == if connectable(old(download).peers@[q]) {
            Peer { being_connected: true, ..old(download).peers@[q] }
        } else {
            old(download).peers@[q]
        },
        *final(download) == (Download { peers: final(download).peers, ..*old(download) }),
{
    let ghost d0 = *download;
    let mut result: Vec<OpenConnectionRequest> = Vec::new();
    let mut q: usize = 0;
    while q < download.peers.len()
        invariant
            q <= download.peers@.len(),
            download.peers@.len() == d0.peers@.len(),
            *download == (Download { peers: download.peers, ..d0 }),
            forall|j: int| 0 <= j < q ==> #[trigger] download.peers@[j] == if connectable(d0.peers@[j]) {
                Peer { being_connected: true, ..d0.peers@[j] }
            } else {
                d0.peers@[j]
            },
            forall|j: int| q <= j < d0.peers@.len() ==> #[trigger] download.peers@[j] == d0.peers@[j],
            forall|k: int| 0 <= k < result@.len() ==> (#[trigger] result@[k]).peer_id < q
                && connectable(d0.peers@[result@[k].peer_id as int]) && is_connection_request(result@[k], d0, result@[k].peer_id as int, my_id@),
            forall|j: int, k: int| 0 <= j < k < result@.len() ==> (#[trigger] result@[j]).peer_id < (#[trigger] result@[k]).peer_id,
            forall|j: int| 0 <= j < q && connectable(#[trigger] d0.peers@[j]) ==> exists|k: int| 0 <= k < result@.len() && result@[k].peer_id == j,
        decreases download.peers.len() - q,
    {
        assert(download.peers@[q as int] == d0.peers@[q as int]);
        let peer = &download.peers[q];
        let mut connect = !peer.connected;
        if connect {
            match &peer.peer_info {
                Some(info) => {
                    if info.port == PORT as u64 {
                        connect = false;
                    }
                },
                None => {
                    connect = false;
                },
            }
        }
        if connect {
            let request = connection_request(download, q, my_id);
            let ghost before = result@;
            result.push(request);
            let mut peer = download.peers.remove(q);
            peer.being_connected = true;
            download.peers.insert(q, peer);
            assert forall|j: int| 0 <= j < q + 1 && connectable(#[trigger] d0.peers@[j]) implies exists|k: int| 0 <= k < result@.len() && result@[k].peer_id == j by {
                if j < q {
                    let k = choose|k: int| 0 <= k < before.len() && before[k].peer_id == j;
                    assert(result@[k] == before[k]);
                } else {
                    assert(result@[before.len() as int].peer_id == j);
                }
            }
        }
        q = q + 1;
    }
    result
}

/// Asks to reconnect to the peers that `decide_peers_to_reconnect` picks at time
/// `now`, and for each counts one more attempt, made at `now`, being connected.
pub fn request_reconnections(download: &mut Download, my_id: &String, now: u64) -> (r: Vec<OpenConnectionRequest>)
    requires
        !old(download).downloaded ==> reconnect_times_known(*old(download), now),
    ensures
        old(download).downloaded ==> r@.len() == 0 && final(download).peers@ == old(download).peers@
            && *final(download) == (Download { peers: final(download).peers, ..*old(download) }),
        !old(download).downloaded ==> {
            &&& requests_for(r@, *old(download), my_id@, |q: int| should_reconnect(old(download).peers@[q], now))
            &&& final(download).peers@.len() == old(download).peers@.len()
            &&& forall|q: int| 0 <= q < old(download).peers@.len() ==> #[trigger] final(download).peers@[q] == if should_reconnect(old(download).peers@[q], now) {
                Peer {
                    reconnect_attempts: (old(download).peers@[q].reconnect_attempts + 1) as u32,
                    last_reconnect_attempt: now,
                    being_connected: true,
                    ..old(download).peers@[q]
                }
            } else {
                old(download).peers@[q]
            }
            &&& *final(download) == (Download { peers: final(download).peers, ..*old(download) })
        },
{
    let ghost d0 = *download;
    let n = download.peers.len();
    let ids = decide_peers_to_reconnect(download, now);
    let mut result: Vec<OpenConnectionRequest> = Vec::new();
    let mut i: usize = 0;
    while i < ids.len()
        invariant
            i <= ids@.len(),
            d0.downloaded ==> ids@.len() == 0,
            !d0.downloaded ==> {
                &&& forall|k: int| 0 <= k < ids@.len() ==> (#[trigger] ids@[k]) < d0.peers@.len()
                    && should_reconnect(d0.peers@[ids@[k] as int], now)
                &&& forall|j: int, k: int| 0 <= j < k < ids@.len() ==> (#[trigger] ids@[j]) < (#[trigger] ids@[k])
                &&& forall|q: int| 0 <= q < d0.peers@.len() && should_reconnect(#[trigger] d0.peers@[q], now)
                    ==> ids@.contains(q as usize)
            },
            download.peers@.len() == d0.peers@.len(),
            n == d0.peers@.len(),
            *download == (Download { peers: download.peers, ..d0 }),
            result@.len() == i,
            forall|k: int| 0 <= k < i ==> (#[trigger] result@[k]).peer_id == ids@[k]
                && is_connection_request(result@[k], d0, ids@[k] as int, my_id@),
            forall|q: int| 0 <= q < d0.peers@.len() ==> #[trigger] download.peers@[q] == if (exists|k: int| 0 <= k < i && ids@[k] == q) {
                Peer {
                    reconnect_attempts: (d0.peers@[q].reconnect_attempts + 1) as u32,
                    last_reconnect_attempt: now,
                    being_connected: true,
                    ..d0.peers@[q]
                }
            } else {
                d0.peers@[q]
            },
        decreases ids.len() - i,
    {
        let peer_id = ids[i];
        assert(!(exists|k: int| 0 <= k < i && ids@[k] == peer_id)) by {
            if exists|k: int| 0 <= k < i && ids@[k] == peer_id {
                let k = choose|k: int| 0 <= k < i && ids@[k] == peer_id;
                assert(ids@[k] < ids@[i as int]);
            }
        }
        assert(download.peers@[peer_id as int] == d0.peers@[peer_id as int]);
        let request = connection_request(download, peer_id, my_id);
        result.push(request);
        let mut peer = download.peers.remove(peer_id);
        peer.reconnect_attempts = peer.reconnect_attempts + 1;
        peer.last_reconnect_attempt = now;
        peer.being_connected = true;
        download.peers.insert(peer_id, peer);
        assert forall|q: int| 0 <= q < d0.peers@.len() implies #[trigger] download.peers@[q] == if (exists|k: int| 0 <= k < i + 1 && ids@[k] == q) {
                Peer {
                    reconnect_attempts: (d0.peers@[q].reconnect_attempts + 1) as u32,
                    last_reconnect_attempt: now,
                    being_connected: true,
                    ..d0.peers@[q]
                }
            } else {
                d0.peers@[q]
            } by {
            if q != peer_id {
                if exists|k: int| 0 <= k < i + 1 && ids@[k] == q {
                    let k = choose|k: int| 0 <= k < i + 1 && ids@[k] == q;
                    assert(k < i);
                }
            } else {
                assert(ids@[i as int] == q);
            }
        }
        i = i + 1;
    }
    assert(i == ids@.len());
    assert(result@.len() == ids@.len());
    proof {
        if !d0.downloaded {
            assert forall|q: int| 0 <= q < d0.peers@.len() && #[trigger] should_reconnect(d0.peers@[q], now)
                implies exists|k: int| 0 <= k < result@.len() && result@[k].peer_id == q by {
                assert(ids@.contains(q as usize));
                let k = choose|k: int| 0 <= k < ids@.len() && ids@[k] == q as usize;
                assert(result@[k].peer_id == ids@[k]);
                assert(result@[k].peer_id == q);
            }
            assert forall|q: int| 0 <= q < d0.peers@.len() implies
                (exists|k: int| 0 <= k < ids@.len() && ids@[k] == q) == should_reconnect(d0.peers@[q], now) by {
                if should_reconnect(d0.peers@[q], now) {
                    assert(ids@.contains(q as usize));
                }
            }
        } else {
            assert(download.peers@ =~= d0.peers@);
        }
    }
    result
}

/// Whether the tracker of `d` is to be asked at time `now` (milliseconds since the
/// epoch): its interval, in seconds, passed since the last time.
pub open spec fn tracker_check_due(d: Download, now: u64) -> bool {
    now - d.last_check_with_tracker >= d.tracker_interval * 1000
}

/// Asks the tracker for peers where its interval passed since the last time, and
/// notes `now` as the last time.
pub fn check_with_tracker(download: &mut Download, my_id: &String, is_local: bool, now: u64) -> (r: Option<GetAnnouncementRequest>)
    requires
        old(download).last_check_with_tracker <= now,
    ensures
        !tracker_check_due(*old(download), now) ==> r is None && *final(download) == *old(download),
        tracker_check_due(*old(download), now) ==> {
            &&& *final(download) == (Download { last_check_with_tracker: now, ..*old(download) })
            &&& r matches Some(req) && {
                &&& req.url == old(download).announcement_url
                &&& req.info_hash@ == old(download).info_hash@
                &&& req.is_local == is_local
                &&& req.my_id == *my_id
                &&& req.download_id == old(download).id
                &&& req.downloaded == old(download).stats.downloaded
                &&& req.uploaded == old(download).stats.uploaded
            }
        },
{
    let elapsed = now - download.last_check_with_tracker;
    if download.tracker_interval <= u64::MAX / 1000 && elapsed < download.tracker_interval * 1000 {
        return None;
    }
    if download.tracker_interval > u64::MAX / 1000 {
        assert(elapsed < download.tracker_interval * 1000);
        return None;
    }
    download.last_check_with_tracker = now;
    let mut info_hash: Vec<u8> = Vec::new();
    let mut i: usize = 0;
    while i < download.info_hash.len()
        invariant
            i <= download.info_hash@.len(),
            info_hash@ == download.info_hash@.take(i as int),
        decreases download.info_hash.len() - i,
    {
        info_hash.push(download.info_hash[i]);
        assert(info_hash@ =~= download.info_hash@.take(i + 1));
        i = i + 1;
    }
    assert(info_hash@ =~= download.info_hash@);
    Some(GetAnnouncementRequest {
        url: download.announcement_url.clone(),
        info_hash: info_hash,
        is_local: is_local,
        my_id: my_id.clone(),
        download_id: download.id,
        downloaded: download.stats.downloaded,
        uploaded: download.stats.uploaded,
    })
}

fn update_peer(download: &mut Download, peer_id: usize, peer: Peer)
    requires
        peer_id < old(download).peers@.len(),
    ensures
        final(download).peers@ == old(download).peers@.update(peer_id as int, peer),
        *final(download) == (Download { peers: final(download).peers, ..*old(download) }),
{
    let _ = download.peers.remove(peer_id);
    download.peers.insert(peer_id, peer);
    assert(download.peers@ =~= old(download).peers@.update(peer_id as int, peer));
}

/// Notes that a connection to a peer was opened: it is connected, no longer being connected to.
pub fn on_connection_established(download: &mut Download, peer_id: usize)
    requires
        peer_id < old(download).peers@.len(),
    ensures
        final(download).peers@ == old(download).peers@.update(peer_id as int,
            Peer { connected: true, being_connected: false, ..old(download).peers@[peer_id as int] }),
        *final(download) == (Download { peers: final(download).peers, ..*old(download) }),
{
    let mut peer = download.peers.remove(peer_id);
    peer.connected = true;
    peer.being_connected = false;
    download.peers.insert(peer_id, peer);
    assert(download.peers@ =~= old(download).peers@.update(peer_id as int,
        Peer { connected: true, being_connected: false, ..old(download).peers@[peer_id as int] }));
}

/// Notes that a connection to a peer could not be opened: it is no longer being connected to.
pub fn on_connection_failed(download: &mut Download, peer_id: usize)
    requires
        peer_id < old(download).peers@.len(),
    ensures
        final(download).peers@ == old(download).peers@.update(peer_id as int,
            Peer { being_connected: false, ..old(download).peers@[peer_id as int] }),
        *final(download) == (Download { peers: final(download).peers, ..*old(download) }),
{
    let mut peer = download.peers.remove(peer_id);
    peer.being_connected = false;
    download.peers.insert(peer_id, peer);
    assert(download.peers@ =~= old(download).peers@.update(peer_id as int,
        Peer { being_connected: false, ..old(download).peers@[peer_id as int] }));
}

/// Notes that we told a peer we are interested in it.
pub fn on_interested_sent(download: &mut Download, peer_id: usize)
    requires
        peer_id < old(download).peers@.len(),
    ensures
        final(download).peers@ == old(download).peers@.update(peer_id as int,
            Peer { we_interested: true, ..old(download).peers@[peer_id as int] }),
        *final(download) == (Download { peers: final(download).peers, ..*old(download) }),
{
    let mut peer = download.peers.remove(peer_id);
    peer.we_interested = true;
    download.peers.insert(peer_id, peer);
    assert(download.peers@ =~= old(download).peers@.update(peer_id as int,
        Peer { we_interested: true, ..old(download).peers@[peer_id as int] }));
}

/// Notes that the connection to a peer was dropped after a failed send; what was
/// partly received from it is kept.
pub fn drop_connection(download: &mut Download, peer_id: usize)
    requires
        peer_id < old(download).peers@.len(),
    ensures
        final(download).peers@ == old(download).peers@.update(peer_id as int,
            Peer { connected: false, ..old(download).peers@[peer_id as int] }),
        *final(download) == (Download { peers: final(download).peers, ..*old(download) }),
{
    let mut peer = download.peers.remove(peer_id);
    peer.connected = false;
    download.peers.insert(peer_id, peer);
    assert(download.peers@ =~= old(download).peers@.update(peer_id as int,
        Peer { connected: false, ..old(download).peers@[peer_id as int] }));
}

/// Takes the byte counts of a download from its saved summary, where there is one.
pub fn apply_persistent_state(download: &mut Download, state: Option<&PersistentDownloadState>)
    ensures
        state matches Some(s) ==> *final(download) == (Download {
            stats: Stats { downloaded: s.downloaded, uploaded: s.uploaded },
            ..*old(download)
        }),
        state is None ==> *final(download) == *old(download),
{
    match state {
        Some(s) => {
            download.set_stats(Stats { downloaded: s.downloaded, uploaded: s.uploaded });
        },
        None => {},
    }
}

/// Whether `after` is `before` with a peer announced at `info` added, unless a peer
/// with its address is known.
pub open spec fn register_step(before: Seq<Peer>, after: Seq<Peer>, info: PeerInfo, num_pieces: nat) -> bool {
    if has_peer_at(before, info.ip@, info.port) {
        after == before
    } else {
        &&& after.len() == before.len() + 1
        &&& after.drop_last() == before
        &&& is_fresh_peer(after.last(), false, Some(info), num_pieces)
    }
}

/// What a turn of the main loop does besides its fixed work.
pub struct TickActions {
    /// Read the list of torrents again and add the new ones.
    pub reload: bool,
    /// Write the state of the downloads to disk.
    pub persist: bool,
}

/// What turn `iteration` of the main loop does at time `now`, where the state
/// was last written at `last_persist` (milliseconds since the epoch): it reloads
/// the list of torrents every hundredth turn, starting with the first, and writes
/// the state once more than the persistence interval has passed.
pub fn tick_actions(iteration: u64, now: u64, last_persist: u64) -> (r: TickActions)
    requires
        last_persist <= now,
    ensures
        r.reload == (iteration % 100 == 0),
        r.persist == (now - last_persist > STATE_PERSISTENCE_INTERVAL_MS),
{
    TickActions { reload: iteration % 100 == 0, persist: now - last_persist > STATE_PERSISTENCE_INTERVAL_MS }
}

/// The id of the first download, among `downloads` (each an id and an info hash),
/// whose info hash is `info_hash`: the download that an incoming connection with
/// that info hash belongs to. `None` where there is none.
pub fn download_for_info_hash(downloads: &Vec<(u32, Vec<u8>)>, info_hash: &Vec<u8>) -> (r: Option<u32>)
    ensures
        r is None <==> forall|k: int| 0 <= k < downloads@.len() ==> (#[trigger] downloads@[k]).1@ != info_hash@,
        r matches Some(id) ==> exists|k: int| {
            &&& 0 <= k < downloads@.len()
            &&& (#[trigger] downloads@[k]).1@ == info_hash@
            &&& downloads@[k].0 == id
            &&& forall|j: int| 0 <= j < k ==> (#[trigger] downloads@[j]).1@ != info_hash@
        },
{
    let mut k: usize = 0;
    while k < downloads.len()
        invariant
            k <= downloads@.len(),
            forall|j: int| 0 <= j < k ==> (#[trigger] downloads@[j]).1@ != info_hash@,
        decreases downloads.len() - k,
    {
        if bytes_equal(downloads[k].1.as_slice(), info_hash.as_slice()) {
            assert(downloads@[k as int].1@ == info_hash@);
            return Some(downloads[k].0);
        }
        k = k + 1;
    }
    None
}

/// Whether no two peers of `peers` were announced with the same address.
pub open spec fn addresses_unique(peers: Seq<Peer>) -> bool {
    forall|i: int, j: int| 0 <= i < j < peers.len() && (#[trigger] peers[i]).peer_info is Some
        && (#[trigger] peers[j]).peer_info is Some ==> !peer_at(peers[j], peers[i].peer_info->0.ip@, peers[i].peer_info->0.port)
}

/// Registering an announced peer leaves a peer known at its address, and keeps the
/// addresses of the announced peers unique.
pub proof fn lemma_register_keeps_addresses_unique(before: Seq<Peer>, after: Seq<Peer>, info: PeerInfo, num_pieces: nat)
    requires
        addresses_unique(before),
        register_step(before, after, info, num_pieces),
    ensures
        addresses_unique(after),
        has_peer_at(after, info.ip@, info.port),
{
    if !has_peer_at(before, info.ip@, info.port) {
        let n = before.len() as int;
        assert forall|i: int| 0 <= i < n implies #[trigger] after[i] == before[i] by {
            assert(after.drop_last()[i] == after[i]);
        }
        assert(peer_at(after[n], info.ip@, info.port));
        assert forall|i: int, j: int| 0 <= i < j < after.len() && (#[trigger] after[i]).peer_info is Some
            && (#[trigger] after[j]).peer_info is Some implies !peer_at(after[j], after[i].peer_info->0.ip@, after[i].peer_info->0.port) by {
            if j == n {
                if peer_at(after[j], after[i].peer_info->0.ip@, after[i].peer_info->0.port) {
                    assert(peer_at(before[i], info.ip@, info.port));
                }
            }
        }
    }
}

/// Registering a peer a second time changes nothing.
pub proof fn lemma_register_idempotent(before: Seq<Peer>, mid: Seq<Peer>, after: Seq<Peer>, info: PeerInfo, num_pieces: nat)
    requires
        register_step(before, mid, info, num_pieces),
        register_step(mid, after, info, num_pieces),
    ensures
        after == mid,
{
    if !has_peer_at(before, info.ip@, info.port) {
        let n = before.len() as int;
        assert(peer_at(mid[n], info.ip@, info.port));
    }
}

/// Whether `after` is `before` with the peers announced at `infos` added one after
/// the other, as `register_step` does each.
pub open spec fn registered_all(before: Seq<Peer>, after: Seq<Peer>, infos: Seq<PeerInfo>, num_pieces: nat) -> bool
    decreases infos.len(),
{
    if infos.len() == 0 {
        after == before
    } else {
        exists|mid: Seq<Peer>| registered_all(before, mid, infos.drop_last(), num_pieces)
            && #[trigger] register_step(mid, after, infos.last(), num_pieces)
    }
}

/// Registering a peer keeps every peer known at its address.
proof fn lemma_register_keeps_known(before: Seq<Peer>, after: Seq<Peer>, info: PeerInfo, num_pieces: nat, ip: Seq<char>, port: u64)
    requires
        register_step(before, after, info, num_pieces),
        has_peer_at(before, ip, port),
    ensures
        has_peer_at(after, ip, port),
{
    if !has_peer_at(before, info.ip@, info.port) {
        let i = choose|i: int| 0 <= i < before.len() && peer_at(#[trigger] before[i], ip, port);
        assert(after.drop_last()[i] == after[i]);
        assert(peer_at(after[i], ip, port));
    }
}

/// After the peers of an announcement are registered, each of them is known at its
/// address, and the addresses of the announced peers are still unique.
pub proof fn lemma_announcement_registers_each_once(before: Seq<Peer>, after: Seq<Peer>, infos: Seq<PeerInfo>, num_pieces: nat)
    requires
        addresses_unique(before),
        registered_all(before, after, infos, num_pieces),
    ensures
        addresses_unique(after),
        forall|k: int| 0 <= k < infos.len() ==> has_peer_at(after, (#[trigger] infos[k]).ip@, infos[k].port),
    decreases infos.len(),
{
    if infos.len() > 0 {
        let mid = choose|mid: Seq<Peer>| registered_all(before, mid, infos.drop_last(), num_pieces)
            && #[trigger] register_step(mid, after, infos.last(), num_pieces);
        lemma_announcement_registers_each_once(before, mid, infos.drop_last(), num_pieces);
        lemma_register_keeps_addresses_unique(mid, after, infos.last(), num_pieces);
        assert forall|k: int| 0 <= k < infos.len() implies has_peer_at(after, (#[trigger] infos[k]).ip@, infos[k].port) by {
            if k < infos.len() - 1 {
                assert(infos.drop_last()[k] == infos[k]);
                lemma_register_keeps_known(mid, after, infos.last(), num_pieces, infos[k].ip@, infos[k].port);
            }
        }
    }
}

proof fn lemma_registered_step(before: Seq<Peer>, mid: Seq<Peer>, after: Seq<Peer>, infos: Seq<PeerInfo>, num_pieces: nat)
    requires
        infos.len() > 0,
        registered_all(before, mid, infos.drop_last(), num_pieces),
        register_step(mid, after, infos.last(), num_pieces),
    ensures
        registered_all(before, after, infos, num_pieces),
{
    reveal_with_fuel(registered_all, 2);
    assert(registered_all(before, mid, infos.drop_last(), num_pieces) && register_step(mid, after, infos.last(), num_pieces));
}

/// Adds the peers of a tracker's announcement (see `register_step`), then asks to
/// connect to the peers to connect to (see `request_new_connections`).
pub fn on_announcement(download: &mut Download, announcement: Announcement, my_id: &String) -> (r: Vec<OpenConnectionRequest>)
    ensures
        exists|mid: Download| {
            &&& registered_all(old(download).peers@, mid.peers@, announcement.peers@, old(download).pieces@.len())
            &&& mid == (Download { peers: mid.peers, ..*old(download) })
            &&& requests_for(r@, mid, my_id@, |q: int| connectable(mid.peers@[q]))
            &&& final(download).peers@.len() == mid.peers@.len()
            &&& forall|q: int| 0 <= q < mid.peers@.len() ==> #[trigger] final(download).peers@[q] == if connectable(mid.peers@[q]) {
                Peer { being_connected: true, ..mid.peers@[q] }
            } else {
                mid.peers@[q]
            }
            &&& *final(download) == (Download { peers: final(download).peers, ..mid })
        },
{
    let ghost infos = announcement.peers@;
    let ghost d0 = *download;
    let mut peers = announcement.peers;
    let mut i: usize = 0;
    let n = peers.len();
    while i < n
        invariant
            n == infos.len(),
            i <= n,
            peers@ == infos.skip(i as int),
            registered_all(d0.peers@, download.peers@, infos.take(i as int), d0.pieces@.len()),
            *download == (Download { peers: download.peers, ..d0 }),
        decreases n - i,
    {
        let info = peers.remove(0);
        assert(info == infos[i as int]);
        assert(peers@ =~= infos.skip(i + 1));
        let ghost mid = download.peers@;
        download.register_outgoing_peer(info);
        assert(infos.take(i + 1).drop_last() =~= infos.take(i as int));
        assert(infos.take(i + 1).last() == infos[i as int]);
        assert(registered_all(d0.peers@, mid, infos.take(i + 1).drop_last(), d0.pieces@.len()));
        assert(register_step(mid, download.peers@, infos.take(i + 1).last(), d0.pieces@.len()));
        proof { lemma_registered_step(d0.peers@, mid, download.peers@, infos.take(i + 1), d0.pieces@.len()); }
        i = i + 1;
    }
    assert(infos.take(n as int) =~= infos);
    let ghost mid = *download;
    request_new_connections(download, my_id)
}

} // verus!
