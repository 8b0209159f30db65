use rustorcli::announcement::PeerInfo;
use rustorcli::decider::{decide_block_requests, decide_have_broadcasts, decide_incoming_block_requests, decide_peers_to_reconnect, HaveBroadcast};
use rustorcli::download::{calculate_sha1, Download, IncomingBlockRequest, TorrentInfoSerializable, TorrentSerializable};
use rustorcli::torrent_entries::TorrentEntry;

/// A download of `num_pieces` pieces of 40000 bytes (three blocks each), none on disk.
fn download(num_pieces: usize) -> Download {
    let mut pieces = Vec::new();
    for i in 0..num_pieces {
        pieces.extend(calculate_sha1(&vec![i as u8 + 1; 40000]));
    }
    let t = TorrentSerializable {
        announce: String::from("http://tracker/announce"),
        info: TorrentInfoSerializable {
            name: String::from("x"),
            length: 40000 * num_pieces as i64,
            piece_length: 40000,
            pieces,
            files: vec![],
        },
        info_hash: vec![1; 20],
    };
    let entry = TorrentEntry::new(9, String::from("/t"), String::from("/d"));
    let contents = vec![vec![]; num_pieces];
    let mut d = Download::new(&entry, &t, false, &contents);
    d.downloaded = false;
    d
}

fn add_connected_peer(d: &mut Download, port: u64, has: bool) -> usize {
    d.register_outgoing_peer(PeerInfo { ip: String::from("10.0.0.1"), port });
    let q = d.peers().len() - 1;
    let n = d.pieces().len();
    let p = d.peer_mut(q);
    p.connected = true;
    p.we_choked = false;
    p.has_piece = vec![has; n];
    q
}

#[test]
fn requests_go_to_first_able_peer_until_full() {
    let mut d = download(2);
    let a = add_connected_peer(&mut d, 1, true);
    let b = add_connected_peer(&mut d, 2, true);
    d.peer_mut(a).outstanding_block_requests = 8;
    let r = decide_block_requests(&mut d, 1234);
    let got: Vec<(usize, usize, usize)> = r.iter().map(|x| (x.piece_id, x.block_id, x.peer_id)).collect();
    assert_eq!(got, vec![(0, 0, a), (0, 1, a), (0, 2, b), (1, 0, b), (1, 1, b), (1, 2, b)]);
    assert!(r.iter().all(|x| x.download_id == 9));
    assert_eq!(d.peer(a).outstanding_block_requests, 10);
    assert_eq!(d.peer(b).outstanding_block_requests, 4);
    let rec = d.pieces()[0].blocks()[2].request_record().unwrap();
    assert_eq!(rec.peer_id, b);
    assert_eq!(rec.time, 1234);
    // Nothing is requested twice.
    assert!(decide_block_requests(&mut d, 1235).is_empty());
}

#[test]
fn no_requests_for_choking_or_missing_peers() {
    let mut d = download(1);
    let a = add_connected_peer(&mut d, 1, false);
    let b = add_connected_peer(&mut d, 2, true);
    d.peer_mut(b).we_choked = true;
    let c = add_connected_peer(&mut d, 3, true);
    d.peer_mut(c).connected = false;
    assert!(decide_block_requests(&mut d, 0).is_empty());
    assert_eq!(d.peer(a).outstanding_block_requests, 0);
    assert!(d.pieces()[0].blocks()[0].request_record().is_none());
}

#[test]
fn at_most_one_hundred_requests_per_tick() {
    let mut d = download(40);
    for port in 1..=20 {
        add_connected_peer(&mut d, port, true);
    }
    let r = decide_block_requests(&mut d, 0);
    assert_eq!(r.len(), 100);
    let r2 = decide_block_requests(&mut d, 1);
    assert_eq!(r2.len(), 20);
    assert_eq!((r2[0].piece_id, r2[0].block_id), (33, 1));
}

#[test]
fn requests_ignore_peers_that_are_never_asked() {
    let mut d = download(1);
    // A disconnected peer with a huge count and no piece list, and a choking one.
    d.register_outgoing_peer(PeerInfo { ip: String::from("10.0.0.9"), port: 9 });
    d.peer_mut(0).outstanding_block_requests = i32::MAX;
    d.peer_mut(0).has_piece = vec![];
    let c = add_connected_peer(&mut d, 3, true);
    d.peer_mut(c).we_choked = true;
    d.peer_mut(c).has_piece = vec![];
    d.peer_mut(c).outstanding_block_requests = i32::MAX;
    let a = add_connected_peer(&mut d, 4, true);
    let r = decide_block_requests(&mut d, 5);
    assert_eq!(r.len(), 3);
    assert!(r.iter().all(|x| x.peer_id == a));
    assert_eq!(d.peer(0).outstanding_block_requests, i32::MAX);
    assert_eq!(d.peer(c).outstanding_block_requests, i32::MAX);
    assert_eq!(d.peer(a).outstanding_block_requests, 3);
}

#[test]
fn incoming_requests_are_all_taken_in_order() {
    let mut d = download(1);
    for i in 0..3 {
        d.add_incoming_block_request(IncomingBlockRequest { peer_id: i, begin: 0, length: 16384, piece_id: 0 });
    }
    let r = decide_incoming_block_requests(&mut d);
    let peers: Vec<usize> = r.iter().map(|x| x.peer_id).collect();
    assert_eq!(peers, vec![0, 1, 2]);
    assert!(d.pending_block_requests.is_empty());
}

#[test]
fn reconnect_decisions() {
    let mut d = download(1);
    let a = add_connected_peer(&mut d, 1, true);
    let b = add_connected_peer(&mut d, 2, true);
    let c = add_connected_peer(&mut d, 6881, true);
    let e = add_connected_peer(&mut d, 4, true);
    let f = add_connected_peer(&mut d, 5, true);
    let g = add_connected_peer(&mut d, 7, true);
    for q in [b, c, e, f, g] {
        d.peer_mut(q).connected = false;
    }
    d.peer_mut(e).being_connected = true;
    d.peer_mut(f).reconnect_attempts = 32;
    d.peer_mut(g).last_reconnect_attempt = 8000;
    let now = 10000;
    assert_eq!(decide_peers_to_reconnect(&d, now), vec![b]);
    let _ = a;
    d.peer_mut(g).last_reconnect_attempt = 5000;
    assert_eq!(decide_peers_to_reconnect(&d, now), vec![b, g]);
    d.downloaded = true;
    assert!(decide_peers_to_reconnect(&d, now).is_empty());
}

#[test]
fn have_broadcasts_skip_peers_that_have_it() {
    let mut d = download(2);
    let a = add_connected_peer(&mut d, 1, false);
    let b = add_connected_peer(&mut d, 2, true);
    let c = add_connected_peer(&mut d, 3, false);
    d.peer_mut(c).connected = false;
    d.recently_downloaded_pieces = vec![1, 0];
    let r: Vec<(usize, usize)> = decide_have_broadcasts(&mut d).iter().map(|h: &HaveBroadcast| (h.peer_id(), h.piece_id())).collect();
    assert_eq!(r, vec![(a, 1), (a, 0)]);
    let _ = b;
    assert!(d.recently_downloaded_pieces.is_empty());
    let h = HaveBroadcast::new(3, 4);
    assert_eq!((h.peer_id(), h.piece_id()), (3, 4));
}
