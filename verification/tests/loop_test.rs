use rustorcli::announcement::{Announcement, PeerInfo};
use rustorcli::cli::{entry_listing, generate_peer_id, short_bool};
use rustorcli::download::{calculate_sha1, Download, TorrentInfoSerializable, TorrentSerializable};
use rustorcli::main_loop::{
    apply_persistent_state, check_with_tracker, drop_connection, on_announcement, on_connection_established,
    on_connection_failed, on_interested_sent, request_new_connections, request_reconnections,
};
use rustorcli::main_loop::{download_for_info_hash, tick_actions};
use rustorcli::outgoing_connections::{connection_address, normalize_ip, ConnectionError, OpenConnectionRequest};
use rustorcli::state_persistence::{download_state, get_persistent_peers, PersistentDownloadState};
use rustorcli::torrent_entries::TorrentEntry;

fn download() -> Download {
    let t = TorrentSerializable {
        announce: String::from("http://tracker/announce"),
        info: TorrentInfoSerializable {
            name: String::from("movie"),
            length: 20000,
            piece_length: 10000,
            pieces: [calculate_sha1(&vec![1; 10000]), calculate_sha1(&vec![2; 10000])].concat(),
            files: vec![],
        },
        info_hash: vec![3; 20],
    };
    let entry = TorrentEntry::new(4, String::from("/t"), String::from("/d"));
    let mut d = Download::new(&entry, &t, false, &vec![vec![1; 10000], vec![]]);
    d.downloaded = false;
    d
}

fn info(ip: &str, port: u64) -> PeerInfo {
    PeerInfo { ip: String::from(ip), port }
}

#[test]
fn new_connections_to_unconnected_announced_peers() {
    let mut d = download();
    d.register_outgoing_peer(info("1.1.1.1", 1));
    d.register_outgoing_peer(info("2.2.2.2", 6881));
    d.register_outgoing_peer(info("3.3.3.3", 3));
    d.register_incoming_peer();
    d.peer_mut(2).connected = true;
    let my_id = String::from("me");
    let r = request_new_connections(&mut d, &my_id);
    assert_eq!(r.len(), 1);
    assert_eq!((r[0].ip.as_str(), r[0].port, r[0].peer_id, r[0].download_id), ("1.1.1.1", 1, 0, 4));
    assert_eq!(r[0].my_id, "me");
    assert_eq!(r[0].info_hash, vec![3; 20]);
    assert!(d.peer(0).being_connected);
    assert!(!d.peer(1).being_connected);
}

#[test]
fn reconnections_count_attempts() {
    let mut d = download();
    d.register_outgoing_peer(info("1.1.1.1", 1));
    let my_id = String::from("me");
    let r = request_reconnections(&mut d, &my_id, 60000);
    assert_eq!(r.len(), 1);
    assert_eq!(d.peer(0).reconnect_attempts, 1);
    assert_eq!(d.peer(0).last_reconnect_attempt, 60000);
    assert!(d.peer(0).being_connected);
    assert!(request_reconnections(&mut d, &my_id, 70000).is_empty());
    on_connection_failed(&mut d, 0);
    assert!(!d.peer(0).being_connected);
    assert!(request_reconnections(&mut d, &my_id, 62000).is_empty());
    assert_eq!(request_reconnections(&mut d, &my_id, 65000).len(), 1);
}

#[test]
fn connection_state_changes() {
    let mut d = download();
    d.register_outgoing_peer(info("1.1.1.1", 1));
    d.peer_mut(0).being_connected = true;
    on_connection_established(&mut d, 0);
    assert!(d.peer(0).connected && !d.peer(0).being_connected);
    on_interested_sent(&mut d, 0);
    assert!(d.peer(0).we_interested);
    d.peer_mut(0).buf = vec![1];
    drop_connection(&mut d, 0);
    assert!(!d.peer(0).connected);
    assert_eq!(d.peer(0).buf, vec![1]);
}

#[test]
fn tracker_is_asked_after_interval() {
    let mut d = download();
    d.stats_mut().add_downloaded(7);
    let my_id = String::from("me");
    assert!(check_with_tracker(&mut d, &my_id, true, 59999).is_none());
    assert_eq!(d.last_check_with_tracker, 0);
    let r = check_with_tracker(&mut d, &my_id, true, 1000 + 60000 - 1000).unwrap();
    assert_eq!(r.url, "http://tracker/announce");
    assert_eq!((r.download_id, r.downloaded, r.uploaded, r.is_local), (4, 7, 0, true));
    assert_eq!(d.last_check_with_tracker, 60000);
    assert!(check_with_tracker(&mut d, &my_id, true, 119999).is_none());
    assert!(check_with_tracker(&mut d, &my_id, false, 120000).is_some());
}

#[test]
fn announcements_add_peers_and_connect() {
    let mut d = download();
    d.register_outgoing_peer(info("1.1.1.1", 1));
    d.peer_mut(0).connected = true;
    let a = Announcement { interval: 30, peers: vec![info("1.1.1.1", 1), info("5.5.5.5", 5), info("5.5.5.5", 5)] };
    let r = on_announcement(&mut d, a, &String::from("me"));
    assert_eq!(d.peers().len(), 2);
    assert_eq!(r.len(), 1);
    assert_eq!(r[0].peer_id, 1);
    assert_eq!(r[0].ip, "5.5.5.5");
}

#[test]
fn registering_a_peer_twice_keeps_one() {
    let mut d = download();
    d.register_outgoing_peer(info("1.1.1.1", 1));
    d.register_outgoing_peer(info("1.1.1.1", 2));
    d.register_outgoing_peer(info("1.1.1.1", 1));
    assert_eq!(d.peers().len(), 2);
    assert_eq!(d.peer(1).peer_info.as_ref().unwrap().port, 2);
}

#[test]
fn tick_cadence() {
    let a = tick_actions(0, 1000, 1000);
    assert!(a.reload && !a.persist);
    let a = tick_actions(99, 4000, 1000);
    assert!(!a.reload && !a.persist);
    let a = tick_actions(200, 4001, 1000);
    assert!(a.reload && a.persist);
}

#[test]
fn incoming_connection_finds_download_by_info_hash() {
    let known = vec![(3u32, vec![1u8; 20]), (5, vec![2; 20]), (7, vec![2; 20])];
    assert_eq!(download_for_info_hash(&known, &vec![2; 20]), Some(5));
    assert_eq!(download_for_info_hash(&known, &vec![1; 20]), Some(3));
    assert_eq!(download_for_info_hash(&known, &vec![9; 20]), None);
    assert_eq!(download_for_info_hash(&vec![], &vec![1; 20]), None);
}

#[test]
fn persistent_state_of_download() {
    let mut d = download();
    d.register_outgoing_peer(info("1.1.1.1", 1));
    d.register_outgoing_peer(info("2.2.2.2", 2));
    d.register_incoming_peer();
    d.peer_mut(0).connected = true;
    d.peer_mut(0).we_choked = false;
    d.peer_mut(1).last_reconnect_attempt = 500;
    let s = download_state(&d, 1000, 12);
    assert_eq!((s.incoming_peers, s.outgoing_peers, s.connected_peers, s.we_unchoked, s.they_interested), (1, 2, 2, 1, 0));
    assert_eq!((s.downloaded_pieces, s.total_pieces, s.total_size, s.download_speed), (1, 2, 20000, 12));
    assert_eq!(s.name, "movie");
    assert!(!s.done);
    let peers = get_persistent_peers(&d, 1000);
    assert_eq!(peers[1].port, "2");
    assert_eq!(peers[1].last_reconnect_attempt, 500);
    assert_eq!(peers[2].ip, "");
    assert!(!peers[2].outgoing);
    let mut d2 = download();
    apply_persistent_state(&mut d2, Some(&s));
    assert_eq!(d2.stats().downloaded(), 0);
    let saved = PersistentDownloadState { downloaded: 11, uploaded: 22, ..download_state(&d, 1000, 0) };
    apply_persistent_state(&mut d2, Some(&saved));
    assert_eq!((d2.stats().downloaded(), d2.stats().uploaded()), (11, 22));
}

#[test]
fn listing_fields() {
    let d = download();
    let s = download_state(&d, 0, 3);
    let l = entry_listing(Some(&s), false);
    assert_eq!(l.done, "false");
    assert_eq!(l.size, "20000");
    assert_eq!(l.total_pieces, "2");
    assert_eq!(l.downloaded_pieces, "1");
    assert_eq!(l.name, "movie");
    assert_eq!(l.download_speed, "?");
    assert_eq!(entry_listing(Some(&s), true).download_speed, "3");
    let none = entry_listing(None, true);
    assert_eq!(none.done, "?");
    assert_eq!(none.name, "?");
    assert_eq!(short_bool(true), "Y");
    assert_eq!(short_bool(false), "N");
}

#[test]
fn peer_ids_are_alphanumeric() {
    let id = generate_peer_id();
    assert_eq!(id.len(), 20);
    assert!(id.chars().all(|c| c.is_ascii_alphanumeric()));
}

#[test]
fn connection_addresses() {
    assert_eq!(normalize_ip(&String::from("::1")), "127.0.0.1");
    assert_eq!(normalize_ip(&String::from("::ffff:127.0.0.1")), "127.0.0.1");
    assert_eq!(normalize_ip(&String::from("10.0.0.2")), "10.0.0.2");
    let r = OpenConnectionRequest { ip: String::from("::1"), port: 6882, my_id: String::new(), info_hash: vec![], download_id: 1, peer_id: 2 };
    assert_eq!(connection_address(&r), "127.0.0.1:6882");
    let e = ConnectionError::new(2, 1);
    assert_eq!((e.peer_id(), e.download_id()), (2, 1));
    assert_eq!(e.describe(), "ConnectionError(peer_id=2, download_id=1)");
}
