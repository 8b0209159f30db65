use rustorcli::announcement::PeerInfo;
use rustorcli::download::{
    calculate_sha1, file_plans, piece_spans, Block, Download, FileSerializable, Peer, Stats,
    TorrentInfoSerializable, TorrentSerializable,
};
use rustorcli::metainfo::{dict_get, get_info_hash, info_hash_of_decoded, info_hash_of_info, info_value, Bencode, InfoHashError};
use rustorcli::torrent_entries::TorrentEntry;

fn hex(bytes: &[u8]) -> String {
    bytes.iter().map(|b| format!("{:02x}", b)).collect()
}

pub fn torrent(length: i64, piece_length: i64, contents: &[Vec<u8>], files: Vec<FileSerializable>) -> TorrentSerializable {
    let mut pieces = Vec::new();
    for c in contents {
        pieces.extend(calculate_sha1(c));
    }
    TorrentSerializable {
        announce: String::from("http://localhost:8000/announce"),
        info: TorrentInfoSerializable {
            name: String::from("data"),
            length,
            piece_length,
            pieces,
            files,
        },
        info_hash: vec![7; 20],
    }
}

#[test]
fn sha1_known_values() {
    assert_eq!(hex(&calculate_sha1(b"abc")), "a9993e364706816aba3e25717850c26c9cd0d89d");
    assert_eq!(hex(&calculate_sha1(b"")), "da39a3ee5e6b4b0d3255bfef95601890afd80709");
}

#[test]
fn ring_and_crypto_sha1_agree() {
    let data = b"The quick brown fox jumps over the lazy dog".to_vec();
    assert_eq!(info_hash_of_info(&data), calculate_sha1(&data));
    assert_eq!(hex(&info_hash_of_info(&data)), "2fd4e1c67a2d28fced849ee1bb76e7391b93eb12");
}

#[test]
fn info_hash_of_metadata() {
    let info = b"d6:lengthi3e4:name1:a12:piece lengthi16384e6:pieces0:e".to_vec();
    let mut file = b"d8:announce4:http4:info".to_vec();
    file.extend(&info);
    file.push(b'e');
    let h = get_info_hash(&file).unwrap();
    assert_eq!(h, calculate_sha1(&info));
    assert_eq!(get_info_hash(b"i3e"), Err(InfoHashError::NotADictionary));
    assert_eq!(get_info_hash(b"d3:fooi1ee"), Err(InfoHashError::InfoNotFound));
    assert_eq!(get_info_hash(b"xyz"), Err(InfoHashError::Decode));
}

#[test]
fn dictionary_lookup_takes_last_entry() {
    let entries = vec![
        (b"info".to_vec(), Bencode::Int(1)),
        (b"name".to_vec(), Bencode::Int(2)),
        (b"info".to_vec(), Bencode::Int(3)),
    ];
    assert!(matches!(dict_get(&entries, &b"info".to_vec()), Some(Bencode::Int(3))));
    assert!(matches!(dict_get(&entries, &b"name".to_vec()), Some(Bencode::Int(2))));
    assert!(dict_get(&entries, &b"size".to_vec()).is_none());
    assert!(dict_get(&Vec::new(), &b"info".to_vec()).is_none());
}

#[test]
fn info_value_of_decoded_metadata() {
    let top = Bencode::Dict(vec![
        (b"announce".to_vec(), Bencode::Bytes(b"http".to_vec())),
        (b"info".to_vec(), Bencode::List(vec![Bencode::Int(5)])),
    ]);
    assert!(matches!(info_value(&top), Ok(Bencode::List(items)) if items.len() == 1));
    assert!(matches!(info_value(&Bencode::Int(4)), Err(InfoHashError::NotADictionary)));
    assert!(matches!(info_value(&Bencode::List(vec![])), Err(InfoHashError::NotADictionary)));
    assert!(matches!(info_value(&Bencode::Dict(vec![])), Err(InfoHashError::InfoNotFound)));
}

#[test]
fn info_hash_of_decoded_metadata() {
    let info = Bencode::Dict(vec![
        (b"name".to_vec(), Bencode::Bytes(b"a".to_vec())),
        (b"length".to_vec(), Bencode::Int(3)),
    ]);
    let top = Bencode::Dict(vec![(b"info".to_vec(), info)]);
    // The encoder writes the entries sorted by key.
    let expected = calculate_sha1(b"d6:lengthi3e4:name1:ae");
    assert_eq!(info_hash_of_decoded(&top), Ok(expected.clone()));
    assert_eq!(get_info_hash(b"d4:infod4:name1:a6:lengthi3eee"), Ok(expected));
    assert_eq!(info_hash_of_decoded(&Bencode::Bytes(vec![])), Err(InfoHashError::NotADictionary));
}

#[test]
fn piece_layout_of_torrent() {
    let contents = vec![vec![1u8; 40000], vec![2u8; 40000], vec![3u8; 5000]];
    let t = torrent(85000, 40000, &contents, vec![]);
    assert_eq!(piece_spans(&t), vec![(0, 40000), (40000, 40000), (80000, 5000)]);
}

#[test]
fn new_download_checks_pieces_on_disk() {
    let good = vec![vec![1u8; 40000], vec![2u8; 40000], vec![3u8; 5000]];
    let t = torrent(85000, 40000, &good, vec![]);
    let entry = TorrentEntry::new(3, String::from("/t.torrent"), String::from("/dl"));
    let on_disk = vec![vec![1u8; 40000], vec![0u8; 40000], vec![3u8; 5000]];
    let d = Download::new(&entry, &t, false, &on_disk);
    assert_eq!(d.id, 3);
    assert_eq!(d.temp_location, "/dl/data_part");
    assert_eq!(d.announcement_url, "http://localhost:8000/announce");
    assert_eq!(d.info_hash, vec![7; 20]);
    assert!(d.single_file);
    assert_eq!(d.files.len(), 1);
    assert_eq!(d.files[0].path, "");
    assert_eq!(d.files[0].length, 85000);
    assert_eq!(d.pieces().len(), 3);
    assert!(d.pieces()[0].downloaded());
    assert!(!d.pieces()[1].downloaded());
    assert!(d.pieces()[2].downloaded());
    // Blocks: ceil(40000 / 16384) = 3 for the full pieces, 1 for the last.
    let p0: Vec<(u64, u32, bool)> = d.pieces()[0].blocks().iter().map(|b: &Block| (b.offset(), b.len(), b.downloaded())).collect();
    assert_eq!(p0, vec![(0, 16384, true), (16384, 16384, true), (32768, 16384, true)]);
    assert_eq!(d.pieces()[1].blocks().len(), 3);
    assert!(!d.pieces()[1].blocks()[2].downloaded());
    // The last block's length is measured from the end of the torrent.
    assert_eq!(d.pieces()[2].blocks().len(), 1);
    assert_eq!(d.pieces()[2].blocks()[0].len(), 5000);
    assert_eq!(d.pieces()[1].offset(), 40000);
    assert_eq!(d.pieces()[2].len(), 5000);
    assert_eq!(d.pieces()[0].sha(), &calculate_sha1(&good[0]));
    // The completion flag is computed before the pieces exist.
    assert!(d.is_downloaded());
    assert_eq!(d.tracker_interval, 60);
}

#[test]
fn multi_file_download_paths() {
    let contents = vec![vec![5u8; 10]];
    let files = vec![
        FileSerializable { length: 4, path: vec![String::from("dir"), String::from("a.txt")] },
        FileSerializable { length: 6, path: vec![String::from("b.txt")] },
    ];
    let t = torrent(10, 16384, &contents, files);
    let entry = TorrentEntry::new(1, String::from("/t"), String::from("/dl"));
    let d = Download::new(&entry, &t, true, &contents);
    assert!(!d.single_file);
    let paths: Vec<&str> = d.files.iter().map(|f| f.path.as_str()).collect();
    assert_eq!(paths, vec!["/dir/a.txt", "/b.txt"]);
    let plans = file_plans(&entry, &t, true);
    assert_eq!(plans[0].actual_path, "/dl/data/dir/a.txt");
    assert!(!plans[0].write);
    let plans = file_plans(&entry, &t, false);
    assert_eq!(plans[1].actual_path, "/dl/data_part/b.txt");
    assert!(plans[1].write);
    let (from, to) = d.completion_move();
    assert_eq!(from, "/dl/data_part");
    assert_eq!(to, "/dl/data");
}

#[test]
fn blocks_and_pieces_complete() {
    let contents = vec![vec![1u8; 20000], vec![2u8; 100]];
    let t = torrent(20100, 20000, &contents, vec![]);
    let entry = TorrentEntry::new(1, String::from("/t"), String::from("/dl"));
    let empty = vec![vec![], vec![]];
    let mut d = Download::new(&entry, &t, false, &empty);
    d.downloaded = false;
    let e = d.set_block_downloaded(0, 1);
    assert!(!e.piece_done);
    assert!(!e.download_done);
    assert!(d.pieces()[0].blocks()[1].downloaded());
    assert!(!d.is_downloaded());
    let e = d.set_block_downloaded(0, 0);
    assert!(e.piece_done);
    assert!(!e.download_done);
    assert!(d.on_piece_done(0, &contents[0]));
    assert_eq!(d.recently_downloaded_pieces, vec![0]);
    assert!(!d.on_piece_done(1, &vec![9u8; 100]));
    assert_eq!(d.recently_downloaded_pieces, vec![0]);
    let e = d.set_block_downloaded(1, 0);
    assert!(e.piece_done);
    assert!(e.download_done);
    assert!(d.is_downloaded());
}

#[test]
fn peers_are_registered_once() {
    let contents = vec![vec![1u8; 10]];
    let t = torrent(10, 16384, &contents, vec![]);
    let entry = TorrentEntry::new(1, String::from("/t"), String::from("/dl"));
    let mut d = Download::new(&entry, &t, false, &contents);
    d.register_outgoing_peer(PeerInfo { ip: String::from("1.2.3.4"), port: 5 });
    d.register_outgoing_peer(PeerInfo { ip: String::from("1.2.3.4"), port: 5 });
    d.register_outgoing_peer(PeerInfo { ip: String::from("1.2.3.4"), port: 6 });
    assert_eq!(d.peers().len(), 2);
    assert!(!d.peer(0).is_connected());
    assert!(!d.peer(0).is_incoming());
    assert_eq!(d.peer(0).has_piece, vec![false]);
    let i = d.register_incoming_peer();
    assert_eq!(i, 2);
    assert!(d.peer(2).is_incoming());
    assert!(d.peer(2).is_connected());
    d.peer_mut(2).buf = vec![1, 2, 3];
    d.peer_mut(2).next_message_length = 9;
    d.on_broken_connection(2);
    assert!(!d.peer(2).connected);
    assert!(d.peer(2).buf.is_empty());
    assert_eq!(d.peer(2).next_message_length, 0);
}

#[test]
fn peer_and_stats_basics() {
    let p = Peer::new(true, None, 3);
    assert!(p.we_choked);
    assert!(!p.we_interested);
    assert_eq!(p.has_piece, vec![false, false, false]);
    assert_eq!(p.outstanding_block_requests, 0);
    let mut s = Stats::new();
    s.add_downloaded(10);
    s.add_uploaded(4);
    s.add_downloaded(5);
    assert_eq!(s.downloaded(), 15);
    assert_eq!(s.uploaded(), 4);
}
