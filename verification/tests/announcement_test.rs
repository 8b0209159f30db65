use rustorcli::announcement::{announcement_from_compact, announcement_query, parse_compact_peers, show, urlencode_info_hash};
use rustorcli::util::config_directory_in;

#[test]
fn compact_peers_are_decoded() {
    let bytes = vec![127, 0, 0, 1, 0x1a, 0xe1, 10, 1, 2, 255, 0, 80, 9];
    let peers = parse_compact_peers(&bytes);
    assert_eq!(peers.len(), 2);
    assert_eq!(peers[0].ip, "127.0.0.1");
    assert_eq!(peers[0].port, 6881);
    assert_eq!(peers[1].ip, "10.1.2.255");
    assert_eq!(peers[1].port, 80);
}

#[test]
fn compact_announcement_keeps_interval() {
    let a = announcement_from_compact(1800, &vec![192, 168, 0, 7, 1, 0]);
    assert_eq!(a.interval, 1800);
    assert_eq!(a.peers.len(), 1);
    assert_eq!(a.peers[0].ip, "192.168.0.7");
    assert_eq!(a.peers[0].port, 256);
    assert!(announcement_from_compact(5, &vec![1, 2, 3]).peers.is_empty());
}

#[test]
fn info_hash_is_percent_encoded() {
    assert_eq!(urlencode_info_hash(&vec![0x00, 0xab, 0x7f, b'a']), "%00%AB%7F%61");
    assert_eq!(urlencode_info_hash(&vec![]), "");
}

#[test]
fn show_escapes_like_escape_default() {
    let bytes = vec![b'd', b'8', b':', b'\n', b'\t', b'\\', b'"', b'\'', 0, 0xff, b'\r'];
    assert_eq!(show(&bytes), "d8:\\n\\t\\\\\\\"\\'\\x00\\xff\\r");
    let all: Vec<u8> = (0..=255u8).collect();
    let expected: String = all.iter().map(|b| std::ascii::escape_default(*b).to_string()).collect();
    assert_eq!(show(&all), expected);
}

#[test]
fn announcement_query_pairs() {
    let q = announcement_query(&String::from("ABCDEFGHIJKLMNOPQRST"));
    let pairs: Vec<(&str, &str)> = q.iter().map(|(a, b)| (a.as_str(), b.as_str())).collect();
    assert_eq!(pairs, vec![
        ("peer_id", "ABCDEFGHIJKLMNOPQRST"),
        ("uploaded", "0"),
        ("downloaded", "0"),
        ("port", "6881"),
        ("left", "0"),
    ]);
}

#[test]
fn config_directory_below_home() {
    assert_eq!(config_directory_in("/home/u"), "/home/u/.rustorcli");
}
