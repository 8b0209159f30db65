//! What a tracker announces: the peers of a torrent and how often to ask again,
//! and the parts of the tracker exchange that are plain computation.

use vstd::prelude::*;
use crate::text::{decimal, push_decimal, u64_to_decimal};

verus! {

/// A peer that a tracker announced.
#[derive(Debug, Clone)]
pub struct PeerInfo {
    pub ip: String,
    pub port: u64,
}

/// A tracker's answer: how many seconds to wait before asking again, and the peers.
#[derive(Debug)]
pub struct Announcement {
    pub interval: i64,
    pub peers: Vec<PeerInfo>,
}

/// A request to ask a tracker for peers, handed to the thread that talks to trackers.
#[derive(Debug)]
pub struct GetAnnouncementRequest {
    pub url: String,
    pub info_hash: Vec<u8>,
    pub is_local: bool,
    pub my_id: String,
    pub download_id: u32,
    pub downloaded: u64,
    pub uploaded: u64,
}

/// The dotted-quad text of an IPv4 address.
pub open spec fn dotted_ip(a: u8, b: u8, c: u8, d: u8) -> Seq<char> {
    decimal(a as nat) + seq!['.'] + decimal(b as nat) + seq!['.'] + decimal(c as nat)
        + seq!['.'] + decimal(d as nat)
}

/// The address of the `i`-th peer of a compact peer list (six bytes per peer:
/// four of IPv4 address, two of port, most significant first).
pub open spec fn compact_peer_ip(bytes: Seq<u8>, i: int) -> Seq<char> {
    dotted_ip(bytes[6 * i], bytes[6 * i + 1], bytes[6 * i + 2], bytes[6 * i + 3])
}

/// The port of the `i`-th peer of a compact peer list.
pub open spec fn compact_peer_port(bytes: Seq<u8>, i: int) -> u64 {
    (bytes[6 * i + 4] * 256 + bytes[6 * i + 5]) as u64
}

/// Whether `peers` is what a compact peer list of `bytes` describes: one peer for
/// each whole six bytes, in order; a trailing part of fewer than six bytes is ignored.
pub open spec fn is_compact_peer_list(bytes: Seq<u8>, peers: Seq<PeerInfo>) -> bool {
    &&& peers.len() == bytes.len() / 6
    &&& forall|i: int| 0 <= i < peers.len() ==> {
        &&& (#[trigger] peers[i]).ip@ == compact_peer_ip(bytes, i)
        &&& peers[i].port == compact_peer_port(bytes, i)
    }
}

/// Each peer decoded from a compact peer list has as port the unsigned big-endian
/// value of its two port bytes, a number from 0 to 65535.
pub proof fn lemma_compact_ports(bytes: Seq<u8>, peers: Seq<PeerInfo>)
    requires
        is_compact_peer_list(bytes, peers),
    ensures
        forall|i: int| 0 <= i < peers.len() ==> {
            &&& (#[trigger] peers[i]).port == bytes[6 * i + 4] as int * 256 + bytes[6 * i + 5] as int
            &&& peers[i].port <= 65535
            &&& peers[i].port / 256 == bytes[6 * i + 4]
            &&& peers[i].port % 256 == bytes[6 * i + 5]
        },
{
    assert forall|i: int| 0 <= i < peers.len() implies {
        &&& (#[trigger] peers[i]).port == bytes[6 * i + 4] as int * 256 + bytes[6 * i + 5] as int
        &&& peers[i].port <= 65535
        &&& peers[i].port / 256 == bytes[6 * i + 4]
        &&& peers[i].port % 256 == bytes[6 * i + 5]
    } by {
        let hi = bytes[6 * i + 4] as int;
        let lo = bytes[6 * i + 5] as int;
        assert(0 <= hi * 256 + lo <= 65535) by (nonlinear_arith) requires 0 <= hi < 256, 0 <= lo < 256;
        assert((hi * 256 + lo) / 256 == hi && (hi * 256 + lo) % 256 == lo) by (nonlinear_arith)
            requires 0 <= hi < 256, 0 <= lo < 256;
    }
}

fn dotted_ip_string(a: u8, b: u8, c: u8, d: u8) -> (r: String)
    ensures
        r@ == dotted_ip(a, b, c, d),
{
    let mut s = u64_to_decimal(a as u64);
    s.append(".");
    push_decimal(&mut s, b as u64);
    s.append(".");
    push_decimal(&mut s, c as u64);
    s.append(".");
    push_decimal(&mut s, d as u64);
    proof { reveal_strlit("."); }
    assert(s@ =~= dotted_ip(a, b, c, d));
    s
}

/// Decodes a compact peer list, the form of the `peers` key that many trackers send.
pub fn parse_compact_peers(bytes: &Vec<u8>) -> (r: Vec<PeerInfo>)
    ensures
        is_compact_peer_list(bytes@, r@),
{
    let num_peers = bytes.len() / 6;
    let mut peers: Vec<PeerInfo> = Vec::new();
    let mut i: usize = 0;
    while i < num_peers
        invariant
            num_peers == bytes@.len() / 6,
            bytes@.len() <= usize::MAX,
            i <= num_peers,
            peers@.len() == i,
            forall|k: int| 0 <= k < i ==> {
                &&& (#[trigger] peers@[k]).ip@ == compact_peer_ip(bytes@, k)
                &&& peers@[k].port == compact_peer_port(bytes@, k)
            },
        decreases num_peers - i,
    {
        assert(i * 6 + 6 <= bytes@.len()) by (nonlinear_arith)
            requires i < num_peers, num_peers == bytes@.len() / 6;
        let base = i * 6;
        let port: u64 = (bytes[base + 4] as u64) * 256 + (bytes[base + 5] as u64);
        let ip = dotted_ip_string(bytes[base], bytes[base + 1], bytes[base + 2], bytes[base + 3]);
        peers.push(PeerInfo { ip, port });
        i = i + 1;
    }
    peers
}

/// The announcement that a tracker's answer with a compact peer list stands for.
pub fn announcement_from_compact(interval: i64, peers: &Vec<u8>) -> (r: Announcement)
    ensures
        r.interval == interval,
        is_compact_peer_list(peers@, r.peers@),
{
    Announcement { interval, peers: parse_compact_peers(peers) }
}

/// The upper-case hexadecimal digit of `d` (for `d < 16`).
pub open spec fn hex_upper(d: nat) -> char {
    if d < 10 { (('0' as nat) + d) as char } else { (('A' as nat) + d - 10) as char }
}

/// The lower-case hexadecimal digit of `d` (for `d < 16`).
pub open spec fn hex_lower(d: nat) -> char {
    if d < 10 { (('0' as nat) + d) as char } else { (('a' as nat) + d - 10) as char }
}

/// The percent-encoding of one byte: `%` and two upper-case hexadecimal digits.
pub open spec fn percent_encoded(b: u8) -> Seq<char> {
    seq!['%', hex_upper((b / 16) as nat), hex_upper((b % 16) as nat)]
}

/// The percent-encoding of every byte of `bytes`, one after the other.
pub open spec fn percent_encoded_all(bytes: Seq<u8>) -> Seq<char>
    decreases bytes.len(),
{
    if bytes.len() == 0 {
        Seq::empty()
    } else {
        percent_encoded_all(bytes.drop_last()) + percent_encoded(bytes.last())
    }
}

/// Calls `percent_encoding::percent_encode_byte`, which returns `%` followed by the
/// two upper-case hexadecimal digits of the byte, for every byte.
#[verifier::external_body]
fn percent_encode_byte(byte: u8) -> (r: &'static str)
    ensures
        r@ == percent_encoded(byte),
{
    percent_encoding::percent_encode_byte(byte)
}

/// The info hash as it stands in a tracker URL: every byte percent-encoded.
pub fn urlencode_info_hash(info_hash: &Vec<u8>) -> (r: String)
    ensures
        r@ == percent_encoded_all(info_hash@),
{
    let mut r = String::new();
    let mut i: usize = 0;
    while i < info_hash.len()
        invariant
            i <= info_hash@.len(),
            r@ == percent_encoded_all(info_hash@.take(i as int)),
        decreases info_hash.len() - i,
    {
        r.append(percent_encode_byte(info_hash[i]));
        assert(info_hash@.take(i + 1).drop_last() =~= info_hash@.take(i as int));
        i = i + 1;
    }
    assert(info_hash@.take(info_hash@.len() as int) =~= info_hash@);
    r
}

/// What `std::ascii::escape_default` turns a byte into: tab, carriage return,
/// line feed, quotes and backslash get a backslash escape, the other printable
/// ASCII characters stand for themselves, every other byte becomes `\x` and two
/// lower-case hexadecimal digits.
pub open spec fn escape_default_spec(b: u8) -> Seq<char> {
    if b == 9 {
        seq!['\\', 't']
    } else if b == 13 {
        seq!['\\', 'r']
    } else if b == 10 {
        seq!['\\', 'n']
    } else if b == 39 {
        seq!['\\', '\'']
    } else if b == 34 {
        seq!['\\', '"']
    } else if b == 92 {
        seq!['\\', '\\']
    } else if 32 <= b <= 126 {
        seq![b as char]
    } else {
        seq!['\\', 'x', hex_lower((b / 16) as nat), hex_lower((b % 16) as nat)]
    }
}

/// The escaped text of every byte of `bytes`, one after the other.
pub open spec fn show_spec(bytes: Seq<u8>) -> Seq<char>
    decreases bytes.len(),
{
    if bytes.len() == 0 {
        Seq::empty()
    } else {
        show_spec(bytes.drop_last()) + escape_default_spec(bytes.last())
    }
}

/// Calls `std::ascii::escape_default` on one byte and takes its text, which the
/// standard library documents as `escape_default_spec` states.
#[verifier::external_body]
fn escape_default_string(b: u8) -> (r: String)
    ensures
        r@ == escape_default_spec(b),
{
    std::ascii::escape_default(b).to_string()
}

/// A printable rendering of raw bytes, for the log.
pub fn show(bs: &Vec<u8>) -> (r: String)
    ensures
        r@ == show_spec(bs@),
{
    let mut visible = String::new();
    let mut i: usize = 0;
    while i < bs.len()
        invariant
            i <= bs@.len(),
            visible@ == show_spec(bs@.take(i as int)),
        decreases bs.len() - i,
    {
        let part = escape_default_string(bs[i]);
        visible.append(part.as_str());
        assert(bs@.take(i + 1).drop_last() =~= bs@.take(i as int));
        i = i + 1;
    }
    assert(bs@.take(bs@.len() as int) =~= bs@);
    visible
}

fn text(s: &str) -> (r: String)
    ensures
        r@ == s@,
{
    String::from_str(s)
}

/// The query of a tracker announcement: our peer id, nothing uploaded, downloaded
/// or left to report, and our port.
pub fn announcement_query(peer_id: &String) -> (r: Vec<(String, String)>)
    ensures
        r@.len() == 5,
        r@[0].0@ == "peer_id"@ && r@[0].1@ == peer_id@,
        r@[1].0@ == "uploaded"@ && r@[1].1@ == "0"@,
        r@[2].0@ == "downloaded"@ && r@[2].1@ == "0"@,
        r@[3].0@ == "port"@ && r@[3].1@ == "6881"@,
        r@[4].0@ == "left"@ && r@[4].1@ == "0"@,
{
    let mut r: Vec<(String, String)> = Vec::new();
    r.push((text("peer_id"), peer_id.clone()));
    r.push((text("uploaded"), text("0")));
    r.push((text("downloaded"), text("0")));
    r.push((text("port"), text("6881")));
    r.push((text("left"), text("0")));
    r
}

} // verus!
