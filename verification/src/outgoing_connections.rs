//! Requests to open connections to peers, and what comes back of them.

use vstd::prelude::*;
use crate::text::{decimal, push_decimal, str_equal};

verus! {

/// A request to connect to a peer of a download and do the handshake.
#[derive(Debug)]
pub struct OpenConnectionRequest {
    pub ip: String,
    pub port: u64,
    pub my_id: String,
    pub info_hash: Vec<u8>,
    pub download_id: usize,
    pub peer_id: usize,
}

/// That a connection to a peer could not be opened.
#[derive(Clone, Debug)]
pub struct ConnectionError {
    peer_id: usize,
    download_id: u32,
}

impl ConnectionError {
    pub fn new(peer_id: usize, download_id: u32) -> (r: ConnectionError)
        ensures
            r.spec_peer_id() == peer_id,
            r.spec_download_id() == download_id,
    {
        ConnectionError { peer_id, download_id }
    }

    pub closed spec fn spec_peer_id(self) -> usize {
        self.peer_id
    }

    pub closed spec fn spec_download_id(self) -> u32 {
        self.download_id
    }

    pub fn peer_id(&self) -> (r: usize)
        ensures
            r == self.spec_peer_id(),
    {
        self.peer_id
    }

    pub fn download_id(&self) -> (r: u32)
        ensures
            r == self.spec_download_id(),
    {
        self.download_id
    }

    /// The text that describes the error: `ConnectionError(peer_id=.., download_id=..)`.
    pub fn describe(&self) -> (r: String)
        ensures
            r@ == seq!['C', 'o', 'n', 'n', 'e', 'c', 't', 'i', 'o', 'n', 'E', 'r', 'r', 'o', 'r', '(', 'p', 'e', 'e', 'r', '_', 'i', 'd', '=']
                + decimal(self.spec_peer_id() as nat)
                + seq![',', ' ', 'd', 'o', 'w', 'n', 'l', 'o', 'a', 'd', '_', 'i', 'd', '=']
                + decimal(self.spec_download_id() as nat) + seq![')'],
    {
        let mut r = String::from_str("ConnectionError(peer_id=");
        push_decimal(&mut r, self.peer_id as u64);
        r.append(", download_id=");
        push_decimal(&mut r, self.download_id as u64);
        r.append(")");
        proof {
            reveal_strlit("ConnectionError(peer_id=");
            reveal_strlit(", download_id=");
            reveal_strlit(")");
        }
        assert(r@ =~= seq!['C', 'o', 'n', 'n', 'e', 'c', 't', 'i', 'o', 'n', 'E', 'r', 'r', 'o', 'r', '(', 'p', 'e', 'e', 'r', '_', 'i', 'd', '=']
                + decimal(self.peer_id as nat)
                + seq![',', ' ', 'd', 'o', 'w', 'n', 'l', 'o', 'a', 'd', '_', 'i', 'd', '=']
                + decimal(self.download_id as nat) + seq![')']);
        r
    }
}

/// The loopback address `127.0.0.1`.
pub open spec fn loopback_v4() -> Seq<char> {
    seq!['1', '2', '7', '.', '0', '.', '0', '.', '1']
}

/// The address to connect to for an announced address: the IPv6 loopback forms
/// `::1` and `::ffff:127.0.0.1` become `127.0.0.1`, others stay as they are.
pub open spec fn normalized_ip_spec(ip: Seq<char>) -> Seq<char> {
    if ip == seq![':', ':', '1'] || ip == seq![':', ':', 'f', 'f', 'f', 'f', ':', '1', '2', '7', '.', '0', '.', '0', '.', '1'] {
        loopback_v4()
    } else {
        ip
    }
}

/// Replaces the IPv6 loopback forms by `127.0.0.1` (see `normalized_ip_spec`).
pub fn normalize_ip(ip: &String) -> (r: String)
    ensures
        r@ == normalized_ip_spec(ip@),
{
    proof {
        reveal_strlit("::1");
        reveal_strlit("::ffff:127.0.0.1");
        reveal_strlit("127.0.0.1");
    }
    assert("::1"@ =~= seq![':', ':', '1']);
    assert("::ffff:127.0.0.1"@ =~= seq![':', ':', 'f', 'f', 'f', 'f', ':', '1', '2', '7', '.', '0', '.', '0', '.', '1']);
    assert("127.0.0.1"@ =~= loopback_v4());
    if str_equal(ip.as_str(), "::1") || str_equal(ip.as_str(), "::ffff:127.0.0.1") {
        String::from_str("127.0.0.1")
    } else {
        ip.clone()
    }
}

/// The socket address text to connect to for a request: the normalized address,
/// a colon and the port.
pub fn connection_address(request: &OpenConnectionRequest) -> (r: String)
    ensures
        r@ == normalized_ip_spec(request.ip@) + seq![':'] + decimal(request.port as nat),
{
    let mut address = normalize_ip(&request.ip);
    address.append(":");
    push_decimal(&mut address, request.port);
    proof { reveal_strlit(":"); }
    assert(address@ =~= normalized_ip_spec(request.ip@) + seq![':'] + decimal(request.port as nat));
    address
}

} // verus!
