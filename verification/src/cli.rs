//! What the command line shows of the downloads, and the client's peer id.

use vstd::prelude::*;
use rand::Rng;
use crate::state_persistence::PersistentDownloadState;
use crate::text::{decimal, u64_to_decimal};

verus! {

/// `Y` for true, `N` for false.
pub fn short_bool(val: bool) -> (r: &'static str)
    ensures
        r@ == (if val { seq!['Y'] } else { seq!['N'] }),
{
    proof {
        reveal_strlit("Y");
        reveal_strlit("N");
    }
    if val { "Y" } else { "N" }
}

/// The text of a boolean, as `to_string` gives it.
pub open spec fn bool_text(b: bool) -> Seq<char> {
    if b { seq!['t', 'r', 'u', 'e'] } else { seq!['f', 'a', 'l', 's', 'e'] }
}

fn bool_string(b: bool) -> (r: String)
    ensures
        r@ == bool_text(b),
{
    proof {
        reveal_strlit("true");
        reveal_strlit("false");
    }
    let r = if b { String::from_str("true") } else { String::from_str("false") };
    assert(r@ =~= bool_text(b));
    r
}

/// The fields that `list` shows of a download, as text; `?` where nothing was saved.
#[derive(Debug)]
pub struct EntryListing {
    pub done: String,
    pub downloaded: String,
    pub uploaded: String,
    pub size: String,
    pub total_peers: String,
    pub incoming_peers: String,
    pub outgoing_peers: String,
    pub connected_peers: String,
    pub downloaded_pieces: String,
    pub total_pieces: String,
    pub we_unchoked: String,
    pub they_interested: String,
    pub name: String,
    pub download_speed: String,
}

fn unknown() -> (r: String)
    ensures
        r@ == seq!['?'],
{
    proof { reveal_strlit("?"); }
    let r = String::from_str("?");
    assert(r@ =~= seq!['?']);
    r
}

/// What `list` shows of a download with saved summary `state`: each count in
/// decimal, the total number of peers being the incoming plus the outgoing ones,
/// and the download speed only while the client runs; `?` for what is not known.
pub fn entry_listing(state: Option<&PersistentDownloadState>, running: bool) -> (r: EntryListing)
    ensures
        state is None ==> r.done@ == seq!['?'] && r.downloaded@ == seq!['?'] && r.uploaded@ == seq!['?']
            && r.size@ == seq!['?'] && r.total_peers@ == seq!['?'] && r.incoming_peers@ == seq!['?']
            && r.outgoing_peers@ == seq!['?'] && r.connected_peers@ == seq!['?'] && r.downloaded_pieces@ == seq!['?']
            && r.total_pieces@ == seq!['?'] && r.we_unchoked@ == seq!['?'] && r.they_interested@ == seq!['?']
            && r.name@ == seq!['?'] && r.download_speed@ == seq!['?'],
        state matches Some(s) ==> {
            &&& r.done@ == bool_text(s.done)
            &&& r.downloaded@ == decimal(s.downloaded as nat)
            &&& r.uploaded@ == decimal(s.uploaded as nat)
            &&& r.size@ == decimal(s.total_size as nat)
            &&& r.total_peers@ == decimal((s.incoming_peers + s.outgoing_peers) as nat)
            &&& r.incoming_peers@ == decimal(s.incoming_peers as nat)
            &&& r.outgoing_peers@ == decimal(s.outgoing_peers as nat)
            &&& r.connected_peers@ == decimal(s.connected_peers as nat)
            &&& r.downloaded_pieces@ == decimal(s.downloaded_pieces as nat)
            &&& r.total_pieces@ == decimal(s.total_pieces as nat)
            &&& r.we_unchoked@ == decimal(s.we_unchoked as nat)
            &&& r.they_interested@ == decimal(s.they_interested as nat)
            &&& r.name@ == s.name@
            &&& r.download_speed@ == if running { decimal(s.download_speed as nat) } else { seq!['?'] }
        },
{
    match state {
        Some(s) => EntryListing {
            done: bool_string(s.done),
            downloaded: u64_to_decimal(s.downloaded),
            uploaded: u64_to_decimal(s.uploaded),
            size: u64_to_decimal(s.total_size),
            total_peers: u64_to_decimal(s.incoming_peers as u64 + s.outgoing_peers as u64),
            incoming_peers: u64_to_decimal(s.incoming_peers as u64),
            outgoing_peers: u64_to_decimal(s.outgoing_peers as u64),
            connected_peers: u64_to_decimal(s.connected_peers as u64),
            downloaded_pieces: u64_to_decimal(s.downloaded_pieces as u64),
            total_pieces: u64_to_decimal(s.total_pieces as u64),
            we_unchoked: u64_to_decimal(s.we_unchoked as u64),
            they_interested: u64_to_decimal(s.they_interested as u64),
            name: s.name.clone(),
            download_speed: if running { u64_to_decimal(s.download_speed) } else { unknown() },
        },
        None => EntryListing {
            done: unknown(),
            downloaded: unknown(),
            uploaded: unknown(),
            size: unknown(),
            total_peers: unknown(),
            incoming_peers: unknown(),
            outgoing_peers: unknown(),
            connected_peers: unknown(),
            downloaded_pieces: unknown(),
            total_pieces: unknown(),
            we_unchoked: unknown(),
            they_interested: unknown(),
            name: unknown(),
            download_speed: unknown(),
        },
    }
}

/// Whether `c` is an ASCII letter or digit.
pub open spec fn is_alphanumeric(c: char) -> bool {
    ('A' <= c <= 'Z') || ('a' <= c <= 'z') || ('0' <= c <= '9')
}

/// Calls `rand`'s `thread_rng` and samples `n` characters from its `Alphanumeric`
/// distribution, which picks among the ASCII letters and digits. The characters
/// are random: only their number and kind are stated.
#[verifier::external_body]
fn random_alphanumeric(n: usize) -> (r: String)
    ensures
        r@.len() == n,
        forall|i: int| 0 <= i < n ==> is_alphanumeric(#[trigger] r@[i]),
{
    rand::thread_rng().sample_iter(&rand::distributions::Alphanumeric).take(n).collect()
}

/// A peer id for this run of the client: twenty random ASCII letters and digits.
pub fn generate_peer_id() -> (r: String)
    ensures
        r@.len() == 20,
        forall|i: int| 0 <= i < 20 ==> is_alphanumeric(#[trigger] r@[i]),
{
    random_alphanumeric(20)
}

} // verus!
