//! The list of torrents that the user added, and how ids are given out.

use vstd::prelude::*;
use crate::text::{decimal, str_equal, u64_to_decimal};

verus! {

/// A torrent that the user added: its id, the `.torrent` file and where to download.
#[derive(Debug)]
pub struct TorrentEntry {
    pub id: u32,
    pub torrent_path: String,
    pub download_path: String,
}

impl TorrentEntry {
    pub fn new(id: u32, torrent_path: String, download_path: String) -> (r: TorrentEntry)
        ensures
            r.id == id,
            r.torrent_path == torrent_path,
            r.download_path == download_path,
    {
        TorrentEntry { id: id, torrent_path: torrent_path, download_path: download_path }
    }
}

/// The smallest id above every id in `entries`, and at least 1.
pub open spec fn new_id_spec(entries: Seq<TorrentEntry>) -> nat
    decreases entries.len(),
{
    if entries.len() == 0 {
        1
    } else {
        let rest = new_id_spec(entries.drop_last());
        if entries.last().id >= rest { (entries.last().id + 1) as nat } else { rest }
    }
}

/// Whether every id in `entries` is below `u32::MAX`, so that one more can follow.
pub open spec fn ids_below_max(entries: Seq<TorrentEntry>) -> bool {
    forall|i: int| 0 <= i < entries.len() ==> (#[trigger] entries[i]).id < u32::MAX
}

/// The id that `new_id_spec` gives exceeds every id in the list, and is the least
/// such number that is at least 1.
pub proof fn lemma_new_id_fresh(entries: Seq<TorrentEntry>)
    ensures
        forall|i: int| 0 <= i < entries.len() ==> (#[trigger] entries[i]).id < new_id_spec(entries),
        new_id_spec(entries) >= 1,
        new_id_spec(entries) == 1 || exists|i: int| 0 <= i < entries.len() && (#[trigger] entries[i]).id + 1 == new_id_spec(entries),
    decreases entries.len(),
{
    if entries.len() > 0 {
        let rest = entries.drop_last();
        lemma_new_id_fresh(rest);
        assert forall|i: int| 0 <= i < entries.len() implies (#[trigger] entries[i]).id < new_id_spec(entries) by {
            if i < entries.len() - 1 {
                assert(entries[i] == rest[i]);
            }
        }
        if entries.last().id < new_id_spec(rest) && new_id_spec(rest) != 1 {
            let k = choose|i: int| 0 <= i < rest.len() && (#[trigger] rest[i]).id + 1 == new_id_spec(rest);
            assert(entries[k] == rest[k]);
        }
        if entries.last().id >= new_id_spec(rest) {
            assert(entries[entries.len() - 1].id + 1 == new_id_spec(entries));
        }
    }
}

/// The least id above every id in use, and at least 1.
pub fn get_new_id(entries: &Vec<TorrentEntry>) -> (r: u32)
    requires
        ids_below_max(entries@),
    ensures
        r == new_id_spec(entries@),
{
    let mut new_id: u32 = 1;
    let mut i: usize = 0;
    while i < entries.len()
        invariant
            i <= entries@.len(),
            ids_below_max(entries@),
            new_id == new_id_spec(entries@.take(i as int)),
        decreases entries.len() - i,
    {
        assert(entries@.take(i + 1).drop_last() =~= entries@.take(i as int));
        if entries[i].id >= new_id {
            new_id = entries[i].id + 1;
        }
        i = i + 1;
    }
    assert(entries@.take(entries@.len() as int) =~= entries@);
    new_id
}

/// The id that an added torrent gets: the one stored as next, unless an id in use
/// is not below it, in which case the least id above all ids in use.
pub open spec fn chosen_id_spec(entries: Seq<TorrentEntry>, stored_next_id: u32) -> nat {
    if stored_next_id < new_id_spec(entries) { new_id_spec(entries) } else { stored_next_id as nat }
}

/// Adds a torrent to the list. `stored_next_id` is the id stored as next (1 where
/// none is stored). Returns the new list and the id to store as next.
pub fn add_entry(
    entries: Vec<TorrentEntry>,
    stored_next_id: u32,
    torrent_path: String,
    download_path: String,
) -> (r: (Vec<TorrentEntry>, u32))
    requires
        ids_below_max(entries@),
        chosen_id_spec(entries@, stored_next_id) < u32::MAX,
    ensures
        r.0@.len() == entries@.len() + 1,
        r.0@.drop_last() == entries@,
        r.0@.last().id == chosen_id_spec(entries@, stored_next_id),
        r.0@.last().torrent_path == torrent_path,
        r.0@.last().download_path == download_path,
        r.1 == r.0@.last().id + 1,
        forall|i: int| 0 <= i < entries@.len() ==> (#[trigger] entries@[i]).id < r.0@.last().id,
{
    proof { lemma_new_id_fresh(entries@); }
    let new_id = get_new_id(&entries);
    let mut next_id = stored_next_id;
    if next_id < new_id {
        next_id = new_id;
    }
    let mut entries = entries;
    let ghost old_entries = entries@;
    entries.push(TorrentEntry::new(next_id, torrent_path, download_path));
    assert(entries@.drop_last() =~= old_entries);
    (entries, next_id + 1)
}

/// Whether `entry` is the one that the id text `id` names: its id's decimal text is `id`.
pub open spec fn entry_named(entry: TorrentEntry, id: Seq<char>) -> bool {
    decimal(entry.id as nat) == id
}

/// The entries that the id text `id` does not name, in their order.
pub open spec fn entries_without(entries: Seq<TorrentEntry>, id: Seq<char>) -> Seq<TorrentEntry>
    decreases entries.len(),
{
    if entries.len() == 0 {
        Seq::empty()
    } else {
        let rest = entries_without(entries.drop_last(), id);
        if entry_named(entries.last(), id) { rest } else { rest.push(entries.last()) }
    }
}

/// Whether some entry is named by the id text `id`.
pub open spec fn some_entry_named(entries: Seq<TorrentEntry>, id: Seq<char>) -> bool {
    exists|i: int| 0 <= i < entries.len() && entry_named(#[trigger] entries[i], id)
}

/// Removes the torrents whose id's decimal text is `id`. `None` where no torrent has
/// that id; the caller then reports "Id not found".
pub fn remove_entry(entries: Vec<TorrentEntry>, id: &str) -> (r: Option<Vec<TorrentEntry>>)
    ensures
        r is None <==> !some_entry_named(entries@, id@),
        r matches Some(kept) ==> kept@ == entries_without(entries@, id@),
{
    let ghost initial = entries@;
    let mut new_entries: Vec<TorrentEntry> = Vec::new();
    let mut found = false;
    let mut entries = entries;
    let n = entries.len();
    let mut i: usize = 0;
    while i < n
        invariant
            n == initial.len(),
            entries@ == initial.skip(i as int),
            i <= n,
            new_entries@ == entries_without(initial.take(i as int), id@),
            found == some_entry_named(initial.take(i as int), id@),
        decreases n - i,
    {
        let entry = entries.remove(0);
        assert(entry == initial[i as int]);
        assert(entries@ =~= initial.skip(i + 1));
        assert(initial.take(i + 1).drop_last() =~= initial.take(i as int));
        let idtext = u64_to_decimal(entry.id as u64);
        if str_equal(idtext.as_str(), id) {
            found = true;
            assert(entry_named(initial.take(i + 1)[i as int], id@));
        } else {
            new_entries.push(entry);
            assert forall|k: int| 0 <= k < i + 1 implies !entry_named(#[trigger] initial.take(i + 1)[k], id@) || found by {
                if k < i {
                    assert(initial.take(i + 1)[k] == initial.take(i as int)[k]);
                }
            }
        }
        assert(found == some_entry_named(initial.take(i + 1), id@)) by {
            if some_entry_named(initial.take(i as int), id@) {
                let k = choose|k: int| 0 <= k < i && entry_named(#[trigger] initial.take(i as int)[k], id@);
                assert(initial.take(i + 1)[k] == initial.take(i as int)[k]);
            }
            if some_entry_named(initial.take(i + 1), id@) && !found {
                let k = choose|k: int| 0 <= k < i + 1 && entry_named(#[trigger] initial.take(i + 1)[k], id@);
                if k < i {
                    assert(initial.take(i + 1)[k] == initial.take(i as int)[k]);
                }
            }
        }
        i = i + 1;
    }
    assert(initial.take(n as int) =~= initial);
    if !found {
        return None;
    }
    Some(new_entries)
}

/// The name of the file, in the configuration directory, that holds the list.
pub open spec fn entries_file_name() -> Seq<char> {
    seq!['t', 'o', 'r', 'r', 'e', 'n', 't', '-', 'e', 'n', 't', 'r', 'i', 'e', 's', '.', 'j', 's', 'o', 'n']
}

/// The path of the file that holds the list, inside the configuration directory `config_dir`.
pub fn get_entries_file_path(config_dir: &str) -> (r: String)
    ensures
        r@ == config_dir@ + seq!['/'] + entries_file_name(),
{
    let mut r = String::from_str(config_dir);
    r.append("/");
    r.append("torrent-entries.json");
    proof {
        reveal_strlit("/");
        reveal_strlit("torrent-entries.json");
    }
    assert(r@ =~= config_dir@ + seq!['/'] + entries_file_name());
    r
}

/// The path of the file, inside the configuration directory `config_dir`, that holds
/// the next id to give out.
pub fn get_next_id_file_path(config_dir: &str) -> (r: String)
    ensures
        r@ == config_dir@ + seq!['/', 'n', 'e', 'x', 't', '-', 'i', 'd'],
{
    let mut r = String::from_str(config_dir);
    r.append("/next-id");
    proof {
        reveal_strlit("/next-id");
    }
    assert(r@ =~= config_dir@ + seq!['/', 'n', 'e', 'x', 't', '-', 'i', 'd']);
    r
}

proof fn lemma_without_unnamed(entries: Seq<TorrentEntry>, id: Seq<char>)
    requires
        !some_entry_named(entries, id),
    ensures
        entries_without(entries, id) == entries,
    decreases entries.len(),
{
    if entries.len() > 0 {
        let rest = entries.drop_last();
        assert(!some_entry_named(rest, id)) by {
            if some_entry_named(rest, id) {
                let k = choose|k: int| 0 <= k < rest.len() && entry_named(#[trigger] rest[k], id);
                assert(entries[k] == rest[k]);
            }
        }
        lemma_without_unnamed(rest, id);
        assert(!entry_named(entries[entries.len() - 1], id));
        assert(rest.push(entries.last()) =~= entries);
    }
}

/// Whether no two entries share an id.
pub open spec fn ids_unique(entries: Seq<TorrentEntry>) -> bool {
    forall|i: int, j: int| 0 <= i < j < entries.len() ==> (#[trigger] entries[i]).id != (#[trigger] entries[j]).id
}

/// Adding a torrent keeps the ids unique: the new id exceeds every id in use.
pub proof fn lemma_add_keeps_ids_unique(entries: Seq<TorrentEntry>, stored_next_id: u32, added: TorrentEntry)
    requires
        ids_unique(entries),
        added.id == chosen_id_spec(entries, stored_next_id),
    ensures
        ids_unique(entries.push(added)),
{
    lemma_new_id_fresh(entries);
    let all = entries.push(added);
    assert forall|i: int, j: int| 0 <= i < j < all.len() implies (#[trigger] all[i]).id != (#[trigger] all[j]).id by {
        assert(all[i] == entries[i]);
        if j < entries.len() {
            assert(all[j] == entries[j]);
        }
    }
}

/// Every entry that remains after a removal was in the list.
proof fn lemma_without_from_entries(entries: Seq<TorrentEntry>, id: Seq<char>)
    ensures
        entries_without(entries, id).len() <= entries.len(),
        forall|k: int| 0 <= k < entries_without(entries, id).len() ==> exists|m: int|
            0 <= m < entries.len() && #[trigger] entries_without(entries, id)[k] == entries[m],
    decreases entries.len(),
{
    if entries.len() > 0 {
        let rest = entries.drop_last();
        lemma_without_from_entries(rest, id);
        let w = entries_without(entries, id);
        assert forall|k: int| 0 <= k < w.len() implies exists|m: int| 0 <= m < entries.len() && #[trigger] w[k] == entries[m] by {
            if k < entries_without(rest, id).len() {
                let m = choose|m: int| 0 <= m < rest.len() && #[trigger] entries_without(rest, id)[k] == rest[m];
                assert(w[k] == entries_without(rest, id)[k]);
                assert(rest[m] == entries[m]);
            } else {
                assert(w[k] == entries[entries.len() - 1]);
            }
        }
    }
}

/// Removing torrents keeps the ids unique.
pub proof fn lemma_remove_keeps_ids_unique(entries: Seq<TorrentEntry>, id: Seq<char>)
    requires
        ids_unique(entries),
    ensures
        ids_unique(entries_without(entries, id)),
    decreases entries.len(),
{
    if entries.len() > 0 {
        let rest = entries.drop_last();
        assert(ids_unique(rest)) by {
            assert forall|i: int, j: int| 0 <= i < j < rest.len() implies (#[trigger] rest[i]).id != (#[trigger] rest[j]).id by {
                assert(rest[i] == entries[i]);
                assert(rest[j] == entries[j]);
            }
        }
        lemma_remove_keeps_ids_unique(rest, id);
        lemma_without_from_entries(rest, id);
        let wr = entries_without(rest, id);
        let w = entries_without(entries, id);
        if !entry_named(entries.last(), id) {
            assert forall|i: int, j: int| 0 <= i < j < w.len() implies (#[trigger] w[i]).id != (#[trigger] w[j]).id by {
                assert(w[i] == wr[i]);
                if j < wr.len() {
                    assert(w[j] == wr[j]);
                } else {
                    let m = choose|m: int| 0 <= m < rest.len() && #[trigger] wr[i] == rest[m];
                    assert(rest[m] == entries[m]);
                    assert(w[j] == entries[entries.len() - 1]);
                }
            }
        }
    }
}

/// Removing the torrent just added, by its id, gives back the list as it was before
/// the addition: the new id names exactly the new entry.
pub proof fn lemma_add_then_remove(entries: Seq<TorrentEntry>, stored_next_id: u32, added: TorrentEntry)
    requires
        ids_below_max(entries),
        added.id == chosen_id_spec(entries, stored_next_id),
    ensures
        some_entry_named(entries.push(added), decimal(added.id as nat)),
        entries_without(entries.push(added), decimal(added.id as nat)) == entries,
{
    let id = decimal(added.id as nat);
    let all = entries.push(added);
    lemma_new_id_fresh(entries);
    assert(entry_named(all[entries.len() as int], id));
    assert(!some_entry_named(entries, id)) by {
        if some_entry_named(entries, id) {
            let k = choose|k: int| 0 <= k < entries.len() && entry_named(#[trigger] entries[k], id);
            crate::text::lemma_decimal_injective(entries[k].id as nat, added.id as nat);
        }
    }
    lemma_without_unnamed(entries, id);
    assert(all.drop_last() =~= entries);
}

} // verus!
