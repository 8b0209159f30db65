use rustorcli::torrent_entries::{add_entry, get_entries_file_path, get_new_id, get_next_id_file_path, remove_entry, TorrentEntry};

fn entry(id: u32) -> TorrentEntry {
    TorrentEntry::new(id, format!("/t/{}.torrent", id), format!("/d/{}", id))
}

#[test]
fn new_ids_start_at_one_and_exceed_all() {
    assert_eq!(get_new_id(&vec![]), 1);
    assert_eq!(get_new_id(&vec![entry(1)]), 2);
    assert_eq!(get_new_id(&vec![entry(5), entry(2)]), 6);
}

#[test]
fn adding_uses_stored_next_id_when_larger() {
    let (entries, next) = add_entry(vec![], 1, String::from("/a.torrent"), String::from("/dest-a"));
    assert_eq!(entries.len(), 1);
    assert_eq!(entries[0].id, 1);
    assert_eq!(entries[0].torrent_path, "/a.torrent");
    assert_eq!(entries[0].download_path, "/dest-a");
    assert_eq!(next, 2);
    let (entries, next) = add_entry(entries, 7, String::from("/b.torrent"), String::from("/dest-b"));
    assert_eq!(entries[1].id, 7);
    assert_eq!(next, 8);
    let (entries, next) = add_entry(entries, 3, String::from("/c.torrent"), String::from("/dest-c"));
    assert_eq!(entries[2].id, 8);
    assert_eq!(next, 9);
}

#[test]
fn id_assignment_after_removal() {
    // Add one, remove it, add another: the second gets id 2.
    let (entries, next) = add_entry(vec![], 1, String::from("a"), String::from("da"));
    assert_eq!(entries[0].id, 1);
    let entries = remove_entry(entries, "1").unwrap();
    assert!(entries.is_empty());
    let (entries, _) = add_entry(entries, next, String::from("b"), String::from("db"));
    assert_eq!(entries[0].id, 2);
}

#[test]
fn removing_by_id_text() {
    let entries = vec![entry(1), entry(2), entry(3)];
    let kept = remove_entry(entries, "2").unwrap();
    let ids: Vec<u32> = kept.iter().map(|e| e.id).collect();
    assert_eq!(ids, vec![1, 3]);
}

#[test]
fn removing_non_existent_is_refused() {
    assert!(remove_entry(vec![entry(1)], "2").is_none());
    assert!(remove_entry(vec![entry(1)], "foo").is_none());
    assert!(remove_entry(vec![entry(1)], "01").is_none());
    assert!(remove_entry(vec![], "1").is_none());
}

#[test]
fn add_then_remove_restores_list() {
    let entries = vec![entry(1), entry(4)];
    let (with_new, _) = add_entry(entries, 2, String::from("n"), String::from("dn"));
    let new_id = with_new[2].id;
    assert_eq!(new_id, 5);
    let back = remove_entry(with_new, &new_id.to_string()).unwrap();
    let ids: Vec<u32> = back.iter().map(|e| e.id).collect();
    assert_eq!(ids, vec![1, 4]);
}

#[test]
fn ids_stay_unique_through_adds_and_removes() {
    let mut entries = vec![];
    let mut next = 1;
    for k in 0..5 {
        let (e, n) = add_entry(entries, next, format!("t{}", k), format!("d{}", k));
        entries = e;
        next = n;
    }
    entries = remove_entry(entries, "2").unwrap();
    let (entries, _) = add_entry(entries, 1, String::from("t"), String::from("d"));
    let mut ids: Vec<u32> = entries.iter().map(|e| e.id).collect();
    assert_eq!(ids, vec![1, 3, 4, 5, 6]);
    ids.dedup();
    assert_eq!(ids.len(), entries.len());
}

#[test]
fn entry_file_paths() {
    assert_eq!(get_entries_file_path("/h/.rustorcli"), "/h/.rustorcli/torrent-entries.json");
    assert_eq!(get_next_id_file_path("/h/.rustorcli"), "/h/.rustorcli/next-id");
}
