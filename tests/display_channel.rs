use fondabots_lib::affichan::{read_save, Affichan, PreloadedChannel, SavedEntry, ScannedMessage};
use fondabots_lib::errors::Error;
use fondabots_lib::id_map::IdMap;
use fondabots_lib::object::Object;

fn db(objects: Vec<(u64, i64, bool)>) -> IdMap<Object<()>> {
    let mut m = IdMap::new();
    for (id, date, modified) in objects {
        let mut o = Object::new(id, format!("object {id}"), date, ());
        o.set_modified(modified);
        m.insert(id, o);
    }
    m
}

/// Runs a whole pass in which every remote call succeeds, sending with message identifiers
/// counted from `next_message`; returns the edits, deletions and sends that it made.
fn pass(a: &mut Affichan, database: &IdMap<Object<()>>, selected: &Vec<u64>, next_message: u64) -> (Vec<(u64, u64)>, Vec<u64>, Vec<u64>) {
    let edits = a.edit_targets(database, selected);
    let deleted = a.prune(database, selected, &vec![]);
    let sent = a.new_objects(database, selected);
    let mut m = next_message;
    for id in &sent {
        a.insert_message(*id, m);
        m += 1;
    }
    (edits, deleted, sent)
}

fn loaded(chan: u64) -> Affichan {
    let mut a = Affichan::new(chan);
    a.mark_loaded();
    a
}

#[test]
fn new_objects_are_sent_oldest_first() {
    let database = db(vec![(3, 30, false), (1, 10, false), (2, 20, false)]);
    let a = loaded(100);
    assert_eq!(a.new_objects(&database, &vec![1, 2, 3]), vec![1, 2, 3]);
}

#[test]
fn update_covers_shown_objects_and_excludes_the_others() {
    let database = db(vec![(1, 10, false), (2, 20, false), (3, 30, false)]);
    let mut a = loaded(100);
    a.insert_message(9, 900);
    a.insert_message(3, 300);
    let (_, deleted, sent) = pass(&mut a, &database, &vec![1, 2], 1000);
    assert_eq!(sent, vec![1, 2]);
    let mut deleted = deleted;
    deleted.sort();
    assert_eq!(deleted, vec![300, 900]);
    assert!(a.contains_object(1));
    assert!(a.contains_object(2));
    assert!(!a.contains_object(3));
    assert!(!a.contains_object(9));
    assert_eq!(a.message_of(1), Some(1000));
    assert_eq!(a.message_of(2), Some(1001));
}

#[test]
fn second_update_changes_nothing() {
    let database = db(vec![(1, 10, false), (2, 20, false)]);
    let mut a = loaded(100);
    pass(&mut a, &database, &vec![1, 2], 1000);
    let first = { let mut s = a.save(); s.sort(); s };
    let (edits, deleted, sent) = pass(&mut a, &database, &vec![1, 2], 2000);
    let second = { let mut s = a.save(); s.sort(); s };
    assert!(edits.is_empty());
    assert!(deleted.is_empty());
    assert!(sent.is_empty());
    assert_eq!(first, second);
}

#[test]
fn modified_objects_are_edited_and_failed_edits_pruned() {
    let database = db(vec![(1, 10, true), (2, 20, true), (3, 30, false)]);
    let mut a = loaded(100);
    a.insert_message(1, 11);
    a.insert_message(2, 22);
    a.insert_message(3, 33);
    let mut edits = a.edit_targets(&database, &vec![1, 2, 3]);
    edits.sort();
    assert_eq!(edits, vec![(1, 11), (2, 22)]);
    let deleted = a.prune(&database, &vec![1, 2, 3], &vec![2]);
    assert_eq!(deleted, vec![22]);
    assert!(!a.contains_object(2));
    assert_eq!(a.new_objects(&database, &vec![1, 2, 3]), vec![2]);
}

#[test]
fn recovery_from_a_save_with_a_missing_message() {
    let saved = Some(vec![SavedEntry::Pair(Some(7), Some(99))]);
    let pairs = read_save(&saved).unwrap();
    assert_eq!(pairs, vec![(7, 99)]);
    let mut a = loaded(100);
    a.load_from_save(&pairs, &vec![false]);
    assert!(!a.contains_object(7));
    let database = db(vec![(7, 70, false)]);
    let (_, _, sent) = pass(&mut a, &database, &vec![7], 555);
    assert_eq!(sent, vec![7]);
    assert_eq!(a.message_of(7), Some(555));
}

#[test]
fn recovery_keeps_found_messages() {
    let mut a = loaded(100);
    a.load_from_save(&vec![(1, 10), (2, 20)], &vec![true, false]);
    assert_eq!(a.message_of(1), Some(10));
    assert!(!a.contains_object(2));
}

#[test]
fn read_save_errors() {
    assert!(matches!(read_save(&None), Err(Error::YamlParseError(_))));
    let malformed = Some(vec![SavedEntry::Pair(Some(1), Some(2)), SavedEntry::Pair(None, Some(3))]);
    assert!(matches!(read_save(&malformed), Err(Error::YamlParseError(_))));
    let skipped = Some(vec![SavedEntry::Other, SavedEntry::Pair(Some(4), Some(5))]);
    assert_eq!(read_save(&skipped).unwrap(), vec![(4, 5)]);
}

#[test]
fn scan_keeps_one_message_per_object() {
    let database = db(vec![(5, 50, false)]);
    let mut a = loaded(100);
    let messages = vec![
        ScannedMessage { id: 501, author: 42, footer: Some("5".to_string()) },
        ScannedMessage { id: 502, author: 42, footer: Some("5".to_string()) },
        ScannedMessage { id: 503, author: 42, footer: Some("8".to_string()) },
        ScannedMessage { id: 504, author: 7, footer: Some("5".to_string()) },
        ScannedMessage { id: 505, author: 42, footer: None },
        ScannedMessage { id: 506, author: 42, footer: Some("five".to_string()) },
    ];
    let deleted = a.load_from_messages(&database, 42, &messages);
    assert_eq!(a.message_of(5), Some(501));
    assert_eq!(deleted, vec![502, 503]);
    assert_eq!(a.save(), vec![(5, 501)]);
}

#[test]
fn up_and_remove_need_a_loaded_channel_and_an_indexed_object() {
    let mut unloaded = Affichan::new(100);
    unloaded.insert_message(1, 10);
    assert_eq!(unloaded.up(1), Err(Error::UnloadedItem(100)));
    let mut a = loaded(100);
    a.insert_message(1, 10);
    assert_eq!(a.up(1), Ok(10));
    assert!(a.contains_object(1));
    assert!(matches!(a.up(2), Err(Error::ObjectNotFound(_))));
    assert!(matches!(a.remove(2), Err(Error::ObjectNotFound(_))));
    assert_eq!(a.remove(1), Ok(10));
    assert!(!a.contains_object(1));
}

#[test]
fn refresh_and_purge() {
    let mut a = loaded(100);
    a.insert_message(1, 10);
    a.insert_message(2, 20);
    let mut all = a.refresh();
    all.sort();
    assert_eq!(all, vec![10, 20]);
    assert!(a.contains_object(1));
    a.purge();
    assert!(!a.contains_object(1));
    assert!(a.refresh().is_empty());
}

#[test]
fn deleted_message_is_sent_again() {
    let database = db(vec![(1, 10, false)]);
    let mut a = loaded(100);
    a.insert_message(1, 10);
    a.insert_message(2, 20);
    assert_eq!(a.check_message_deletion(&database, 77), Ok(None));
    assert_eq!(a.check_message_deletion(&database, 10), Ok(Some(1)));
    assert!(matches!(a.check_message_deletion(&database, 20), Err(Error::ObjectNotFound(_))));
    a.insert_message(1, 11);
    assert_eq!(a.message_of(1), Some(11));
    let mut unloaded = Affichan::new(5);
    unloaded.insert_message(1, 10);
    assert_eq!(unloaded.check_message_deletion(&database, 10), Err(Error::UnloadedItem(5)));
}

#[test]
fn edit_all_messages_lists_existing_objects() {
    let database = db(vec![(1, 10, false)]);
    let mut a = loaded(100);
    a.insert_message(1, 10);
    a.insert_message(2, 20);
    assert_eq!(a.edit_all_messages(&database), vec![(1, 10)]);
}

#[test]
fn channel_identity() {
    let mut a = Affichan::new(123);
    assert_eq!(a.get_chan_id(), 123);
    assert_eq!(a.chan().get(), Err(Error::UnloadedItem(123)));
    a.mark_loaded();
    assert_eq!(a.chan(), PreloadedChannel::Loaded(123));
    assert_eq!(a.chan().get(), Ok(123));
    assert_eq!(a.get_chan_id(), 123);
}
