use fondabots_lib::bot::{Bot, Lookup};
use fondabots_lib::command_data::{CommandData, Permission};
use fondabots_lib::object::Object;

fn object(id: u64, name: &str, date: i64) -> Object<String> {
    Object::new(id, name.to_string(), date, format!("data of {id}"))
}

fn bot_with(objects: Vec<Object<String>>) -> Bot<String> {
    let mut bot = Bot::new();
    for o in objects {
        let id = o.id;
        bot.database.insert(id, o);
    }
    bot
}

#[test]
fn perms_sets_the_permission() {
    assert_eq!(CommandData::perms(Permission::MANAGE).permission, Permission::MANAGE);
    assert_eq!(CommandData::default().permission, Permission::NONE);
    assert_eq!(Permission::default(), Permission::NONE);
}

#[test]
fn undo_restores_the_value_before_the_edit() {
    let mut bot = bot_with(vec![object(1, "Alpha", 10)]);
    let o = bot.database.get(1).unwrap();
    let before = (o.name.clone(), o.date, o.data.clone());
    bot.archive(vec![1]);
    let mut edited = bot.database.remove(1).unwrap();
    edited.set_name("Beta".to_string());
    edited.data = "changed".to_string();
    bot.database.insert(1, edited);
    assert!(bot.annuler());
    let restored = bot.database.get(1).unwrap();
    assert_eq!(restored.name, before.0);
    assert_eq!(restored.date, before.1);
    assert_eq!(restored.data, before.2);
    assert!(restored.modified);
    assert!(bot.update_affichans);
}

#[test]
fn undo_removes_a_created_object() {
    let mut bot = bot_with(vec![object(1, "Alpha", 10)]);
    bot.archive(vec![42]);
    bot.database.insert(42, object(42, "New", 50));
    assert!(bot.database.contains_key(42));
    assert!(bot.annuler());
    assert!(!bot.database.contains_key(42));
    assert!(bot.database.contains_key(1));
}

#[test]
fn history_keeps_five_batches() {
    let mut bot = bot_with(vec![object(1, "Alpha", 10)]);
    for _ in 0..6 {
        bot.archive(vec![1]);
    }
    assert_eq!(bot.history_len(), 5);
    for _ in 0..5 {
        assert!(bot.annuler());
    }
    assert!(!bot.annuler());
    assert_eq!(bot.history_len(), 0);
}

#[test]
fn archive_without_ids_adds_no_batch_but_asks_for_an_update() {
    let mut bot = bot_with(vec![object(1, "Alpha", 10)]);
    assert!(!bot.update_affichans);
    bot.archive(vec![]);
    assert_eq!(bot.history_len(), 0);
    assert!(bot.update_affichans);
    assert!(!bot.annuler());
}

#[test]
fn undo_of_a_batch_applies_every_entry() {
    let mut bot = bot_with(vec![object(1, "Alpha", 10), object(2, "Beta", 20)]);
    bot.archive(vec![1, 2, 3]);
    bot.database.remove(1);
    bot.database.remove(2);
    bot.database.insert(3, object(3, "Gamma", 30));
    assert!(bot.annuler());
    assert_eq!(bot.database.get(1).unwrap().name, "Alpha");
    assert_eq!(bot.database.get(2).unwrap().name, "Beta");
    assert!(!bot.database.contains_key(3));
}

#[test]
fn clear_modified_clears_every_flag() {
    let mut bot = bot_with(vec![object(1, "Alpha", 10), object(2, "Beta", 20)]);
    bot.archive(vec![1, 2]);
    bot.database.remove(1);
    assert!(bot.annuler());
    assert!(bot.database.get(1).unwrap().modified);
    bot.clear_modified();
    assert!(!bot.database.get(1).unwrap().modified);
    assert!(!bot.database.get(2).unwrap().modified);
    assert_eq!(bot.database.len(), 2);
}

#[test]
fn search_matches_words_inside_title_words() {
    let bot = bot_with(vec![object(1, "La Fondation SCP", 10), object(2, "Autre chose", 20)]);
    assert_eq!(bot.search("fonda"), vec![1]);
    assert_eq!(bot.search("scp"), vec![1]);
    assert_eq!(bot.search("fonda scp"), vec![1]);
    assert!(bot.search("fondations").is_empty());
    assert_eq!(bot.search("CHOSE"), vec![2]);
}

#[test]
fn search_ignores_accents_and_case() {
    let bot = bot_with(vec![object(1, "Éléphant rosé", 10)]);
    assert_eq!(bot.search("elephant"), vec![1]);
    assert_eq!(bot.search("ROSE"), vec![1]);
    assert!(bot.search("rosée").is_empty());
}

#[test]
fn find_object_by_id_or_name() {
    let bot = bot_with(vec![object(1, "Alpha one", 10), object(2, "Alpha two", 20), object(3, "Beta", 30)]);
    assert_eq!(bot.find_object("2"), Lookup::Found(2));
    assert_eq!(bot.find_object("9"), Lookup::NoSuchId);
    assert_eq!(bot.find_object("alpha"), Lookup::Ambiguous);
    assert_eq!(bot.find_object("beta"), Lookup::Found(3));
    assert_eq!(bot.find_object("gamma"), Lookup::NoMatch);
}

#[test]
fn duplicates_are_the_later_objects_with_a_taken_name() {
    let bot = bot_with(vec![object(1, "Same", 10), object(2, "Other", 20), object(3, "Same", 30), object(4, "Same", 40)]);
    assert_eq!(bot.duplicates(), vec![3, 4]);
    let single = bot_with(vec![object(1, "Only", 10)]);
    assert!(single.duplicates().is_empty());
}

#[test]
fn find_object_reads_identifiers_up_to_the_largest() {
    let bot = bot_with(vec![object(u64::MAX, "Last", 10), object(5, "Five", 20)]);
    assert_eq!(bot.find_object("18446744073709551615"), Lookup::Found(u64::MAX));
    assert_eq!(bot.find_object("+5"), Lookup::Found(5));
    assert_eq!(bot.find_object("18446744073709551616"), Lookup::NoMatch);
    assert_eq!(bot.find_object("-5"), Lookup::NoMatch);
    assert_eq!(bot.find_object(""), Lookup::Ambiguous);
}
