//! Display channels: the index from objects to their messages, and the decisions of each
//! reconciliation pass.
//!
//! The remote calls (sending, editing, deleting and fetching messages) are made by the caller.
//! Each pass goes through three phases, in order:
//! 1. [`Affichan::edit_targets`] lists the messages to edit; the caller edits them and collects
//!    the objects whose edit failed;
//! 2. [`Affichan::prune`] drops from the index what no longer belongs to the channel, and lists
//!    the messages to delete;
//! 3. [`Affichan::new_objects`] lists the objects to send, oldest first; the caller sends them
//!    in that order and records each new message with [`Affichan::insert_message`].
use crate::bot::Db;
use crate::errors::{decimal_string, Error};
use vstd::string::StringExecFns;
use crate::id_map::IdMap;
use crate::object::Object;
use crate::tools::{decimal_u64, parse_u64, sort_by_date, sorted_by_date_desc};
use vstd::prelude::*;

verus! {

/// The object under `id` exists and the channel's test accepts it; `sel` lists the objects
/// that the test accepts.
pub open spec fn shown<T>(db: Db<T>, sel: Seq<u64>, id: u64) -> bool {
    db.contains_key(id) && sel.contains(id)
}

/// The messages to edit in the first phase: each indexed object, in the order of `keys`, that
/// is shown and modified, with its message.
pub open spec fn edits_of<T>(keys: Seq<u64>, index: Map<u64, u64>, db: Db<T>, sel: Seq<u64>) -> Seq<(u64, u64)>
    decreases keys.len(),
{
    if keys.len() == 0 {
        Seq::empty()
    } else {
        let rest = edits_of(keys.drop_last(), index, db, sel);
        let k = keys.last();
        if shown(db, sel, k) && db[k].modified {
            rest.push((k, index[k]))
        } else {
            rest
        }
    }
}

/// An indexed object keeps its message through the second phase: it is still shown and its
/// message could be edited.
pub open spec fn kept<T>(db: Db<T>, sel: Seq<u64>, fails: Seq<u64>, id: u64) -> bool {
    shown(db, sel, id) && !fails.contains(id)
}

/// The index after the second phase.
pub open spec fn after_prune<T>(index: Map<u64, u64>, db: Db<T>, sel: Seq<u64>, fails: Seq<u64>) -> Map<u64, u64> {
    Map::new(|k: u64| index.contains_key(k) && kept(db, sel, fails, k), |k: u64| index[k])
}

/// The messages deleted by the second phase, in the order of `keys`.
pub open spec fn pruned_of<T>(keys: Seq<u64>, index: Map<u64, u64>, db: Db<T>, sel: Seq<u64>, fails: Seq<u64>) -> Seq<u64>
    decreases keys.len(),
{
    if keys.len() == 0 {
        Seq::empty()
    } else {
        let rest = pruned_of(keys.drop_last(), index, db, sel, fails);
        let k = keys.last();
        if kept(db, sel, fails, k) {
            rest
        } else {
            rest.push(index[k])
        }
    }
}

/// The object under `id` must be sent in the third phase: it is shown and has no message.
pub open spec fn is_new<T>(db: Db<T>, sel: Seq<u64>, index: Map<u64, u64>, id: u64) -> bool {
    shown(db, sel, id) && !index.contains_key(id)
}

/// The index after the messages of `sent` were recorded in order.
pub open spec fn with_sent(index: Map<u64, u64>, sent: Seq<(u64, u64)>) -> Map<u64, u64>
    decreases sent.len(),
{
    if sent.len() == 0 {
        index
    } else {
        with_sent(index, sent.drop_last()).insert(sent.last().0, sent.last().1)
    }
}

/// An object has a message after the messages of `sent` were recorded if and only if it had one
/// before or `sent` records one for it.
pub proof fn lemma_with_sent_dom(index: Map<u64, u64>, sent: Seq<(u64, u64)>, id: u64)
    ensures
        with_sent(index, sent).contains_key(id) <==> (index.contains_key(id) || exists|j: int|
            0 <= j < sent.len() && (#[trigger] sent[j]).0 == id),
    decreases sent.len(),
{
    if sent.len() > 0 {
        lemma_with_sent_dom(index, sent.drop_last(), id);
        if exists|j: int| 0 <= j < sent.len() && (#[trigger] sent[j]).0 == id {
            let j = choose|j: int| 0 <= j < sent.len() && (#[trigger] sent[j]).0 == id;
            if j < sent.len() - 1 {
                assert(sent.drop_last()[j] == sent[j]);
            }
        }
        if exists|j: int| 0 <= j < sent.len() - 1 && (#[trigger] sent.drop_last()[j]).0 == id {
            let j = choose|j: int| 0 <= j < sent.len() - 1 && (#[trigger] sent.drop_last()[j]).0 == id;
            assert(sent[j] == sent.drop_last()[j]);
        }
    }
}

/// Coverage: after a pass whose sends all succeeded, every object that the channel's test
/// accepts has a message.
pub proof fn lemma_update_covers<T>(
    index: Map<u64, u64>,
    db: Db<T>,
    sel: Seq<u64>,
    fails: Seq<u64>,
    sent: Seq<(u64, u64)>,
    id: u64,
)
    requires
        shown(db, sel, id),
        forall|k: u64| #[trigger] is_new(db, sel, after_prune(index, db, sel, fails), k) ==> exists|j: int|
            0 <= j < sent.len() && (#[trigger] sent[j]).0 == k,
    ensures
        with_sent(after_prune(index, db, sel, fails), sent).contains_key(id),
{
    lemma_with_sent_dom(after_prune(index, db, sel, fails), sent, id);
    assert(is_new(db, sel, after_prune(index, db, sel, fails), id) || after_prune(index, db, sel, fails).contains_key(id));
}

/// Exclusion: after a pass that sent messages only for objects that the channel's test accepts,
/// every indexed object exists and is accepted by the test.
pub proof fn lemma_update_excludes<T>(
    index: Map<u64, u64>,
    db: Db<T>,
    sel: Seq<u64>,
    fails: Seq<u64>,
    sent: Seq<(u64, u64)>,
    id: u64,
)
    requires
        forall|j: int| 0 <= j < sent.len() ==> shown(db, sel, (#[trigger] sent[j]).0),
        with_sent(after_prune(index, db, sel, fails), sent).contains_key(id),
    ensures
        shown(db, sel, id),
{
    lemma_with_sent_dom(after_prune(index, db, sel, fails), sent, id);
}

/// The second phase prunes nothing from an index whose objects are all kept.
proof fn lemma_nothing_pruned<T>(keys: Seq<u64>, index: Map<u64, u64>, db: Db<T>, sel: Seq<u64>, fails: Seq<u64>)
    requires
        forall|k: u64| #[trigger] keys.contains(k) ==> kept(db, sel, fails, k),
    ensures
        pruned_of(keys, index, db, sel, fails) == Seq::<u64>::empty(),
    decreases keys.len(),
{
    if keys.len() > 0 {
        assert forall|k: u64| #[trigger] keys.drop_last().contains(k) implies kept(db, sel, fails, k) by {
            let j = choose|j: int| 0 <= j < keys.len() - 1 && keys.drop_last()[j] == k;
            assert(keys[j] == k);
            assert(keys.contains(k));
        }
        lemma_nothing_pruned(keys.drop_last(), index, db, sel, fails);
        assert(keys[keys.len() - 1] == keys.last());
        assert(keys.contains(keys.last()));
    }
}

/// The first phase edits nothing when no object is modified.
proof fn lemma_nothing_edited<T>(keys: Seq<u64>, index: Map<u64, u64>, db: Db<T>, sel: Seq<u64>)
    requires
        forall|k: u64| db.contains_key(k) ==> !(#[trigger] db[k]).modified,
    ensures
        edits_of(keys, index, db, sel) == Seq::<(u64, u64)>::empty(),
    decreases keys.len(),
{
    if keys.len() > 0 {
        lemma_nothing_edited(keys.drop_last(), index, db, sel);
    }
}

/// Idempotence: right after a complete pass, with no change to the database, a second pass
/// whose edits all succeed leaves the index as it is, deletes no message and sends none; once
/// the modification flags are cleared it edits none either.
pub proof fn lemma_update_idempotent<T>(
    index: Map<u64, u64>,
    db: Db<T>,
    sel: Seq<u64>,
    fails: Seq<u64>,
    sent: Seq<(u64, u64)>,
    keys: Seq<u64>,
)
    requires
        forall|k: u64| #[trigger] is_new(db, sel, after_prune(index, db, sel, fails), k) ==> exists|j: int|
            0 <= j < sent.len() && (#[trigger] sent[j]).0 == k,
        forall|j: int| 0 <= j < sent.len() ==> shown(db, sel, (#[trigger] sent[j]).0),
        forall|k: u64| #[trigger] keys.contains(k) <==> with_sent(after_prune(index, db, sel, fails), sent).contains_key(k),
    ensures
        ({
            let index1 = with_sent(after_prune(index, db, sel, fails), sent);
            &&& after_prune(index1, db, sel, Seq::empty()) == index1
            &&& pruned_of(keys, index1, db, sel, Seq::empty()) == Seq::<u64>::empty()
            &&& forall|k: u64| !is_new(db, sel, index1, k)
            &&& (forall|k: u64| db.contains_key(k) ==> !(#[trigger] db[k]).modified) ==> edits_of(keys, index1, db, sel)
                == Seq::<(u64, u64)>::empty()
        }),
{
    let index1 = with_sent(after_prune(index, db, sel, fails), sent);
    assert forall|k: u64| index1.contains_key(k) implies kept(db, sel, Seq::empty(), k) by {
        lemma_update_excludes(index, db, sel, fails, sent, k);
    }
    assert forall|k: u64| !is_new(db, sel, index1, k) by {
        if shown(db, sel, k) {
            lemma_update_covers(index, db, sel, fails, sent, k);
        }
    }
    assert(after_prune(index1, db, sel, Seq::empty()) =~= index1);
    lemma_nothing_pruned(keys, index1, db, sel, Seq::empty());
    if forall|k: u64| db.contains_key(k) ==> !(#[trigger] db[k]).modified {
        lemma_nothing_edited(keys, index1, db, sel);
    }
}

/// A message found in the channel's history, by the values that the scan reads.
pub struct ScannedMessage {
    /// Identifier of the message.
    pub id: u64,
    /// Identifier of its author.
    pub author: u64,
    /// Text of the footer of its first embed, if it has one.
    pub footer: Option<String>,
}

/// The object that a message of the bot `self_id` is tagged with: the identifier written in its
/// footer. Messages of other authors, and messages without such a footer, carry none.
pub open spec fn tag_of(m: ScannedMessage, self_id: u64) -> Option<u64> {
    if m.author == self_id {
        match m.footer {
            Some(f) => decimal_u64(f@),
            None => None,
        }
    } else {
        None
    }
}

/// The index that a scan of `msgs` builds, and the messages it deletes: each tagged message
/// indexes its object if the object exists and is not indexed yet; other tagged messages, for
/// missing objects or duplicates, are deleted; untagged messages are left alone.
pub open spec fn scan<T>(db: Db<T>, self_id: u64, msgs: Seq<ScannedMessage>) -> (Map<u64, u64>, Seq<u64>)
    decreases msgs.len(),
{
    if msgs.len() == 0 {
        (Map::empty(), Seq::empty())
    } else {
        let (index, deleted) = scan(db, self_id, msgs.drop_last());
        let m = msgs.last();
        match tag_of(m, self_id) {
            Some(oid) => if db.contains_key(oid) && !index.contains_key(oid) {
                (index.insert(oid, m.id), deleted)
            } else {
                (index, deleted.push(m.id))
            },
            None => (index, deleted),
        }
    }
}

/// An entry of a saved index: a map with the two identifiers, either of which may be missing or
/// not an integer, or something other than a map.
pub enum SavedEntry {
    Pair(Option<i64>, Option<i64>),
    Other,
}

/// Some map entry of the saved index lacks an identifier.
pub open spec fn save_malformed(entries: Seq<SavedEntry>) -> bool {
    exists|i: int| 0 <= i < entries.len() && match #[trigger] entries[i] {
        SavedEntry::Pair(a, b) => a is None || b is None,
        SavedEntry::Other => false,
    }
}

/// The pairs (object, message) that the map entries of a saved index hold, in order.
pub open spec fn saved_pairs(entries: Seq<SavedEntry>) -> Seq<(u64, u64)>
    decreases entries.len(),
{
    if entries.len() == 0 {
        Seq::empty()
    } else {
        let rest = saved_pairs(entries.drop_last());
        match entries.last() {
            SavedEntry::Pair(Some(a), Some(b)) => rest.push((a as u64, b as u64)),
            _ => rest,
        }
    }
}

/// The index recovered from saved pairs whose messages were found (`found`) on the platform;
/// a later pair for the same object wins.
pub open spec fn recovered(pairs: Seq<(u64, u64)>, found: Seq<bool>) -> Map<u64, u64>
    decreases pairs.len(),
{
    if pairs.len() == 0 || found.len() != pairs.len() {
        Map::empty()
    } else {
        let rest = recovered(pairs.drop_last(), found.drop_last());
        if found.last() {
            rest.insert(pairs.last().0, pairs.last().1)
        } else {
            rest
        }
    }
}

/// The first object, in the order of `keys`, whose message is `message_id`.
pub open spec fn object_of_message(keys: Seq<u64>, index: Map<u64, u64>, message_id: u64) -> Option<u64>
    decreases keys.len(),
{
    if keys.len() == 0 {
        None
    } else {
        match object_of_message(keys.drop_last(), index, message_id) {
            Some(k) => Some(k),
            None => if index[keys.last()] == message_id { Some(keys.last()) } else { None },
        }
    }
}

/// The indexed objects that still exist, with their messages, in the order of `keys`.
pub open spec fn existing_of<T>(keys: Seq<u64>, index: Map<u64, u64>, db: Db<T>) -> Seq<(u64, u64)>
    decreases keys.len(),
{
    if keys.len() == 0 {
        Seq::empty()
    } else {
        let rest = existing_of(keys.drop_last(), index, db);
        if db.contains_key(keys.last()) {
            rest.push((keys.last(), index[keys.last()]))
        } else {
            rest
        }
    }
}

/// Reads a saved index: `None` when the saved value is not a list, else its entries. Entries
/// that are not maps are skipped; a map entry without both identifiers makes the whole index
/// malformed.
pub fn read_save(saved: &Option<Vec<SavedEntry>>) -> (r: Result<Vec<(u64, u64)>, Error>)
    ensures
        saved is None ==> r is Err && r->Err_0 is YamlParseError,
        saved is Some && save_malformed(saved->Some_0@) ==> r is Err && r->Err_0 is YamlParseError,
        saved is Some && !save_malformed(saved->Some_0@) ==> r is Ok && r->Ok_0@ == saved_pairs(saved->Some_0@),
{
    match saved {
        None => Err(Error::YamlParseError("Erreur de yaml dans les affichans : pas un tableau.".to_string())),
        Some(entries) => {
            let mut pairs: Vec<(u64, u64)> = Vec::new();
            let mut i: usize = 0;
            while i < entries.len()
                invariant
                    saved is Some && saved->Some_0@ == entries@,
                    0 <= i <= entries@.len(),
                    !save_malformed(entries@.subrange(0, i as int)),
                    pairs@ == saved_pairs(entries@.subrange(0, i as int)),
                decreases entries@.len() - i,
            {
                proof {
                    let s = entries@.subrange(0, i as int + 1);
                    assert(s.drop_last() =~= entries@.subrange(0, i as int));
                }
                match &entries[i] {
                    SavedEntry::Pair(a, b) => {
                        match (a, b) {
                            (Some(a), Some(b)) => {
                                pairs.push((*a as u64, *b as u64));
                            },
                            _ => {
                                proof {
                                    assert(match entries@[i as int] {
                                        SavedEntry::Pair(a, b) => a is None || b is None,
                                        SavedEntry::Other => false,
                                    });
                                    assert(save_malformed(entries@));
                                }
                                return Err(Error::YamlParseError("Erreur de yaml dans un affichan : un identifiant n’est pas un entier.".to_string()));
                            },
                        }
                    },
                    SavedEntry::Other => {},
                }
                i = i + 1;
                proof {
                    let s = entries@.subrange(0, i as int);
                    if save_malformed(s) {
                        let j = choose|j: int| 0 <= j < s.len() && match #[trigger] s[j] {
                            SavedEntry::Pair(a, b) => a is None || b is None,
                            SavedEntry::Other => false,
                        };
                        assert(s[j] == entries@[j]);
                        if j < i - 1 {
                            assert(entries@.subrange(0, i - 1)[j] == entries@[j]);
                        }
                    }
                }
            }
            assert(entries@.subrange(0, i as int) =~= entries@);
            Ok(pairs)
        },
    }
}

/// Whether `v` holds `x`.
fn holds(v: &Vec<u64>, x: u64) -> (r: bool)
    ensures
        r == v@.contains(x),
{
    let mut i: usize = 0;
    while i < v.len()
        invariant
            0 <= i <= v@.len(),
            forall|j: int| 0 <= j < i ==> v@[j] != x,
        decreases v@.len() - i,
    {
        if v[i] == x {
            return true;
        }
        i = i + 1;
    }
    false
}

/// A display channel: the channel, loaded or not yet, and the index from the identifiers of
/// the objects it shows to the identifiers of their messages.
pub struct Affichan {
    chan: PreloadedChannel,
    messages: IdMap<u64>,
}

/// A channel known by its identifier, which may not have been loaded from the chat platform yet.
#[derive(Clone, Copy, Debug, PartialEq, Eq, Structural)]
pub enum PreloadedChannel {
    Loaded(u64),
    Unloaded(u64),
}

impl PreloadedChannel {
    pub open spec fn spec_id(self) -> u64 {
        match self {
            PreloadedChannel::Loaded(id) => id,
            PreloadedChannel::Unloaded(id) => id,
        }
    }

    /// The channel's identifier, or [`Error::UnloadedItem`] if it was not loaded.
    pub fn get(&self) -> (r: Result<u64, Error>)
        ensures
            match *self {
                PreloadedChannel::Loaded(id) => r == Ok::<u64, Error>(id),
                PreloadedChannel::Unloaded(id) => r == Err::<u64, Error>(Error::UnloadedItem(id)),
            },
    {
        match self {
            PreloadedChannel::Loaded(id) => Ok(*id),
            PreloadedChannel::Unloaded(id) => Err(Error::UnloadedItem(*id)),
        }
    }

    /// The channel's identifier, whether it was loaded or not.
    pub fn id(&self) -> (r: u64)
        ensures
            r == self.spec_id(),
    {
        match self {
            PreloadedChannel::Loaded(id) => *id,
            PreloadedChannel::Unloaded(id) => *id,
        }
    }
}

impl Affichan {
    /// The index, from object identifiers to message identifiers.
    pub closed spec fn index(&self) -> Map<u64, u64> {
        self.messages@
    }

    /// The indexed objects, in the order in which the passes walk them.
    pub closed spec fn indexed(&self) -> Seq<u64> {
        self.messages.key_seq()
    }

    pub closed spec fn channel(&self) -> PreloadedChannel {
        self.chan
    }

    pub closed spec fn wf(&self) -> bool {
        self.messages.wf()
    }

    /// A display channel with an empty index, for the channel `chan`, not loaded yet.
    pub fn new(chan: u64) -> (r: Affichan)
        ensures
            r.wf(),
            r.index() == Map::<u64, u64>::empty(),
            r.channel() == PreloadedChannel::Unloaded(chan),
    {
        Affichan { chan: PreloadedChannel::Unloaded(chan), messages: IdMap::new() }
    }

    /// Records that the channel was loaded from the chat platform.
    pub fn mark_loaded(&mut self)
        ensures
            final(self).channel() == PreloadedChannel::Loaded(old(self).channel().spec_id()),
            final(self).index() == old(self).index(),
            final(self).indexed() == old(self).indexed(),
            final(self).wf() == old(self).wf(),
    {
        self.chan = PreloadedChannel::Loaded(self.chan.id());
    }

    /// The channel, loaded or not.
    pub fn chan(&self) -> (r: PreloadedChannel)
        ensures
            r == self.channel(),
    {
        self.chan
    }

    /// The identifier of the channel, whether it was loaded or not.
    pub fn get_chan_id(&self) -> (r: u64)
        ensures
            r == self.channel().spec_id(),
    {
        self.chan.id()
    }

    /// Whether the object `object_id` has a message in the channel.
    pub fn contains_object(&self, object_id: u64) -> (r: bool)
        ensures
            r == self.index().contains_key(object_id),
    {
        self.messages.contains_key(object_id)
    }

    /// The message of the object `object_id`, if it has one.
    pub fn message_of(&self, object_id: u64) -> (r: Option<u64>)
        ensures
            r == (if self.index().contains_key(object_id) {
                Some(self.index()[object_id])
            } else {
                None::<u64>
            }),
    {
        match self.messages.get(object_id) {
            Some(m) => Some(*m),
            None => None,
        }
    }

    /// First phase of a pass: the indexed objects that are shown and modified, with their
    /// messages, which the caller edits to the objects' current content.
    pub fn edit_targets<T>(&self, database: &IdMap<Object<T>>, selected: &Vec<u64>) -> (r: Vec<(u64, u64)>)
        requires
            self.wf(),
        ensures
            r@ == edits_of(self.indexed(), self.index(), database@, selected@),
    {
        let keys = self.messages.keys();
        let mut r: Vec<(u64, u64)> = Vec::new();
        let mut i: usize = 0;
        while i < keys.len()
            invariant
                keys@ == self.indexed(),
                forall|k: u64| self.index().contains_key(k) <==> #[trigger] keys@.contains(k),
                0 <= i <= keys@.len(),
                r@ == edits_of(keys@.subrange(0, i as int), self.index(), database@, selected@),
            decreases keys@.len() - i,
        {
            let k = keys[i];
            proof {
                let s = keys@.subrange(0, i as int + 1);
                assert(s.drop_last() =~= keys@.subrange(0, i as int));
                assert(keys@.contains(k));
            }
            match database.get(k) {
                Some(object) => {
                    if object.modified && holds(selected, k) {
                        let m = *self.messages.get(k).unwrap();
                        r.push((k, m));
                    }
                },
                None => {},
            }
            i = i + 1;
        }
        assert(keys@.subrange(0, i as int) =~= keys@);
        r
    }

    /// Second phase of a pass: drops from the index each object that no longer exists, that the
    /// channel's test no longer accepts, or whose edit failed (`edit_fails`), and returns their
    /// messages, which the caller deletes.
    pub fn prune<T>(&mut self, database: &IdMap<Object<T>>, selected: &Vec<u64>, edit_fails: &Vec<u64>) -> (r: Vec<u64>)
        requires
            old(self).wf(),
        ensures
            final(self).wf(),
            final(self).channel() == old(self).channel(),
            final(self).index() == after_prune(old(self).index(), database@, selected@, edit_fails@),
            r@ == pruned_of(old(self).indexed(), old(self).index(), database@, selected@, edit_fails@),
    {
        let ghost index0 = self.index();
        let mut remaining: IdMap<u64> = IdMap::new();
        let mut deleted: Vec<u64> = Vec::new();
        {
            let keys = self.messages.keys();
            let mut i: usize = 0;
            while i < keys.len()
                invariant
                    keys@ == self.indexed(),
                    keys@.no_duplicates(),
                    forall|k: u64| index0.contains_key(k) <==> #[trigger] keys@.contains(k),
                    self.index() == index0,
                    remaining.wf(),
                    0 <= i <= keys@.len(),
                    forall|k: u64| #[trigger] remaining@.contains_key(k) <==> (keys@.subrange(0, i as int).contains(k) && kept(database@, selected@, edit_fails@, k)),
                    forall|k: u64| #[trigger] remaining@.contains_key(k) ==> remaining@[k] == index0[k],
                    deleted@ == pruned_of(keys@.subrange(0, i as int), index0, database@, selected@, edit_fails@),
                decreases keys@.len() - i,
            {
                let k = keys[i];
                proof {
                    let s = keys@.subrange(0, i as int + 1);
                    assert(s.drop_last() =~= keys@.subrange(0, i as int));
                    assert(keys@.contains(k));
                    assert(index0.contains_key(k));
                }
                let m = *self.messages.get(k).unwrap();
                let keep = match database.get(k) {
                    Some(_) => holds(selected, k) && !holds(edit_fails, k),
                    None => false,
                };
                if keep {
                    remaining.insert(k, m);
                } else {
                    deleted.push(m);
                }
                proof {
                    assert forall|x: u64| #[trigger] remaining@.contains_key(x) <==> (keys@.subrange(0, i as int + 1).contains(x) && kept(database@, selected@, edit_fails@, x)) by {
                        let s = keys@.subrange(0, i as int + 1);
                        if s.contains(x) && x != k {
                            let j = choose|j: int| 0 <= j < s.len() && s[j] == x;
                            assert(keys@.subrange(0, i as int)[j] == x);
                        }
                        if keys@.subrange(0, i as int).contains(x) {
                            let j = choose|j: int| 0 <= j < i && keys@.subrange(0, i as int)[j] == x;
                            assert(s[j] == x);
                        }
                        assert(s[i as int] == k);
                    }
                }
                i = i + 1;
            }
            assert(keys@.subrange(0, i as int) =~= keys@);
        }
        self.messages = remaining;
        assert(self.index() =~= after_prune(index0, database@, selected@, edit_fails@));
        deleted
    }

    /// Third phase of a pass: the objects that the channel's test accepts and that have no
    /// message, from the oldest to the most recent, in the order in which the caller sends them.
    pub fn new_objects<T>(&self, database: &IdMap<Object<T>>, selected: &Vec<u64>) -> (r: Vec<u64>)
        requires
            database.wf(),
        ensures
            r@.no_duplicates(),
            forall|id: u64| #[trigger] r@.contains(id) <==> is_new(database@, selected@, self.index(), id),
            forall|a: int, b: int| 0 <= a < b < r@.len() ==> database@[r@[a]].date <= database@[r@[b]].date,
    {
        let ghost db = database@;
        let keys = database.keys();
        let mut candidates: Vec<(u64, i64)> = Vec::new();
        let mut i: usize = 0;
        while i < keys.len()
            invariant
                db == database@,
                keys@.no_duplicates(),
                forall|k: u64| db.contains_key(k) <==> #[trigger] keys@.contains(k),
                0 <= i <= keys@.len(),
                candidates@.no_duplicates(),
                forall|j: int| 0 <= j < candidates@.len() ==> #[trigger] candidates@[j].1 == db[candidates@[j].0].date,
                forall|k: u64, d: i64| #[trigger] candidates@.contains((k, d)) ==> keys@.subrange(0, i as int).contains(k),
                forall|k: u64| keys@.subrange(0, i as int).contains(k) ==> (is_new(db, selected@, self.index(), k) <==> #[trigger] candidates@.contains((k, db[k].date))),
            decreases keys@.len() - i,
        {
            let k = keys[i];
            proof {
                assert(keys@.contains(k));
                assert(db.contains_key(k));
            }
            let ghost before = candidates@;
            match database.get(k) {
                Some(object) => {
                    if holds(selected, k) && !self.messages.contains_key(k) {
                        candidates.push((k, object.date));
                    }
                },
                None => {},
            }
            proof {
                let s0 = keys@.subrange(0, i as int);
                let s1 = keys@.subrange(0, i as int + 1);
                assert(!s0.contains(k)) by {
                    if s0.contains(k) {
                        let j = choose|j: int| 0 <= j < s0.len() && s0[j] == k;
                        assert(keys@[j] == keys@[i as int]);
                    }
                }
                assert forall|x: u64| #[trigger] s1.contains(x) <==> (s0.contains(x) || x == k) by {
                    if s1.contains(x) && x != k {
                        let j = choose|j: int| 0 <= j < s1.len() && s1[j] == x;
                        assert(s0[j] == x);
                    }
                    if s0.contains(x) {
                        let j = choose|j: int| 0 <= j < s0.len() && s0[j] == x;
                        assert(s1[j] == x);
                    }
                    assert(s1[i as int] == k);
                }
                assert forall|x: u64, d: i64| #[trigger] candidates@.contains((x, d)) implies s1.contains(x) by {
                    let j = choose|j: int| 0 <= j < candidates@.len() && candidates@[j] == (x, d);
                    if j < before.len() {
                        assert(before[j] == (x, d));
                        assert(before.contains((x, d)));
                    }
                }
                assert forall|x: u64| s1.contains(x) implies (is_new(db, selected@, self.index(), x) <==> #[trigger] candidates@.contains((x, db[x].date))) by {
                    if candidates@.contains((x, db[x].date)) && x != k {
                        let j = choose|j: int| 0 <= j < candidates@.len() && candidates@[j] == (x, db[x].date);
                        assert(j < before.len());
                        assert(before.contains((x, db[x].date)));
                    }
                    if x != k && before.contains((x, db[x].date)) {
                        let j = choose|j: int| 0 <= j < before.len() && before[j] == (x, db[x].date);
                        assert(candidates@[j] == (x, db[x].date));
                    }
                    if x == k && is_new(db, selected@, self.index(), x) {
                        assert(candidates@[candidates@.len() - 1] == (x, db[x].date));
                    }
                    if x == k && candidates@.contains((x, db[x].date)) && !is_new(db, selected@, self.index(), x) {
                        assert(candidates@ == before);
                        assert(s0.contains(x));
                    }
                }
                if candidates@.len() > before.len() {
                    assert forall|a: int, b: int| 0 <= a < b < candidates@.len() implies candidates@[a] != candidates@[b] by {
                        if b == before.len() {
                            assert(before.contains(candidates@[a]));
                        }
                    }
                }
            }
            i = i + 1;
        }
        assert(keys@.subrange(0, i as int) =~= keys@);
        let ghost cands = candidates@;
        let sorted = sort_by_date(candidates);
        proof {
            cands.lemma_multiset_has_no_duplicates();
            assert forall|p: (u64, i64)| sorted@.contains(p) <==> cands.contains(p) by {
                sorted@.to_multiset_ensures();
                cands.to_multiset_ensures();
                assert(sorted@.contains(p) <==> sorted@.to_multiset().count(p) > 0);
                assert(cands.contains(p) <==> cands.to_multiset().count(p) > 0);
            }
            assert forall|p: (u64, i64)| sorted@.to_multiset().count(p) <= 1 by {
                cands.to_multiset_ensures();
            }
            sorted@.lemma_multiset_has_no_duplicates_conv();
        }
        let mut r: Vec<u64> = Vec::new();
        let mut j: usize = sorted.len();
        while j > 0
            invariant
                0 <= j <= sorted@.len(),
                sorted_by_date_desc(sorted@),
                sorted@.no_duplicates(),
                forall|p: (u64, i64)| sorted@.contains(p) <==> cands.contains(p),
                forall|a: int| 0 <= a < cands.len() ==> #[trigger] cands[a].1 == db[cands[a].0].date,
                r@.len() == sorted@.len() - j,
                forall|a: int| 0 <= a < r@.len() ==> #[trigger] r@[a] == sorted@[sorted@.len() - 1 - a].0,
            decreases j,
        {
            j = j - 1;
            r.push(sorted[j].0);
        }
        proof {
            let n = sorted@.len();
            assert forall|a: int| 0 <= a < n implies #[trigger] sorted@[a].1 == db[sorted@[a].0].date by {
                assert(sorted@.contains(sorted@[a]));
                assert(cands.contains(sorted@[a]));
                let c = choose|c: int| 0 <= c < cands.len() && cands[c] == sorted@[a];
                assert(cands[c].1 == db[cands[c].0].date);
            }
            assert forall|a: int, b: int| 0 <= a < b < r@.len() implies r@[a] != r@[b] by {
                let pa = sorted@[n - 1 - a];
                let pb = sorted@[n - 1 - b];
                assert(pa.1 == db[pa.0].date);
                assert(pb.1 == db[pb.0].date);
            }
            assert forall|a: int, b: int| 0 <= a < b < r@.len() implies db[r@[a]].date <= db[r@[b]].date by {
                let pa = sorted@[n - 1 - a];
                let pb = sorted@[n - 1 - b];
                assert(pa.1 == db[pa.0].date);
                assert(pb.1 == db[pb.0].date);
            }
            assert forall|id: u64| #[trigger] r@.contains(id) <==> is_new(db, selected@, self.index(), id) by {
                if r@.contains(id) {
                    let a = choose|a: int| 0 <= a < r@.len() && r@[a] == id;
                    let p = sorted@[n - 1 - a];
                    assert(sorted@.contains(p));
                    assert(p.1 == db[p.0].date);
                    assert(cands.contains((id, db[id].date)));
                    assert(keys@.contains(id)) by {
                        let c = choose|c: int| 0 <= c < cands.len() && cands[c] == p;
                    }
                }
                if is_new(db, selected@, self.index(), id) {
                    assert(keys@.contains(id));
                    assert(cands.contains((id, db[id].date)));
                    assert(sorted@.contains((id, db[id].date)));
                    let c = choose|c: int| 0 <= c < n && sorted@[c] == (id, db[id].date);
                    assert(r@[n - 1 - c] == id);
                }
            }
        }
        r
    }

    /// Sets the index from saved pairs (object, message), keeping the pairs whose message was
    /// found on the platform (`found`, in the same order); the other messages are gone and their
    /// objects are sent again by the next pass.
    pub fn load_from_save(&mut self, pairs: &Vec<(u64, u64)>, found: &Vec<bool>)
        requires
            pairs@.len() == found@.len(),
        ensures
            final(self).wf(),
            final(self).channel() == old(self).channel(),
            final(self).index() == recovered(pairs@, found@),
    {
        let mut index: IdMap<u64> = IdMap::new();
        let mut i: usize = 0;
        while i < pairs.len()
            invariant
                pairs@.len() == found@.len(),
                0 <= i <= pairs@.len(),
                index.wf(),
                index@ == recovered(pairs@.subrange(0, i as int), found@.subrange(0, i as int)),
            decreases pairs@.len() - i,
        {
            proof {
                assert(pairs@.subrange(0, i as int + 1).drop_last() =~= pairs@.subrange(0, i as int));
                assert(found@.subrange(0, i as int + 1).drop_last() =~= found@.subrange(0, i as int));
            }
            if found[i] {
                index.insert(pairs[i].0, pairs[i].1);
            }
            i = i + 1;
        }
        assert(pairs@.subrange(0, i as int) =~= pairs@);
        assert(found@.subrange(0, i as int) =~= found@);
        self.messages = index;
    }

    /// Sets the index from the messages of the channel's history, as [`scan`] says, and returns
    /// the messages to delete: those tagged with a missing object, and the extra messages of an
    /// object that already has one.
    pub fn load_from_messages<T>(&mut self, database: &IdMap<Object<T>>, self_id: u64, messages: &Vec<ScannedMessage>) -> (r: Vec<u64>)
        ensures
            final(self).wf(),
            final(self).channel() == old(self).channel(),
            final(self).index() == scan(database@, self_id, messages@).0,
            r@ == scan(database@, self_id, messages@).1,
    {
        let mut index: IdMap<u64> = IdMap::new();
        let mut deleted: Vec<u64> = Vec::new();
        let mut i: usize = 0;
        while i < messages.len()
            invariant
                0 <= i <= messages@.len(),
                index.wf(),
                (index@, deleted@) == scan(database@, self_id, messages@.subrange(0, i as int)),
            decreases messages@.len() - i,
        {
            proof {
                assert(messages@.subrange(0, i as int + 1).drop_last() =~= messages@.subrange(0, i as int));
            }
            let m = &messages[i];
            if m.author == self_id {
                match &m.footer {
                    Some(f) => {
                        match parse_u64(f.as_str()) {
                            Some(oid) => {
                                if database.contains_key(oid) && !index.contains_key(oid) {
                                    index.insert(oid, m.id);
                                } else {
                                    deleted.push(m.id);
                                }
                            },
                            None => {},
                        }
                    },
                    None => {},
                }
            }
            i = i + 1;
        }
        assert(messages@.subrange(0, i as int) =~= messages@);
        self.messages = index;
        deleted
    }

    /// Lists the messages of the channel, which the caller deletes to have them all sent again;
    /// the index does not change.
    pub fn refresh(&self) -> (r: Vec<u64>)
        requires
            self.wf(),
        ensures
            r@ == self.indexed().map_values(|k: u64| self.index()[k]),
    {
        let keys = self.messages.keys();
        let mut r: Vec<u64> = Vec::new();
        let mut i: usize = 0;
        while i < keys.len()
            invariant
                keys@ == self.indexed(),
                forall|k: u64| self.index().contains_key(k) <==> #[trigger] keys@.contains(k),
                0 <= i <= keys@.len(),
                r@ == keys@.subrange(0, i as int).map_values(|k: u64| self.index()[k]),
            decreases keys@.len() - i,
        {
            let k = keys[i];
            proof {
                assert(keys@.contains(k));
            }
            r.push(*self.messages.get(k).unwrap());
            i = i + 1;
            assert(r@ =~= keys@.subrange(0, i as int).map_values(|k: u64| self.index()[k]));
        }
        assert(keys@.subrange(0, i as int) =~= keys@);
        r
    }

    /// Empties the index, once the caller deleted the messages that [`Affichan::refresh`]
    /// listed; the next pass sends the objects again.
    pub fn purge(&mut self)
        ensures
            final(self).wf(),
            final(self).channel() == old(self).channel(),
            final(self).index() == Map::<u64, u64>::empty(),
    {
        self.messages.clear();
    }

    /// The message of the object `object_id`, which the caller deletes so that it is sent again
    /// at the bottom of the channel. Fails with [`Error::UnloadedItem`] if the channel is not
    /// loaded, and with [`Error::ObjectNotFound`] if the object has no message.
    pub fn up(&self, object_id: u64) -> (r: Result<u64, Error>)
        ensures
            self.channel() is Unloaded ==> r == Err::<u64, Error>(Error::UnloadedItem(self.channel().spec_id())),
            self.channel() is Loaded && !self.index().contains_key(object_id) ==> r is Err && r->Err_0 is ObjectNotFound,
            self.channel() is Loaded && self.index().contains_key(object_id) ==> r == Ok::<u64, Error>(self.index()[object_id]),
    {
        let chan = self.chan.get()?;
        match self.messages.get(object_id) {
            Some(m) => Ok(*m),
            None => {
                let text = String::from_str("Écrit ").concat(decimal_string(object_id).as_str()).concat(
                    " non trouvé dans Affichan ",
                ).concat(decimal_string(chan).as_str());
                Err(Error::ObjectNotFound(text))
            },
        }
    }

    /// Removes the object `object_id` from the index and returns its message, which the caller
    /// deletes. The next pass sends it again if it still belongs to the channel. Fails as
    /// [`Affichan::up`] does, and then changes nothing.
    pub fn remove(&mut self, object_id: u64) -> (r: Result<u64, Error>)
        requires
            old(self).wf(),
        ensures
            final(self).wf(),
            final(self).channel() == old(self).channel(),
            old(self).channel() is Unloaded ==> r == Err::<u64, Error>(Error::UnloadedItem(old(self).channel().spec_id())),
            old(self).channel() is Loaded && !old(self).index().contains_key(object_id) ==> r is Err && r->Err_0 is ObjectNotFound,
            old(self).channel() is Loaded && old(self).index().contains_key(object_id) ==> r == Ok::<u64, Error>(old(self).index()[object_id]),
            r is Ok ==> final(self).index() == old(self).index().remove(object_id),
            r is Err ==> final(self).index() == old(self).index(),
    {
        let m = self.up(object_id)?;
        self.messages.remove(object_id);
        Ok(m)
    }

    /// Handles the deletion of the message `message_id` in the channel: if it was the message of
    /// an indexed object, returns that object, which the caller sends again and records with
    /// [`Affichan::insert_message`]. Fails with [`Error::UnloadedItem`] if the channel is not
    /// loaded, and with [`Error::ObjectNotFound`] if the object is no longer in the database.
    pub fn check_message_deletion<T>(&self, database: &IdMap<Object<T>>, message_id: u64) -> (r: Result<Option<u64>, Error>)
        requires
            self.wf(),
        ensures
            ({
                let found = object_of_message(self.indexed(), self.index(), message_id);
                &&& found is None ==> r == Ok::<Option<u64>, Error>(None)
                &&& found is Some && self.channel() is Unloaded ==> r == Err::<Option<u64>, Error>(Error::UnloadedItem(self.channel().spec_id()))
                &&& found is Some && self.channel() is Loaded && !database@.contains_key(found->Some_0) ==> r is Err && r->Err_0 is ObjectNotFound
                &&& found is Some && self.channel() is Loaded && database@.contains_key(found->Some_0) ==> r == Ok::<Option<u64>, Error>(found)
            }),
            r matches Ok(Some(k)) ==> self.index().contains_key(k) && self.index()[k] == message_id,
    {
        let keys = self.messages.keys();
        let mut i: usize = 0;
        let mut found: Option<u64> = None;
        while i < keys.len()
            invariant
                keys@ == self.indexed(),
                forall|k: u64| self.index().contains_key(k) <==> #[trigger] keys@.contains(k),
                0 <= i <= keys@.len(),
                found == object_of_message(keys@.subrange(0, i as int), self.index(), message_id),
                found matches Some(k) ==> self.index().contains_key(k) && self.index()[k] == message_id,
            decreases keys@.len() - i,
        {
            let k = keys[i];
            proof {
                assert(keys@.subrange(0, i as int + 1).drop_last() =~= keys@.subrange(0, i as int));
                assert(keys@.contains(k));
            }
            if found.is_none() && *self.messages.get(k).unwrap() == message_id {
                found = Some(k);
            }
            i = i + 1;
        }
        assert(keys@.subrange(0, i as int) =~= keys@);
        match found {
            None => Ok(None),
            Some(object_id) => {
                let chan = self.chan.get()?;
                if database.contains_key(object_id) {
                    Ok(Some(object_id))
                } else {
                    let text = String::from_str("Objet ").concat(decimal_string(object_id).as_str()).concat(
                        " référencé dans un message supprimé dans Affichan ",
                    ).concat(decimal_string(chan).as_str());
                    Err(Error::ObjectNotFound(text))
                }
            },
        }
    }

    /// The indexed objects that still exist, with their messages, all of which the caller edits
    /// to the objects' current content, whether they were modified or not.
    pub fn edit_all_messages<T>(&self, database: &IdMap<Object<T>>) -> (r: Vec<(u64, u64)>)
        requires
            self.wf(),
        ensures
            r@ == existing_of(self.indexed(), self.index(), database@),
    {
        let keys = self.messages.keys();
        let mut r: Vec<(u64, u64)> = Vec::new();
        let mut i: usize = 0;
        while i < keys.len()
            invariant
                keys@ == self.indexed(),
                forall|k: u64| self.index().contains_key(k) <==> #[trigger] keys@.contains(k),
                0 <= i <= keys@.len(),
                r@ == existing_of(keys@.subrange(0, i as int), self.index(), database@),
            decreases keys@.len() - i,
        {
            let k = keys[i];
            proof {
                assert(keys@.subrange(0, i as int + 1).drop_last() =~= keys@.subrange(0, i as int));
                assert(keys@.contains(k));
            }
            if database.contains_key(k) {
                r.push((k, *self.messages.get(k).unwrap()));
            }
            i = i + 1;
        }
        assert(keys@.subrange(0, i as int) =~= keys@);
        r
    }

    /// The index as pairs (object, message), to be saved.
    pub fn save(&self) -> (r: Vec<(u64, u64)>)
        requires
            self.wf(),
        ensures
            r@ == self.indexed().map_values(|k: u64| (k, self.index()[k])),
    {
        let keys = self.messages.keys();
        let mut r: Vec<(u64, u64)> = Vec::new();
        let mut i: usize = 0;
        while i < keys.len()
            invariant
                keys@ == self.indexed(),
                forall|k: u64| self.index().contains_key(k) <==> #[trigger] keys@.contains(k),
                0 <= i <= keys@.len(),
                r@ == keys@.subrange(0, i as int).map_values(|k: u64| (k, self.index()[k])),
            decreases keys@.len() - i,
        {
            let k = keys[i];
            proof {
                assert(keys@.contains(k));
            }
            r.push((k, *self.messages.get(k).unwrap()));
            i = i + 1;
            assert(r@ =~= keys@.subrange(0, i as int).map_values(|k: u64| (k, self.index()[k])));
        }
        assert(keys@.subrange(0, i as int) =~= keys@);
        r
    }

    /// Records the message `message_id` of the object `object_id`: a message sent in the third
    /// phase, or sent again after its previous message was deleted.
    pub fn insert_message(&mut self, object_id: u64, message_id: u64)
        requires
            old(self).wf(),
        ensures
            final(self).wf(),
            final(self).channel() == old(self).channel(),
            final(self).index() == old(self).index().insert(object_id, message_id),
    {
        self.messages.insert(object_id, message_id);
    }
}

} // verus!
