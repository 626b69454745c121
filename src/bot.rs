//! The bot's state: its database of objects, its bounded undo history and its display channels.
use crate::id_map::IdMap;
use crate::object::Object;
use crate::tools::{decimal_u64, matches_name, name_matches, parse_u64};
use std::collections::VecDeque;
use vstd::prelude::*;

verus! {

/// Number of edits that the undo history remembers.
pub const HISTORY_DEPTH: usize = 5;

/// One archived edit: each identifier with the object it held before the edit, or `None` where
/// the edit created it.
pub type Batch<T> = Vec<(u64, Option<Object<T>>)>;

/// The database as a map from identifiers to objects.
pub type Db<T> = Map<u64, Object<T>>;

/// `batch` records, for each of `ids` in order, a copy of what `db` held under it.
pub open spec fn snapshot_of<T: Clone>(db: Db<T>, ids: Seq<u64>, batch: Seq<(u64, Option<Object<T>>)>) -> bool {
    &&& batch.len() == ids.len()
    &&& forall|i: int| 0 <= i < ids.len() ==> {
        &&& (#[trigger] batch[i]).0 == ids[i]
        &&& match batch[i].1 {
            Some(o) => db.contains_key(ids[i]) && o.copy_of(db[ids[i]]),
            None => !db.contains_key(ids[i]),
        }
    }
}

/// The history after a new batch is archived: the batch comes first, and the oldest batch is
/// dropped once the history is full.
pub open spec fn pushed<B>(h: Seq<B>, b: B) -> Seq<B> {
    seq![b] + if h.len() >= HISTORY_DEPTH { h.subrange(0, HISTORY_DEPTH - 1) } else { h }
}

/// The history after archiving each of `bs` in order.
pub open spec fn pushed_all<B>(h: Seq<B>, bs: Seq<B>) -> Seq<B>
    decreases bs.len(),
{
    if bs.len() == 0 {
        h
    } else {
        pushed(pushed_all(h, bs.drop_last()), bs.last())
    }
}

/// What undoing one entry of a batch does to the database.
pub open spec fn undo_one<T>(db: Db<T>, entry: (u64, Option<Object<T>>)) -> Db<T> {
    match entry.1 {
        Some(o) => db.insert(entry.0, o.with_modified(true)),
        None => db.remove(entry.0),
    }
}

/// What undoing a whole batch does to the database: its entries are undone in order.
pub open spec fn restore<T>(db: Db<T>, batch: Seq<(u64, Option<Object<T>>)>) -> Db<T>
    decreases batch.len(),
{
    if batch.len() == 0 {
        db
    } else {
        undo_one(restore(db, batch.drop_last()), batch.last())
    }
}

/// The objects, in the order of `keys`, whose name the search criterion matches.
pub open spec fn search_of<T>(keys: Seq<u64>, db: Db<T>, criterion: Seq<char>) -> Seq<u64>
    decreases keys.len(),
{
    if keys.len() == 0 {
        Seq::empty()
    } else {
        let rest = search_of(keys.drop_last(), db, criterion);
        let k = keys.last();
        if db.contains_key(k) && name_matches(criterion, db[k].name@) {
            rest.push(k)
        } else {
            rest
        }
    }
}

/// Some object among `keys` is named `name`.
pub open spec fn name_taken<T>(keys: Seq<u64>, db: Db<T>, name: Seq<char>) -> bool {
    exists|j: int| 0 <= j < keys.len() && db.contains_key(keys[j]) && (#[trigger] db[keys[j]]).name@ == name
}

/// The duplicates among `keys`: each object whose name an earlier object of `keys` has.
pub open spec fn duplicates_of<T>(keys: Seq<u64>, db: Db<T>) -> Seq<u64>
    decreases keys.len(),
{
    if keys.len() == 0 {
        Seq::empty()
    } else {
        let rest = duplicates_of(keys.drop_last(), db);
        let k = keys.last();
        if db.contains_key(k) && name_taken(keys.drop_last(), db, db[k].name@) {
            rest.push(k)
        } else {
            rest
        }
    }
}

/// The outcome of looking an object up from a user's criterion.
#[derive(Clone, Copy, Debug, PartialEq, Eq, Structural)]
pub enum Lookup {
    /// The criterion designates this object.
    Found(u64),
    /// The criterion is an identifier, and no object has it.
    NoSuchId,
    /// The criterion matches the names of several objects.
    Ambiguous,
    /// The criterion matches no name.
    NoMatch,
}

/// The database with every modification flag cleared.
pub open spec fn all_clear<T>(db: Db<T>) -> Db<T> {
    Map::new(|k: u64| db.contains_key(k), |k: u64| db[k].with_modified(false))
}

/// State of a bot: the database, the undo history, and whether the display channels need an
/// update.
pub struct Bot<T> {
    /// The objects, by identifier.
    pub database: IdMap<Object<T>>,
    history: VecDeque<Batch<T>>,
    /// Set by every edit of the database; the display channels are updated and the flag
    /// cleared once the current event is handled.
    pub update_affichans: bool,
}

impl<T> Bot<T> {
    /// The database as a map.
    pub closed spec fn db(&self) -> Db<T> {
        self.database@
    }

    /// The identifiers of the objects, in the order in which walks over the database visit them.
    pub closed spec fn order(&self) -> Seq<u64> {
        self.database.key_seq()
    }

    /// Whether the display channels need an update.
    pub closed spec fn pending(&self) -> bool {
        self.update_affichans
    }

    /// The archived batches, newest first.
    pub closed spec fn batches(&self) -> Seq<Seq<(u64, Option<Object<T>>)>> {
        self.history@.map_values(|b: Batch<T>| b@)
    }

    pub closed spec fn wf(&self) -> bool {
        &&& self.database.wf()
        &&& self.history@.len() <= HISTORY_DEPTH
    }

    /// An empty bot.
    pub fn new() -> (r: Bot<T>)
        ensures
            r.wf(),
            r.db() == Map::<u64, Object<T>>::empty(),
            r.batches().len() == 0,
            !r.pending(),
    {
        Bot { database: IdMap::new(), history: VecDeque::new(), update_affichans: false }
    }

    /// Number of archived batches.
    pub fn history_len(&self) -> (r: usize)
        ensures
            r == self.batches().len(),
    {
        self.history.len()
    }

    /// Undoes the last archived edit, and returns `false` if the history is empty.
    ///
    /// Each object recorded in the batch gets back its recorded value, marked as modified so that
    /// its messages are edited; each object that the edit created is removed.
    pub fn annuler(&mut self) -> (r: bool)
        requires
            old(self).wf(),
        ensures
            final(self).wf(),
            r == (old(self).batches().len() > 0),
            r ==> {
                &&& final(self).db() == restore(old(self).db(), old(self).batches()[0])
                &&& final(self).batches() == old(self).batches().drop_first()
                &&& final(self).pending()
            },
            !r ==> {
                &&& final(self).db() == old(self).db()
                &&& final(self).batches() == old(self).batches()
                &&& final(self).pending() == old(self).pending()
            },
    {
        match self.history.pop_front() {
            Some(edit) => {
                let ghost db0 = self.database@;
                let ghost batch = edit@;
                let ghost h1 = self.history@;
                let mut rest = edit;
                let n = rest.len();
                let mut i: usize = 0;
                while rest.len() > 0
                    invariant
                        self.database.wf(),
                        self.history@ == h1,
                        h1.len() <= HISTORY_DEPTH,
                        n == batch.len(),
                        0 <= i <= batch.len(),
                        rest@ == batch.subrange(i as int, batch.len() as int),
                        self.database@ == restore(db0, batch.subrange(0, i as int)),
                    decreases rest@.len(),
                {
                    assert(rest@.len() == batch.len() - i);
                    let (id, snapshot) = rest.remove(0);
                    proof {
                        let done = batch.subrange(0, i as int + 1);
                        assert(done.drop_last() =~= batch.subrange(0, i as int));
                        assert(done.last() == batch[i as int]);
                    }
                    match snapshot {
                        Some(mut object) => {
                            object.set_modified(true);
                            self.database.insert(id, object);
                        },
                        None => {
                            self.database.remove(id);
                        },
                    }
                    i = i + 1;
                    assert(rest@ =~= batch.subrange(i as int, batch.len() as int));
                }
                assert(batch.subrange(0, i as int) =~= batch);
                self.update_affichans = true;
                proof {
                    assert(self.batches() =~= old(self).batches().drop_first());
                }
                true
            },
            None => false,
        }
    }
}

impl<T> Bot<T> {
    /// The objects whose name the criterion matches (see [`name_matches`]), in the order of the
    /// database's keys.
    pub fn search(&self, critere: &str) -> (r: Vec<u64>)
        requires
            self.wf(),
        ensures
            r@ == search_of(self.order(), self.db(), critere@),
    {
        let keys = self.database.keys();
        let mut r: Vec<u64> = Vec::new();
        let mut i: usize = 0;
        while i < keys.len()
            invariant
                keys@ == self.database.key_seq(),
                forall|k: u64| self.db().contains_key(k) <==> #[trigger] keys@.contains(k),
                0 <= i <= keys@.len(),
                r@ == search_of(keys@.subrange(0, i as int), self.db(), critere@),
            decreases keys@.len() - i,
        {
            let k = keys[i];
            proof {
                assert(keys@.subrange(0, i as int + 1).drop_last() =~= keys@.subrange(0, i as int));
            }
            match self.database.get(k) {
                Some(object) => {
                    if matches_name(critere, object.name.as_str()) {
                        r.push(k);
                    }
                },
                None => {},
            }
            i = i + 1;
        }
        assert(keys@.subrange(0, i as int) =~= keys@);
        r
    }

    /// The duplicates of the database: each object that has the name of an object before it in
    /// the order of the keys.
    pub fn duplicates(&self) -> (r: Vec<u64>)
        requires
            self.wf(),
        ensures
            r@ == duplicates_of(self.order(), self.db()),
    {
        let keys = self.database.keys();
        let ghost db = self.db();
        let mut r: Vec<u64> = Vec::new();
        let mut i: usize = 0;
        while i < keys.len()
            invariant
                db == self.db(),
                keys@ == self.database.key_seq(),
                forall|k: u64| db.contains_key(k) <==> #[trigger] keys@.contains(k),
                0 <= i <= keys@.len(),
                r@ == duplicates_of(keys@.subrange(0, i as int), db),
            decreases keys@.len() - i,
        {
            let k = keys[i];
            let ghost prefix = keys@.subrange(0, i as int);
            proof {
                assert(keys@.subrange(0, i as int + 1).drop_last() =~= prefix);
                assert(keys@.contains(k));
            }
            let object = self.database.get(k).unwrap();
            let mut j: usize = 0;
            let mut taken = false;
            while j < i
                invariant
                    db == self.db(),
                    forall|x: u64| db.contains_key(x) <==> #[trigger] keys@.contains(x),
                    0 <= j <= i < keys@.len(),
                    prefix == keys@.subrange(0, i as int),
                    db.contains_key(k) && *object == db[k],
                    taken ==> name_taken(prefix, db, object.name@),
                    !taken ==> !name_taken(prefix.subrange(0, j as int), db, object.name@),
                decreases i - j,
            {
                let other = keys[j];
                proof {
                    assert(keys@.contains(other));
                    assert(prefix[j as int] == other);
                }
                let other_name = &self.database.get(other).unwrap().name;
                if *other_name == object.name {
                    taken = true;
                    j = i;
                } else {
                    proof {
                        let s = prefix.subrange(0, j as int + 1);
                        if name_taken(s, db, object.name@) {
                            let w = choose|w: int| 0 <= w < s.len() && db.contains_key(s[w]) && (#[trigger] db[s[w]]).name@ == object.name@;
                            if w < j {
                                assert(prefix.subrange(0, j as int)[w] == s[w]);
                            }
                        }
                    }
                    j = j + 1;
                }
            }
            proof {
                if !taken {
                    assert(prefix.subrange(0, i as int) =~= prefix);
                }
            }
            if taken {
                r.push(k);
            }
            i = i + 1;
        }
        assert(keys@.subrange(0, i as int) =~= keys@);
        r
    }

    /// Looks an object up from a user's criterion: a criterion that reads as an identifier
    /// designates that object; any other criterion is searched for among the names and must
    /// match exactly one.
    pub fn find_object(&self, critere: &str) -> (r: Lookup)
        requires
            self.wf(),
        ensures
            decimal_u64(critere@) matches Some(id) ==> r == (if self.db().contains_key(id) {
                Lookup::Found(id)
            } else {
                Lookup::NoSuchId
            }),
            decimal_u64(critere@) is None ==> {
                let found = search_of(self.order(), self.db(), critere@);
                r == if found.len() > 1 {
                    Lookup::Ambiguous
                } else if found.len() == 0 {
                    Lookup::NoMatch
                } else {
                    Lookup::Found(found[0])
                }
            },
    {
        match parse_u64(critere) {
            Some(id) => {
                if self.database.contains_key(id) {
                    Lookup::Found(id)
                } else {
                    Lookup::NoSuchId
                }
            },
            None => {
                let found = self.search(critere);
                if found.len() > 1 {
                    Lookup::Ambiguous
                } else if found.len() == 0 {
                    Lookup::NoMatch
                } else {
                    Lookup::Found(found[0])
                }
            },
        }
    }

    /// Clears the modification flag of every object, once the display channels show their
    /// current content.
    pub fn clear_modified(&mut self)
        requires
            old(self).wf(),
        ensures
            final(self).wf(),
            final(self).db() == all_clear(old(self).db()),
            final(self).batches() == old(self).batches(),
            final(self).pending() == old(self).pending(),
    {
        let ghost db0 = self.db();
        let mut ids: Vec<u64> = Vec::new();
        {
            let keys = self.database.keys();
            let mut i: usize = 0;
            while i < keys.len()
                invariant
                    0 <= i <= keys@.len(),
                    ids@ == keys@.subrange(0, i as int),
                decreases keys@.len() - i,
            {
                ids.push(keys[i]);
                i = i + 1;
                assert(ids@ =~= keys@.subrange(0, i as int));
            }
            assert(ids@ =~= keys@);
        }
        let mut i: usize = 0;
        while i < ids.len()
            invariant
                self.wf(),
                ids@.no_duplicates(),
                forall|k: u64| db0.contains_key(k) <==> #[trigger] ids@.contains(k),
                self.batches() == old(self).batches(),
                self.pending() == old(self).pending(),
                0 <= i <= ids@.len(),
                forall|k: u64| #[trigger] self.db().contains_key(k) <==> db0.contains_key(k),
                forall|k: u64| #[trigger] self.db().contains_key(k) ==> self.db()[k] == if ids@.subrange(0, i as int).contains(k) {
                    db0[k].with_modified(false)
                } else {
                    db0[k]
                },
            decreases ids@.len() - i,
        {
            let k = ids[i];
            proof {
                assert(ids@.contains(k));
                assert(!ids@.subrange(0, i as int).contains(k)) by {
                    if ids@.subrange(0, i as int).contains(k) {
                        let j = choose|j: int| 0 <= j < i && ids@.subrange(0, i as int)[j] == k;
                        assert(ids@[j] == ids@[i as int]);
                    }
                }
            }
            let ghost before = self.db();
            assert(before.contains_key(k));
            match self.database.remove(k) {
                Some(mut object) => {
                    object.set_modified(false);
                    self.database.insert(k, object);
                    assert(self.db() =~= before.insert(k, before[k].with_modified(false)));
                },
                None => {},
            }
            proof {
                assert forall|x: u64| #[trigger] ids@.subrange(0, i as int + 1).contains(x) <==> (ids@.subrange(0, i as int).contains(x) || x == k) by {
                    let s0 = ids@.subrange(0, i as int);
                    let s1 = ids@.subrange(0, i as int + 1);
                    if s1.contains(x) && x != k {
                        let j = choose|j: int| 0 <= j < s1.len() && s1[j] == x;
                        assert(s0[j] == x);
                    }
                    if s0.contains(x) {
                        let j = choose|j: int| 0 <= j < s0.len() && s0[j] == x;
                        assert(s1[j] == x);
                    }
                    assert(s1[i as int] == k);
                }
            }
            i = i + 1;
        }
        proof {
            assert(ids@.subrange(0, i as int) =~= ids@);
            assert(self.db() =~= all_clear(db0));
        }
    }
}

impl<T: Clone> Bot<T> {
    /// Archives the objects under `ids` before an edit of them, so that [`Bot::annuler`] can undo
    /// the edit.
    ///
    /// Each call with identifiers adds one batch to the history, and drops the oldest batch once
    /// the history holds five. Every call marks the display channels for an update, since it
    /// comes before an edit.
    pub fn archive(&mut self, ids: Vec<u64>)
        requires
            old(self).wf(),
        ensures
            final(self).wf(),
            final(self).db() == old(self).db(),
            final(self).pending(),
            ids@.len() == 0 ==> final(self).batches() == old(self).batches(),
            ids@.len() > 0 ==> {
                &&& final(self).batches() == pushed(old(self).batches(), final(self).batches()[0])
                &&& snapshot_of(old(self).db(), ids@, final(self).batches()[0])
            },
    {
        if ids.len() > 0 {
            if self.history.len() >= HISTORY_DEPTH {
                self.history.pop_back();
            }
            let ghost kept = self.batches();
            let ghost h1 = self.history@;
            let mut batch: Batch<T> = Vec::new();
            let mut i: usize = 0;
            while i < ids.len()
                invariant
                    self.database.wf(),
                    self.history@ == h1,
                    self.database@ == old(self).database@,
                    0 <= i <= ids@.len(),
                    snapshot_of(self.database@, ids@.subrange(0, i as int), batch@),
                decreases ids@.len() - i,
            {
                let id = ids[i];
                let snapshot = match self.database.get(id) {
                    Some(object) => Some(object.duplicate()),
                    None => None,
                };
                batch.push((id, snapshot));
                i = i + 1;
                proof {
                    let s = ids@.subrange(0, i as int);
                    assert forall|j: int| 0 <= j < s.len() implies s[j] == ids@[j] by {}
                }
            }
            assert(ids@.subrange(0, i as int) =~= ids@);
            self.history.push_front(batch);
            proof {
                let old_b = old(self).batches();
                if old_b.len() >= HISTORY_DEPTH {
                    assert(kept =~= old_b.subrange(0, HISTORY_DEPTH - 1));
                } else {
                    assert(kept =~= old_b);
                }
                assert(self.batches() =~= pushed(old_b, self.batches()[0]));
            }
        }
        self.update_affichans = true;
    }
}

/// Undoing an archived edit of an existing object gives it back the values it held before
/// the edit, whatever the edit did to the database, and marks it as modified.
pub proof fn lemma_undo_restores<T: Clone>(
    db: Db<T>,
    id: u64,
    batch: Seq<(u64, Option<Object<T>>)>,
    edited: Db<T>,
)
    requires
        db.contains_key(id),
        snapshot_of(db, seq![id], batch),
    ensures
        restore(edited, batch).contains_key(id),
        restore(edited, batch)[id].copy_of(db[id].with_modified(true)),
{
    assert(batch.drop_last() =~= Seq::<(u64, Option<Object<T>>)>::empty());
    assert(batch[0].0 == id);
}

/// Undoing an archived edit that created an object removes that object from the database,
/// whatever the edit stored under it.
pub proof fn lemma_undo_removes_created<T: Clone>(
    db: Db<T>,
    id: u64,
    batch: Seq<(u64, Option<Object<T>>)>,
    edited: Db<T>,
)
    requires
        !db.contains_key(id),
        snapshot_of(db, seq![id], batch),
    ensures
        !restore(edited, batch).contains_key(id),
{
    assert(batch.drop_last() =~= Seq::<(u64, Option<Object<T>>)>::empty());
    assert(batch[0].0 == id);
}

/// The history never holds more than five batches: archiving a sequence of batches into a
/// history of at most five leaves the smaller of five and the total count.
pub proof fn lemma_history_bounded<B>(h: Seq<B>, bs: Seq<B>)
    requires
        h.len() <= HISTORY_DEPTH,
    ensures
        pushed_all(h, bs).len() == if h.len() + bs.len() >= HISTORY_DEPTH {
            HISTORY_DEPTH as nat
        } else {
            h.len() + bs.len()
        },
    decreases bs.len(),
{
    if bs.len() > 0 {
        lemma_history_bounded(h, bs.drop_last());
    }
}

} // verus!
