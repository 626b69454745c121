//! The objects that the bot keeps in its database and shows in its display channels.
use vstd::prelude::*;

verus! {

/// An object of the database: the values that the library reads, and the bot's own data.
///
/// `date` orders the objects in the display channels (a larger date is more recent), and
/// `modified` tells the display channels that the object's messages must be edited.
pub struct Object<T> {
    /// Identifier of the object, also its key in the database.
    pub id: u64,
    /// Name of the object, used by searches.
    pub name: String,
    /// Date of the object, as a number of seconds.
    pub date: i64,
    /// Set when the object changed since its messages were last edited.
    pub modified: bool,
    /// The bot's own data about the object.
    pub data: T,
}

impl<T> Object<T> {
    /// The same object with its modification flag set to `modified`.
    pub open spec fn with_modified(self, modified: bool) -> Object<T> {
        Object { modified, ..self }
    }

    pub fn new(id: u64, name: String, date: i64, data: T) -> (r: Object<T>)
        ensures
            r.id == id,
            r.name == name,
            r.date == date,
            !r.modified,
            r.data == data,
    {
        Object { id, name, date, modified: false, data }
    }

    pub fn get_id(&self) -> (r: u64)
        ensures
            r == self.id,
    {
        self.id
    }

    pub fn get_name(&self) -> (r: &String)
        ensures
            r == &self.name,
    {
        &self.name
    }

    pub fn set_name(&mut self, name: String)
        ensures
            *final(self) == (Object { name, ..*old(self) }),
    {
        self.name = name;
    }

    pub fn get_date(&self) -> (r: i64)
        ensures
            r == self.date,
    {
        self.date
    }

    pub fn set_date(&mut self, date: i64)
        ensures
            *final(self) == (Object { date, ..*old(self) }),
    {
        self.date = date;
    }

    pub fn is_modified(&self) -> (r: bool)
        ensures
            r == self.modified,
    {
        self.modified
    }

    pub fn set_modified(&mut self, modified: bool)
        ensures
            *final(self) == old(self).with_modified(modified),
    {
        self.modified = modified;
    }
}

impl<T: Clone> Object<T> {
    /// `self` holds the same values as `other`, and a clone of its data.
    pub open spec fn copy_of(self, other: Object<T>) -> bool {
        &&& self.id == other.id
        &&& self.name == other.name
        &&& self.date == other.date
        &&& self.modified == other.modified
        &&& cloned(other.data, self.data)
    }

    /// A copy of the object, with a clone of its data.
    pub fn duplicate(&self) -> (r: Object<T>)
        ensures
            r.copy_of(*self),
    {
        Object {
            id: self.id,
            name: self.name.clone(),
            date: self.date,
            modified: self.modified,
            data: self.data.clone(),
        }
    }
}

/// A property of the objects, which generic commands list and change.
pub trait Field<T>: Sized {
    /// Whether the object has the property `field`; `None` stands for any value of it.
    fn comply_with(obj: &Object<T>, field: &Option<Self>) -> bool;

    /// Gives the object the property `field`.
    fn set_for(obj: &mut Object<T>, field: &Self);

    /// Name of the property, as shown to users.
    fn field_name() -> &'static str;
}

} // verus!
