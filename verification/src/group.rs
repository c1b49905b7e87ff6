//! Groups of participants.

use vstd::prelude::*;
use std::collections::HashSet;
use crate::person::PersonId;
use crate::token::{fresh_token, is_random_token};

verus! {

/// Identifier of a group: a 128-bit token. The registry of groups is keyed
/// by its number.
#[derive(Clone, Copy, PartialEq, Eq, Hash, Debug, Structural)]
pub struct GroupId(pub u128);

/// A group: an identifier, a title and the numbers of the identifiers of its
/// members.
pub struct Group {
    pub id: GroupId,
    pub title: String,
    pub people: HashSet<u128>,
}

impl Group {
    /// An empty group with a freshly drawn identifier.
    pub fn new(title: &str) -> (group: Group)
        ensures
            group.title@ == title@,
            group.people@ == Set::<u128>::empty(),
            is_random_token(group.id.0),
    {
        Group::with_id(GroupId(fresh_token()), title)
    }

    /// An empty group with the identifier `id`.
    pub fn with_id(id: GroupId, title: &str) -> (group: Group)
        ensures
            group.id == id,
            group.title@ == title@,
            group.people@ == Set::<u128>::empty(),
    {
        Group { id, title: title.to_owned(), people: HashSet::new() }
    }

    /// The title.
    pub fn get_title(&self) -> (title: &str)
        ensures
            title@ == self.title@,
    {
        self.title.as_str()
    }

    /// The numbers of the identifiers of the members.
    pub fn get_people(&self) -> (people: &HashSet<u128>)
        ensures
            people@ == self.people@,
    {
        &self.people
    }

    /// Makes `person` a member, if it is none yet.
    pub fn add_person(&mut self, person: PersonId)
        ensures
            final(self).id == old(self).id,
            final(self).title@ == old(self).title@,
            final(self).people@ == old(self).people@.insert(person.0),
    {
        self.people.insert(person.0);
    }
}

} // verus!
