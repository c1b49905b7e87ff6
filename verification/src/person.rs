//! Participants.

use vstd::prelude::*;
use crate::token::{fresh_token, is_random_token};

verus! {

/// Identifier of a participant: a 128-bit token. The registries and the
/// graph are keyed by its number.
#[derive(Clone, Copy, PartialEq, Eq, Hash, Debug, Structural)]
pub struct PersonId(pub u128);

/// A participant: an identifier, a display name and a contact string.
pub struct Person {
    pub id: PersonId,
    pub name: String,
    pub email: String,
}

impl Person {
    /// A participant with a freshly drawn identifier.
    pub fn new(name: &str, email: &str) -> (person: Person)
        ensures
            person.name@ == name@,
            person.email@ == email@,
            is_random_token(person.id.0),
    {
        Person::with_id(PersonId(fresh_token()), name, email)
    }

    /// A participant with the identifier `id`.
    pub fn with_id(id: PersonId, name: &str, email: &str) -> (person: Person)
        ensures
            person.id == id,
            person.name@ == name@,
            person.email@ == email@,
    {
        Person { id, name: name.to_owned(), email: email.to_owned() }
    }

    /// The display name.
    pub fn get_name(&self) -> (name: &str)
        ensures
            name@ == self.name@,
    {
        self.name.as_str()
    }

    /// The contact string.
    pub fn get_email(&self) -> (email: &str)
        ensures
            email@ == self.email@,
    {
        self.email.as_str()
    }
}

} // verus!
