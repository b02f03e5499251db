use vstd::prelude::*;

verus! {

/// A participant: an identifier and a display name.
#[derive(Debug, Clone)]
pub struct Person {
    pub id: usize,
    name: String,
}

impl View for Person {
    type V = (usize, Seq<char>);

    closed spec fn view(&self) -> (usize, Seq<char>) {
        (self.id, self.name@)
    }
}

impl Person {
    pub fn new(id: usize, name: String) -> (p: Person)
        ensures
            p@ == (id, name@),
    {
        Person { id, name }
    }

    /// The identifier.
    pub fn id(&self) -> (r: usize)
        ensures
            r == self@.0,
    {
        self.id
    }

    /// The display name.
    pub fn name(&self) -> (r: &String)
        ensures
            r@ == self@.1,
    {
        &self.name
    }
}

} // verus!
