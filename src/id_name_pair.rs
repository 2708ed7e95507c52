use vstd::prelude::*;

use uuid::Uuid;

verus! {

/// A table's identifier with its name, as listed in the tab bar.
#[derive(Debug)]
pub struct IdNamePair {
    id: Uuid,
    name: String,
}

impl IdNamePair {
    pub closed spec fn id_view(&self) -> Uuid {
        self.id
    }

    pub closed spec fn name_view(&self) -> Seq<char> {
        self.name@
    }

    pub fn new(id: Uuid, name: String) -> (r: Self)
        ensures
            r.id_view() == id,
            r.name_view() == name@,
    {
        IdNamePair { id, name }
    }

    pub fn id(&self) -> (r: Uuid)
        ensures
            r == self.id_view(),
    {
        self.id
    }

    pub fn name(&self) -> (r: &str)
        ensures
            r@ == self.name_view(),
    {
        self.name.as_str()
    }
}

} // verus!
