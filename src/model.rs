//! The entities served by the workout service.
use vstd::prelude::*;

verus! {

/// One exercise of the catalogue.
pub struct Exercise {
    pub id: i32,
    pub name: String,
}

impl Exercise {
    pub fn new(id: i32, name: String) -> (r: Exercise)
        ensures
            r.id == id,
            r.name == name,
    {
        Exercise { id, name }
    }

    pub fn id(&self) -> (r: i32)
        ensures
            r == self.id,
    {
        self.id
    }

    pub fn name(&self) -> (r: &str)
        ensures
            r@ == self.name@,
    {
        self.name.as_str()
    }
}

/// One routine, the entity that the loader fetches by its key.
pub struct Routine {
    pub id: i32,
    pub name: String,
}

impl Routine {
    pub fn new(id: i32, name: String) -> (r: Routine)
        ensures
            r.id == id,
            r.name == name,
    {
        Routine { id, name }
    }

    pub fn id(&self) -> (r: i32)
        ensures
            r == self.id,
    {
        self.id
    }

    pub fn name(&self) -> (r: &str)
        ensures
            r@ == self.name@,
    {
        self.name.as_str()
    }

    /// A copy of this routine, handed to one more waiting caller.
    pub fn duplicate(&self) -> (r: Routine)
        ensures
            r == *self,
    {
        Routine { id: self.id, name: self.name.clone() }
    }
}

} // verus!
