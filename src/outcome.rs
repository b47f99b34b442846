//! What a load settles to, and the failure of the backing store.
use crate::model::Routine;
use vstd::prelude::*;

verus! {

/// The backing store could not answer a fetch (connection, query or timeout).
pub struct StoreError {
    pub message: String,
}

impl StoreError {
    pub fn new(message: String) -> (r: StoreError)
        ensures
            r.message == message,
    {
        StoreError { message }
    }

    pub fn message(&self) -> (r: &str)
        ensures
            r@ == self.message@,
    {
        self.message.as_str()
    }

    /// A copy of this error, handed to one more waiting caller.
    pub fn duplicate(&self) -> (r: StoreError)
        ensures
            r == *self,
    {
        StoreError { message: self.message.clone() }
    }
}

/// The settled result of loading one key: the entity, its absence, or the
/// failure of the fetch that was to bring it.
pub enum LoadOutcome {
    Found(Routine),
    Absent,
    Failed(StoreError),
}

impl LoadOutcome {
    pub fn duplicate(&self) -> (r: LoadOutcome)
        ensures
            r == *self,
    {
        match self {
            LoadOutcome::Found(e) => LoadOutcome::Found(e.duplicate()),
            LoadOutcome::Absent => LoadOutcome::Absent,
            LoadOutcome::Failed(err) => LoadOutcome::Failed(err.duplicate()),
        }
    }

    /// The outcome as a caller of `load_one` sees it: the entity or `None`,
    /// or the store's error.
    pub fn into_result(self) -> (r: Result<Option<Routine>, StoreError>)
        ensures
            r == match self {
                LoadOutcome::Found(e) => Ok(Some(e)),
                LoadOutcome::Absent => Ok(None),
                LoadOutcome::Failed(err) => Err(err),
            },
    {
        match self {
            LoadOutcome::Found(e) => Ok(Some(e)),
            LoadOutcome::Absent => Ok(None),
            LoadOutcome::Failed(err) => Err(err),
        }
    }
}

} // verus!
