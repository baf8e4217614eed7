//! The data of a corpus held for the life of a process: loaded at the first
//! query and kept from then on.

use crate::artifact::{load, loaded, LoadError};
use crate::grid::last_listed;
use crate::query::GeoIndex;
use crate::record::{models, Record};
use vstd::prelude::*;

verus! {

/// The state of the data of a corpus: not yet loaded, or ready.
#[derive(Debug)]
pub struct Cache<T> {
    index: Option<GeoIndex<T>>,
}

impl<T: Record> Cache<T> {
    /// Whether the data is loaded. What is loaded is well formed.
    pub closed spec fn ready(&self) -> bool {
        self.index is Some
    }

    /// A ready cache holds a well-formed index.
    pub closed spec fn wf(&self) -> bool {
        self.index matches Some(index) ==> index.wf()
    }

    /// The index of a ready cache.
    pub closed spec fn index(&self) -> GeoIndex<T>
        recommends
            self.ready(),
    {
        self.index.unwrap()
    }

    /// A cache that holds nothing yet.
    pub fn new() -> (cache: Cache<T>)
        ensures
            cache.wf(),
            !cache.ready(),
    {
        Cache { index: None }
    }

    /// The index, if the data is loaded.
    pub fn get(&self) -> (r: Option<&GeoIndex<T>>)
        requires
            self.wf(),
        ensures
            r is Some == self.ready(),
            r matches Some(index) ==> *index == self.index() && index.wf(),
    {
        self.index.as_ref()
    }

    /// The index, loaded from the two byte strings of the corpus if it was
    /// not loaded before. A ready cache stays as it is and the bytes are not
    /// looked at; a cache whose bytes cannot be loaded stays empty and gives
    /// the reason.
    pub fn get_or_init(&mut self, item_bytes: &[u8], lookup_bytes: &[u8], fast_path: bool) -> (r:
        Result<&GeoIndex<T>, LoadError>)
        requires
            old(self).wf(),
        ensures
            final(self).wf(),
            old(self).ready() ==> *final(self) == *old(self) && (r matches Ok(index) && *index
                == old(self).index()),
            !old(self).ready() ==> match loaded::<T>(item_bytes@, lookup_bytes@) {
                Ok((items, entries)) => final(self).ready() && (r matches Ok(index) && *index
                    == final(self).index() && index.wf() && models(index.items()) == items
                    && index.fast_path() == fast_path && forall|x: int, y: int|
                    (#[trigger] index.entry(x, y)) == last_listed(entries, x, y)),
                Err(e) => !final(self).ready() && (r matches Err(f) && f == e),
            },
    {
        if self.index.is_none() {
            match load::<T>(item_bytes, lookup_bytes, fast_path) {
                Err(e) => {
                    return Err(e);
                },
                Ok(index) => {
                    self.index = Some(index);
                },
            }
        }
        Ok(self.index.as_ref().unwrap())
    }
}

} // verus!
