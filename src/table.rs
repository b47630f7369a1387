//! A hash table from trigram to position, held in a `hashbrown::HashMap`.
use crate::trigram::Trigram;
use vstd::prelude::*;

verus! {

/// A table from trigram to a position.
#[verifier::external_body]
pub struct TrigramTable {
    map: hashbrown::HashMap<Trigram, usize>,
}

/// The entries of a table.
pub uninterp spec fn table_contents(t: TrigramTable) -> Map<Trigram, usize>;

impl TrigramTable {
    /// Relies on hashbrown::HashMap::new: a new map has no entries.
    #[verifier::external_body]
    pub(crate) fn new() -> (r: TrigramTable)
        ensures
            table_contents(r).dom().is_empty(),
    {
        TrigramTable { map: hashbrown::HashMap::new() }
    }

    /// Relies on hashbrown::HashMap::insert: the key maps to the value
    /// afterwards, and every other entry stays.
    #[verifier::external_body]
    pub(crate) fn insert(&mut self, t: Trigram, v: usize)
        ensures
            table_contents(*final(self)) == table_contents(*old(self)).insert(t, v),
    {
        self.map.insert(t, v);
    }

    /// Relies on hashbrown::HashMap::get: the value of the key, if it has one.
    #[verifier::external_body]
    pub(crate) fn get(&self, t: &Trigram) -> (r: Option<usize>)
        ensures
            r == (if table_contents(*self).contains_key(*t) {
                Some(table_contents(*self)[*t])
            } else {
                None
            }),
    {
        self.map.get(t).copied()
    }
}

} // verus!
