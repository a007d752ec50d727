use vstd::prelude::*;

use crate::Atom;
use crate::Reg;

verus! {

/// The compiler's per-compilation variable allocation table: interned
/// variable id to (assigned register, seen flag). Backed by a hash map of an
/// outside crate, so the struct is opaque and its contents are reached only
/// through [`table_view`] and the wrapper methods below.
#[verifier::external_body]
pub struct AllocTable {
    map: hashbrown::HashMap<Atom, (Reg, bool)>,
}

/// The entries the table holds, as a map from variable id to
/// (assigned register, seen flag).
pub uninterp spec fn table_view(t: AllocTable) -> Map<Atom, (Reg, bool)>;

/// The contents of a table with no entries.
pub open spec fn empty_table() -> Map<Atom, (Reg, bool)> {
    Map::empty()
}

impl AllocTable {
    /// Relies on hashbrown::HashMap::new: the new map holds no entries.
    #[verifier::external_body]
    pub fn new() -> (r: AllocTable)
        ensures
            table_view(r) == empty_table(),
    {
        AllocTable { map: hashbrown::HashMap::new() }
    }

    /// Relies on hashbrown::HashMap::insert: the key now maps to the given
    /// value; every other key is untouched.
    #[verifier::external_body]
    pub fn insert(&mut self, key: Atom, reg: Reg, seen: bool)
        ensures
            table_view(*final(self)) == table_view(*old(self)).insert(key, (reg, seen)),
    {
        self.map.insert(key, (reg, seen));
    }

    /// Relies on hashbrown::HashMap::get: returns the value the key maps to,
    /// or `None` if the key is absent.
    #[verifier::external_body]
    pub fn get(&self, key: Atom) -> (r: Option<(Reg, bool)>)
        ensures
            match r {
                Some(v) => table_view(*self).contains_key(key) && table_view(*self)[key] == v,
                None => !table_view(*self).contains_key(key),
            },
    {
        self.map.get(&key).copied()
    }

    /// Relies on hashbrown::HashMap::clear: removes every entry.
    #[verifier::external_body]
    pub fn clear(&mut self)
        ensures
            table_view(*final(self)) == empty_table(),
    {
        self.map.clear();
    }
}

} // verus!
