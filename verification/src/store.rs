//! The table store: a concurrent map from logical dataset name to a cached
//! table and the modification time it was parsed at. Lookups return an
//! independent snapshot; installing an entry replaces the previous one for
//! that name wholesale and touches no other name.

use vstd::prelude::*;
use vstd::string::StringExecFns;
use crate::table::{Table, TableView};

verus! {

#[verifier::external_type_specification]
#[verifier::external_body]
#[verifier::reject_recursive_types(K)]
#[verifier::reject_recursive_types(V)]
#[verifier::reject_recursive_types(S)]
pub struct ExDashMap<K, V, S>(dashmap::DashMap<K, V, S>);

/// One cached dataset: the parsed table and the source file's modification
/// time, as an opaque tick count, at the moment it was parsed.
#[derive(Clone)]
pub struct CacheEntry {
    pub table: Table,
    pub modified: u64,
}

/// Mathematical image of a `CacheEntry`.
#[verifier::ext_equal]
pub struct EntryView {
    pub table: TableView,
    pub modified: u64,
}

impl View for CacheEntry {
    type V = EntryView;

    open spec fn view(&self) -> EntryView {
        EntryView { table: self.table@, modified: self.modified }
    }
}

/// What the concurrent map holds: the cached entry of each name.
pub uninterp spec fn store_entries(m: dashmap::DashMap<String, CacheEntry>) -> Map<
    Seq<char>,
    EntryView,
>;

/// The store's contents at birth.
pub open spec fn no_entries() -> Map<Seq<char>, EntryView> {
    Map::empty()
}

/// Relies on dashmap::DashMap::new: a fresh map holds nothing.
#[verifier::external_body]
fn dashmap_new() -> (r: dashmap::DashMap<String, CacheEntry>)
    ensures
        store_entries(r) == no_entries(),
{
    dashmap::DashMap::new()
}

/// Relies on dashmap::DashMap::insert: maps the key to the value, replacing
/// any previous entry for that key and touching no other key.
#[verifier::external_body]
fn dashmap_insert(m: &mut dashmap::DashMap<String, CacheEntry>, key: String, value: CacheEntry)
    ensures
        store_entries(*final(m)) == store_entries(*old(m)).insert(key@, value@),
{
    m.insert(key, value);
}

/// Relies on dashmap::DashMap::get: the entry of the key, if it is present.
/// The entry is cloned out of the map's guard, so the caller holds an
/// independent snapshot.
#[verifier::external_body]
fn dashmap_get(m: &dashmap::DashMap<String, CacheEntry>, key: &str) -> (r: Option<CacheEntry>)
    ensures
        match r {
            Some(e) => store_entries(*m).contains_key(key@) && e@ == store_entries(*m)[key@],
            None => !store_entries(*m).contains_key(key@),
        },
{
    m.get(key).map(|e| CacheEntry { table: e.table.clone(), modified: e.modified })
}

/// Relies on dashmap::DashMap::iter and Ref::key: every key exactly once,
/// in no promised order.
#[verifier::external_body]
fn dashmap_keys(m: &dashmap::DashMap<String, CacheEntry>) -> (r: Vec<String>)
    ensures
        r.deep_view().to_set() == store_entries(*m).dom(),
        forall|i: int, j: int| 0 <= i < j < r@.len() ==> r@[i]@ != r@[j]@,
{
    m.iter().map(|e| e.key().clone()).collect()
}

/// The modification time recorded for a name, or zero when the name has no
/// entry yet; a file whose time exceeds this is due for a refresh.
pub open spec fn spec_recorded(entries: Map<Seq<char>, EntryView>, name: Seq<char>) -> u64 {
    if entries.contains_key(name) {
        entries[name].modified
    } else {
        0
    }
}

/// A concurrent map from logical dataset name to cache entry, serving point
/// lookups and whole-entry replacement.
pub struct TableStore {
    map: dashmap::DashMap<String, CacheEntry>,
}

impl TableStore {
    /// What the store holds.
    pub closed spec fn entries(&self) -> Map<Seq<char>, EntryView> {
        store_entries(self.map)
    }

    /// An empty store.
    pub fn new() -> (r: TableStore)
        ensures
            r.entries() == no_entries(),
    {
        TableStore { map: dashmap_new() }
    }

    /// The read API: an independent snapshot of the entry for a name, or
    /// nothing when the name is unknown.
    pub fn get(&self, name: &str) -> (r: Option<CacheEntry>)
        ensures
            match r {
                Some(e) => self.entries().contains_key(name@) && e@ == self.entries()[name@],
                None => !self.entries().contains_key(name@),
            },
    {
        dashmap_get(&self.map, name)
    }

    /// The modification time last recorded for a name, zero if none.
    pub fn recorded_modified(&self, name: &str) -> (r: u64)
        ensures
            r == spec_recorded(self.entries(), name@),
    {
        match dashmap_get(&self.map, name) {
            Some(e) => e.modified,
            None => 0,
        }
    }

    /// Whether a file observed with the given modification time must be
    /// parsed again: its time advanced past the recorded one.
    pub fn needs_refresh(&self, name: &str, modified: u64) -> (r: bool)
        ensures
            r == (modified > spec_recorded(self.entries(), name@)),
    {
        modified > self.recorded_modified(name)
    }

    /// Installs a freshly parsed table with its modification time,
    /// replacing any previous entry for the name and touching no other.
    pub fn install(&mut self, name: &str, table: Table, modified: u64)
        ensures
            final(self).entries() == old(self).entries().insert(
                name@,
                EntryView { table: table@, modified },
            ),
    {
        let entry = CacheEntry { table, modified };
        let key = String::from_str(name);
        dashmap_insert(&mut self.map, key, entry);
    }

    /// Every name the store currently holds, each exactly once, in no
    /// promised order.
    pub fn names(&self) -> (r: Vec<String>)
        ensures
            r.deep_view().to_set() == self.entries().dom(),
            forall|i: int, j: int| 0 <= i < j < r@.len() ==> r@[i]@ != r@[j]@,
    {
        dashmap_keys(&self.map)
    }
}

} // verus!
