//! The storage layer: one growable byte address space carved into two
//! independently growing virtual regions. One region holds the durable id
//! counter, the other the ordered id-to-record table. Persistence is
//! delegated to the `ic_stable_structures` crate behind the trusted
//! wrappers below; everything else in this library is verified against
//! their contracts, stated over `store_counter` and `store_records`.

use vstd::prelude::*;
use ic_stable_structures::memory_manager::{MemoryId, MemoryManager, VirtualMemory};
use ic_stable_structures::DefaultMemoryImpl;

verus! {

/// The region of the address space that holds the counter cell.
pub const COUNTER_REGION: u8 = 0;

/// The region of the address space that holds the record table.
pub const TABLE_REGION: u8 = 1;

/// One persistent address space holding the durable counter and the
/// record table, each in its own virtual region.
#[verifier::external_body]
pub struct Store {
    base: DefaultMemoryImpl,
    counter_region: u8,
    table_region: u8,
    counter: ic_stable_structures::cell::Cell<u64, VirtualMemory<DefaultMemoryImpl>>,
    table: ic_stable_structures::btreemap::BTreeMap<u64, Vec<u8>, VirtualMemory<DefaultMemoryImpl>>,
}

/// The encoded records the store holds, keyed by id.
pub uninterp spec fn store_records(s: Store) -> Map<u64, Seq<u8>>;

/// The contents of a store that holds nothing.
pub open spec fn no_records() -> Map<u64, Seq<u8>> {
    Map::empty()
}

/// The value the store's durable counter holds.
pub uninterp spec fn store_counter(s: Store) -> u64;

impl Store {
    /// Relies on `MemoryManager::init`, `Cell::init` and `BTreeMap::init`
    /// of `ic_stable_structures`: on a fresh address space they lay out
    /// disjoint regions, a cell holding `initial`, and an empty map.
    #[verifier::external_body]
    fn open_regions(counter_region: u8, table_region: u8, initial: u64) -> (s: Store)
        requires
            counter_region != table_region,
            counter_region != 255,
            table_region != 255,
        ensures
            store_counter(s) == initial,
            store_records(s) == no_records(),
    {
        let base = DefaultMemoryImpl::default();
        let mgr = MemoryManager::init(base.clone());
        let counter =
            ic_stable_structures::cell::Cell::init(mgr.get(MemoryId::new(counter_region)), initial);
        let table =
            ic_stable_structures::btreemap::BTreeMap::init(mgr.get(MemoryId::new(table_region)));
        Store { base, counter_region, table_region, counter, table }
    }

    /// Opens a fresh, empty store with the fixed two-region layout and the
    /// given initial counter value.
    pub fn open(initial: u64) -> (s: Store)
        ensures
            store_counter(s) == initial,
            store_records(s) == no_records(),
    {
        Store::open_regions(COUNTER_REGION, TABLE_REGION, initial)
    }

    /// Drops the in-memory handles and reconstructs them from the same
    /// underlying bytes, as a process restart does. Relies on
    /// `MemoryManager::init`, `Cell::init` and `BTreeMap::init` of
    /// `ic_stable_structures` loading a previously persisted layout, cell
    /// value and map unchanged (the cell default passed here is unused:
    /// the cell's region was written when the store was opened).
    #[verifier::external_body]
    pub fn reopen(self) -> (s: Store)
        ensures
            store_counter(s) == store_counter(self),
            store_records(s) == store_records(self),
    {
        let Store { base, counter_region, table_region, .. } = self;
        let mgr = MemoryManager::init(base.clone());
        let counter =
            ic_stable_structures::cell::Cell::init(mgr.get(MemoryId::new(counter_region)), 0);
        let table =
            ic_stable_structures::btreemap::BTreeMap::init(mgr.get(MemoryId::new(table_region)));
        Store { base, counter_region, table_region, counter, table }
    }

    /// Relies on `Cell::get` of `ic_stable_structures`: returns the value
    /// the cell holds, with no side effect.
    #[verifier::external_body]
    pub fn counter_get(&self) -> (v: u64)
        ensures
            v == store_counter(*self),
    {
        *self.counter.get()
    }

    /// Relies on `Cell::set` of `ic_stable_structures`: persists the new
    /// value and returns the previous one; the table's region is untouched.
    #[verifier::external_body]
    pub fn counter_set(&mut self, value: u64) -> (prev: u64)
        ensures
            prev == store_counter(*old(self)),
            store_counter(*final(self)) == value,
            store_records(*final(self)) == store_records(*old(self)),
    {
        self.counter.set(value)
    }

    /// Relies on `BTreeMap::get` of `ic_stable_structures`: looks the id
    /// up, with no side effect.
    #[verifier::external_body]
    pub fn table_get(&self, id: u64) -> (r: Option<Vec<u8>>)
        ensures
            match r {
                Some(bytes) => store_records(*self).contains_key(id) && bytes@ == store_records(
                    *self,
                )[id],
                None => !store_records(*self).contains_key(id),
            },
    {
        self.table.get(&id)
    }

    /// Relies on `BTreeMap::insert` of `ic_stable_structures`: inserts or
    /// overwrites under the id, returning the previous value if any; the
    /// counter's region is untouched.
    #[verifier::external_body]
    pub fn table_insert(&mut self, id: u64, bytes: Vec<u8>) -> (prev: Option<Vec<u8>>)
        ensures
            store_records(*final(self)) == store_records(*old(self)).insert(id, bytes@),
            store_counter(*final(self)) == store_counter(*old(self)),
            match prev {
                Some(p) => store_records(*old(self)).contains_key(id) && p@ == store_records(
                    *old(self),
                )[id],
                None => !store_records(*old(self)).contains_key(id),
            },
    {
        self.table.insert(id, bytes)
    }

    /// Relies on `BTreeMap::remove` of `ic_stable_structures`: removes the
    /// id, returning the prior value if any; the counter's region is
    /// untouched.
    #[verifier::external_body]
    pub fn table_remove(&mut self, id: u64) -> (prev: Option<Vec<u8>>)
        ensures
            store_records(*final(self)) == store_records(*old(self)).remove(id),
            store_counter(*final(self)) == store_counter(*old(self)),
            match prev {
                Some(p) => store_records(*old(self)).contains_key(id) && p@ == store_records(
                    *old(self),
                )[id],
                None => !store_records(*old(self)).contains_key(id),
            },
    {
        self.table.remove(&id)
    }
}

} // verus!
