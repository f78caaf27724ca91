use vstd::prelude::*;
use ic_stable_structures::memory_manager::{MemoryId, MemoryManager, VirtualMemory};
use ic_stable_structures::{BTreeMap, Cell, DefaultMemoryImpl};

verus! {

/// A handle to the catalog's two tables in the host's stable memory: a cell
/// that holds the next id to issue, and a map from record id to encoded
/// record. The stable memory is one per process and any handle may write it,
/// so nothing is stated of what the tables hold between two calls: the
/// catalog keeps its records itself, writes each change through, and reads
/// the tables back only when it is loaded, checking every entry.
#[verifier::external_body]
pub struct StableTables {
    counter: Cell<u64, VirtualMemory<DefaultMemoryImpl>>,
    map: BTreeMap<u64, Vec<u8>, VirtualMemory<DefaultMemoryImpl>>,
}

impl StableTables {
    /// Relies on `MemoryManager::init`, `Cell::new` and `BTreeMap::new`: new
    /// tables over memories 0 and 1; `Cell::new` fails when the memory cannot
    /// grow.
    #[verifier::external_body]
    pub(crate) fn create() -> (r: Option<StableTables>) {
        let manager = MemoryManager::init(DefaultMemoryImpl::default());
        let counter = Cell::new(manager.get(MemoryId::new(0)), 0).ok()?;
        Some(StableTables { counter, map: BTreeMap::new(manager.get(MemoryId::new(1))) })
    }

    /// Relies on `MemoryManager::init`, `Cell::init` and `BTreeMap::init`:
    /// the tables that memories 0 and 1 hold, or new ones where they hold
    /// none. Memory written in a layout that this version does not know
    /// makes them panic: `MemoryManager::init` and `BTreeMap::init` on an
    /// unknown version, and `Cell::init` on a stored value that is not eight
    /// bytes long.
    #[verifier::external_body]
    pub(crate) fn open() -> (r: Option<StableTables>) {
        let manager = MemoryManager::init(DefaultMemoryImpl::default());
        let counter = Cell::init(manager.get(MemoryId::new(0)), 0).ok()?;
        Some(StableTables { counter, map: BTreeMap::init(manager.get(MemoryId::new(1))) })
    }

    /// Relies on `Cell::get`: the value that the cell holds.
    #[verifier::external_body]
    pub(crate) fn counter(&self) -> (r: u64) {
        *self.counter.get()
    }

    /// Relies on `Cell::set`: a `u64` takes eight bytes, as the value that
    /// the cell was created with, so the memory never has to grow and the
    /// write succeeds.
    #[verifier::external_body]
    pub(crate) fn set_counter(&mut self, value: u64) -> (ok: bool)
        ensures
            ok,
    {
        self.counter.set(value).is_ok()
    }

    /// Relies on `BTreeMap::insert`: stores `value` under `key`.
    #[verifier::external_body]
    pub(crate) fn insert(&mut self, key: u64, value: Vec<u8>) {
        self.map.insert(key, value);
    }

    /// Relies on `BTreeMap::remove`: removes `key`.
    #[verifier::external_body]
    pub(crate) fn remove(&mut self, key: u64) {
        self.map.remove(&key);
    }

    /// Relies on `BTreeMap::iter`: the entries, in increasing key order.
    #[verifier::external_body]
    pub(crate) fn entries(&self) -> (r: Vec<(u64, Vec<u8>)>)
        ensures
            forall|i: int, j: int| 0 <= i < j < r@.len() ==> #[trigger] r@[i].0 < #[trigger] r@[j].0,
    {
        self.map.iter().collect()
    }
}

} // verus!
