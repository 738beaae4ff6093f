use vstd::prelude::*;
use ic_stable_structures::memory_manager::{MemoryId, MemoryManager, VirtualMemory};
use ic_stable_structures::{BTreeMap as StableBTreeMap, Cell as StableCell, DefaultMemoryImpl};

verus! {

/// The durable memory, partitioned into numbered regions.
#[verifier::external_body]
pub struct Regions {
    manager: MemoryManager<DefaultMemoryImpl>,
}

/// A durable ordered table from ids to encoded records.
#[verifier::external_body]
pub struct Table {
    map: StableBTreeMap<u64, Vec<u8>, VirtualMemory<DefaultMemoryImpl>>,
}

/// A durable cell holding an id counter.
#[verifier::external_body]
pub struct Counter {
    cell: StableCell<u64, VirtualMemory<DefaultMemoryImpl>>,
}

/// What a table holds: its entries, by id.
pub uninterp spec fn table_contents(t: Table) -> Map<u64, Seq<u8>>;

/// The regions that tables and counters have been created on through this
/// handle; each region serves one of them only.
pub uninterp spec fn regions_taken(r: Regions) -> Set<u8>;

/// The region that a table lives in.
pub uninterp spec fn table_region(t: Table) -> u8;

/// The region that a counter lives in.
pub uninterp spec fn counter_region(c: Counter) -> u8;

/// What a counter holds.
pub uninterp spec fn counter_value(c: Counter) -> u64;

/// Entries listed in strictly ascending id order, each as it is in `m`, and
/// every entry of `m` listed.
pub open spec fn lists_in_order(m: Map<u64, Seq<u8>>, r: Seq<(u64, Vec<u8>)>) -> bool {
    &&& forall|i: int, j: int| 0 <= i < j < r.len() ==> r[i].0 < r[j].0
    &&& forall|i: int|
        0 <= i < r.len() ==> m.contains_key(#[trigger] r[i].0) && m[r[i].0] == r[i].1@
    &&& forall|k: u64| m.contains_key(k) ==> exists|i: int| 0 <= i < r.len() && #[trigger] r[i].0 == k
}

impl Regions {
    /// Relies on `MemoryManager::init`: partitions the memory into regions,
    /// none of which this handle has handed out yet. On a native target each
    /// handle has a memory of its own. On the canister every handle is over
    /// the one stable memory, so a second handle in one process would share
    /// the first one's regions: a canister creates one handle per process.
    #[verifier::external_body]
    pub fn new() -> (r: Regions)
        ensures
            regions_taken(r).is_empty(),
    {
        Regions { manager: MemoryManager::init(DefaultMemoryImpl::default()) }
    }
}

impl Table {
    /// Relies on `BTreeMap::new` over `MemoryManager::get`: a map created on
    /// a region starts empty. The region must serve nothing else, and region
    /// 255 is reserved by the manager.
    #[verifier::external_body]
    pub fn new(regions: &mut Regions, region: u8) -> (r: Table)
        requires
            region < 255,
            !regions_taken(*old(regions)).contains(region),
        ensures
            table_contents(r).dom().is_empty(),
            table_region(r) == region,
            regions_taken(*final(regions)) == regions_taken(*old(regions)).insert(region),
    {
        Table { map: StableBTreeMap::new(regions.manager.get(MemoryId::new(region))) }
    }

    /// Relies on `BTreeMap::init` over `MemoryManager::get`: loads the map
    /// that the region holds, or creates an empty one on a region that holds
    /// none; what it holds is not known here. The region must serve nothing
    /// else and not hold a map of another layout version. Region 255 is reserved by the manager.
    #[verifier::external_body]
    pub fn open(regions: &mut Regions, region: u8) -> (r: Table)
        requires
            region < 255,
            !regions_taken(*old(regions)).contains(region),
        ensures
            table_region(r) == region,
            regions_taken(*final(regions)) == regions_taken(*old(regions)).insert(region),
    {
        Table { map: StableBTreeMap::init(regions.manager.get(MemoryId::new(region))) }
    }

    /// Relies on `BTreeMap::get`: the value stored under `id`, if any.
    #[verifier::external_body]
    pub fn get(&self, id: u64) -> (r: Option<Vec<u8>>)
        ensures
            r is Some <==> table_contents(*self).contains_key(id),
            r matches Some(v) ==> v@ == table_contents(*self)[id],
    {
        self.map.get(&id)
    }

    /// Relies on `BTreeMap::insert`: stores `value` under `id`, replacing any
    /// earlier value.
    #[verifier::external_body]
    pub fn insert(&mut self, id: u64, value: Vec<u8>)
        ensures
            table_contents(*final(self)) == table_contents(*old(self)).insert(id, value@),
    {
        self.map.insert(id, value);
    }

    /// Relies on `BTreeMap::remove`: drops the entry under `id` and returns
    /// it, if there was one.
    #[verifier::external_body]
    pub fn remove(&mut self, id: u64) -> (r: Option<Vec<u8>>)
        ensures
            r is Some <==> table_contents(*old(self)).contains_key(id),
            table_contents(*final(self)) == table_contents(*old(self)).remove(id),
    {
        self.map.remove(&id)
    }

    /// Relies on `BTreeMap::iter`: every entry, sorted by id.
    #[verifier::external_body]
    pub fn entries(&self) -> (r: Vec<(u64, Vec<u8>)>)
        ensures
            lists_in_order(table_contents(*self), r@),
    {
        self.map.iter().map(|e| e.into_pair()).collect()
    }
}

impl Counter {
    /// Relies on `Cell::new` over `MemoryManager::get`: a cell created on a
    /// region holds the value given. The region must serve nothing else;
    /// region 255 is reserved by the manager.
    #[verifier::external_body]
    pub fn new(regions: &mut Regions, region: u8) -> (r: Counter)
        requires
            region < 255,
            !regions_taken(*old(regions)).contains(region),
        ensures
            counter_value(r) == 0,
            counter_region(r) == region,
            regions_taken(*final(regions)) == regions_taken(*old(regions)).insert(region),
    {
        Counter { cell: StableCell::new(regions.manager.get(MemoryId::new(region)), 0) }
    }

    /// Relies on `Cell::init` over `MemoryManager::get`: loads the cell that
    /// the region holds, or creates one holding 0 on a region that holds
    /// none; what it holds is not known here. The region must serve nothing
    /// else and not hold a cell of another layout version. Region 255 is reserved by the manager.
    #[verifier::external_body]
    pub fn open(regions: &mut Regions, region: u8) -> (r: Counter)
        requires
            region < 255,
            !regions_taken(*old(regions)).contains(region),
        ensures
            counter_region(r) == region,
            regions_taken(*final(regions)) == regions_taken(*old(regions)).insert(region),
    {
        Counter { cell: StableCell::init(regions.manager.get(MemoryId::new(region)), 0) }
    }

    /// Relies on `Cell::get`: the value held.
    #[verifier::external_body]
    pub fn get(&self) -> (r: u64)
        ensures
            r == counter_value(*self),
    {
        *self.cell.get()
    }

    /// Relies on `Cell::set`: writes `value` through to the region.
    #[verifier::external_body]
    pub fn set(&mut self, value: u64)
        ensures
            counter_value(*final(self)) == value,
    {
        self.cell.set(value);
    }
}

} // verus!
