//! Read-side analytics of one block: which slots are read most, how reads
//! and writes split per contract, which slots could be cached, which are
//! contended, what to prefetch, where a sandwich may hide, and which touched
//! accounts were never used.
use vstd::prelude::*;
use crate::block::{BlockAccess, ReadSet, StateKey};
use crate::order::{ReportOrder, in_report_order, sort_into_report_order};
use crate::primitives::{Address, B256};
use crate::tally::{
    count_slot_writes,
    lemma_slot_tally_of_distinct,
    read_addresses,
    tx_write_keys,
    tx_writes_with_position,
    write_addresses,
    account_tally,
    distinct_slot_rows,
    per_address_counts,
    read_counts,
    slot_tally,
    write_counts,
    write_keys,
};

verus! {

/// What every metric of this module can and cannot tell.
#[derive(Clone, Copy, Debug, PartialEq, Eq)]
pub struct Caveats {
    pub block_granularity: &'static str,
    pub contamination: &'static str,
}

impl Caveats {
    /// The caveats every metric carries.
    pub open spec fn is_standard(self) -> bool {
        &&& self.block_granularity@
            == "BAL reads are block-level; per-transaction attribution is unavailable"@
        &&& self.contamination@
            == "Counts may include no-op / reverted-inner-call reads and are upper bounds"@
    }
}

impl Default for Caveats {
    fn default() -> (r: Caveats)
        ensures
            r.is_standard(),
    {
        Caveats {
            block_granularity: "BAL reads are block-level; per-transaction attribution is unavailable",
            contamination: "Counts may include no-op / reverted-inner-call reads and are upper bounds",
        }
    }
}

/// How often the block read one storage slot.
#[derive(Clone, Copy, Debug, PartialEq, Eq, Structural, Hash)]
pub struct SlotReadCount {
    pub address: Address,
    pub slot: B256,
    pub read_count: usize,
}

/// The slots the block read, most read first.
#[derive(Clone, Debug)]
pub struct HotReadSlots {
    pub slots: Vec<SlotReadCount>,
    pub caveats: Caveats,
}

/// `row` is a slot that `reads` holds, with how often it holds it.
pub open spec fn is_hot_read_slot(reads: Seq<StateKey>, row: SlotReadCount) -> bool {
    &&& row.read_count > 0
    &&& row.read_count == slot_tally(reads, row.address, row.slot)
}

impl ReportOrder for SlotReadCount {
    open spec fn goes_before(self, other: Self) -> bool {
        self.read_count >= other.read_count
    }

    proof fn lemma_goes_before_total(a: Self, b: Self) {
    }

    proof fn lemma_goes_before_transitive(a: Self, b: Self, c: Self) {
    }

    fn check_goes_before(&self, other: &Self) -> (r: bool) {
        self.read_count >= other.read_count
    }
}

/// The hot-read report of `block`: one row per storage slot the block
/// read, with its read count, most read first.
pub open spec fn hot_read_slots_of(block: BlockAccess, rows: Seq<SlotReadCount>) -> bool {
    &&& rows.no_duplicates()
    &&& forall|x: SlotReadCount| #[trigger] rows.contains(x) <==> is_hot_read_slot(block.reads@, x)
    &&& in_report_order(rows)
    &&& forall|i: int, j: int|
        0 <= i < j < rows.len() ==> (#[trigger] rows[i]).read_count >= (#[trigger] rows[j]).read_count
}

/// Lists every storage slot the block read with its read count, most read
/// first.
pub fn compute_hot_read_slots(block: &BlockAccess) -> (r: HotReadSlots)
    ensures
        hot_read_slots_of(*block, r.slots@),
        forall|i: int| 0 <= i < r.slots@.len() ==> (#[trigger] r.slots@[i]).read_count == 1,
        r.caveats.is_standard(),
{
    let counts = read_counts(block);
    let rows = counts.rows();
    let ghost reads = block.reads@;
    let read_keys = block.reads.keys();
    let mut items: Vec<SlotReadCount> = Vec::new();
    let n = rows.len();
    let mut i: usize = 0;
    while i < n
        invariant
            i <= n,
            n == rows@.len(),
            rows@ == counts@,
            forall|a: Address, s: B256| #[trigger] counts.count(a, s) == slot_tally(reads, a, s),
            forall|j: int|
                0 <= j < rows@.len() ==> (#[trigger] rows@[j]).count > 0 && rows@[j].count
                    == counts.count(rows@[j].address, rows@[j].slot),
            items@.len() == i,
            forall|j: int|
                0 <= j < i ==> #[trigger] items@[j] == (SlotReadCount {
                    address: rows@[j].address,
                    slot: rows@[j].slot,
                    read_count: rows@[j].count,
                }),
        decreases n - i,
    {
        let row = rows[i];
        items.push(SlotReadCount { address: row.address, slot: row.slot, read_count: row.count });
        i = i + 1;
    }
    proof {
        assert forall|x: SlotReadCount| #[trigger] items@.contains(x) <==> is_hot_read_slot(reads, x) by {
            if items@.contains(x) {
                let j = choose|j: int| 0 <= j < items@.len() && items@[j] == x;
                assert(items@[j] == x);
            }
            if is_hot_read_slot(reads, x) {
                assert(counts.count(x.address, x.slot) > 0);
                let j = choose|j: int|
                    0 <= j < rows@.len() && (#[trigger] rows@[j]).address == x.address && rows@[j].slot
                        == x.slot;
                assert(items@[j] == x);
            }
        }
        assert forall|j: int, k: int|
            0 <= j < items@.len() && 0 <= k < items@.len() && j != k implies items@[j] != items@[k] by {
            assert(items@[j].address == rows@[j].address && items@[j].slot == rows@[j].slot);
            assert(items@[k].address == rows@[k].address && items@[k].slot == rows@[k].slot);
        }
    }
    let slots = sort_into_report_order(items);
    proof {
        assert forall|i: int, j: int| 0 <= i < j < slots@.len() implies (#[trigger] slots@[i]).read_count >= (#[trigger] slots@[j]).read_count by {
            assert(slots@[i].goes_before(slots@[j]));
        }
    }
    proof {
        assert forall|i: int| 0 <= i < slots@.len() implies (#[trigger] slots@[i]).read_count == 1 by {
            assert(slots@.contains(slots@[i]));
            lemma_slot_tally_of_distinct(read_keys@, slots@[i].address, slots@[i].slot);
        }
    }
    HotReadSlots { slots, caveats: Caveats::default() }
}

/// How one contract's keys were read and written.
#[derive(Clone, Copy, Debug, PartialEq, Eq, Structural, Hash)]
pub struct ContractReadWrite {
    pub address: Address,
    pub read_count: usize,
    pub write_count: usize,
}

impl ContractReadWrite {
    /// The share of reads among this contract's accesses, as numerator and
    /// denominator: `read_count / (read_count + write_count)`, or `0 / 1`
    /// where the contract has no access.
    pub fn read_ratio_fraction(&self) -> (r: (u128, u128))
        ensures
            r.1 > 0,
            r.0 <= r.1,
            self.read_count + self.write_count == 0 ==> r == (0u128, 1u128),
            self.read_count + self.write_count > 0 ==> r.0 == self.read_count && r.1
                == self.read_count + self.write_count,
    {
        let total = self.read_count as u128 + self.write_count as u128;
        if total == 0 {
            (0, 1)
        } else {
            (self.read_count as u128, total)
        }
    }
}

/// Per-contract reads and writes, most read first.
#[derive(Clone, Debug)]
pub struct ReadWriteRatio {
    pub contracts: Vec<ContractReadWrite>,
    pub caveats: Caveats,
}

/// `row` is an account the block accessed, with how many of its keys
/// `reads` holds and how many of `writes` went to it.
pub open spec fn is_contract_read_write(
    reads: Seq<StateKey>,
    writes: Seq<StateKey>,
    row: ContractReadWrite,
) -> bool {
    &&& row.read_count == account_tally(reads, row.address)
    &&& row.write_count == account_tally(writes, row.address)
    &&& row.read_count + row.write_count > 0
}

impl ReportOrder for ContractReadWrite {
    open spec fn goes_before(self, other: Self) -> bool {
        self.read_count >= other.read_count
    }

    proof fn lemma_goes_before_total(a: Self, b: Self) {
    }

    proof fn lemma_goes_before_transitive(a: Self, b: Self, c: Self) {
    }

    fn check_goes_before(&self, other: &Self) -> (r: bool) {
        self.read_count >= other.read_count
    }
}

/// The read/write report of `block`: one row per account the block read
/// or wrote, with its read and write counts, most read first.
pub open spec fn read_write_ratio_of(block: BlockAccess, rows: Seq<ContractReadWrite>) -> bool {
    &&& rows.no_duplicates()
    &&& forall|x: ContractReadWrite| #[trigger]
        rows.contains(x) <==> is_contract_read_write(block.reads@, write_keys(block.writes@), x)
    &&& in_report_order(rows)
    &&& forall|i: int, j: int|
        0 <= i < j < rows.len() ==> (#[trigger] rows[i]).read_count >= (#[trigger] rows[j]).read_count
}

/// Lists every account the block read or wrote with its read and write
/// counts, most read first.
pub fn compute_read_write_ratio(block: &BlockAccess) -> (r: ReadWriteRatio)
    ensures
        read_write_ratio_of(*block, r.contracts@),
        r.caveats.is_standard(),
{
    let tallies = per_address_counts(block);
    let ghost reads = block.reads@;
    let ghost writes = write_keys(block.writes@);
    let mut items: Vec<ContractReadWrite> = Vec::new();
    let n = tallies.len();
    let mut i: usize = 0;
    while i < n
        invariant
            i <= n,
            n == tallies@.len(),
            items@.len() == i,
            forall|j: int|
                0 <= j < i ==> #[trigger] items@[j] == (ContractReadWrite {
                    address: tallies@[j].address,
                    read_count: tallies@[j].reads,
                    write_count: tallies@[j].writes,
                }),
        decreases n - i,
    {
        let t = tallies[i];
        items.push(ContractReadWrite { address: t.address, read_count: t.reads, write_count: t.writes });
        i = i + 1;
    }
    proof {
        assert forall|x: ContractReadWrite| #[trigger]
            items@.contains(x) <==> is_contract_read_write(reads, writes, x) by {
            if items@.contains(x) {
                let j = choose|j: int| 0 <= j < items@.len() && items@[j] == x;
                assert(items@[j] == x);
            }
            if is_contract_read_write(reads, writes, x) {
                assert(account_tally(reads, x.address) + account_tally(writes, x.address) > 0);
                let j = choose|j: int|
                    0 <= j < tallies@.len() && (#[trigger] tallies@[j]).address == x.address;
                assert(items@[j] == x);
            }
        }
        assert forall|j: int, k: int|
            0 <= j < items@.len() && 0 <= k < items@.len() && j != k implies items@[j] != items@[k] by {
            assert(items@[j].address == tallies@[j].address);
            assert(items@[k].address == tallies@[k].address);
        }
    }
    let contracts = sort_into_report_order(items);
    proof {
        assert forall|i: int, j: int| 0 <= i < j < contracts@.len() implies (#[trigger] contracts@[i]).read_count >= (#[trigger] contracts@[j]).read_count by {
            assert(contracts@[i].goes_before(contracts@[j]));
        }
    }
    ReadWriteRatio { contracts, caveats: Caveats::default() }
}

/// A storage slot the block read and never wrote.
#[derive(Clone, Copy, Debug, PartialEq, Eq, Structural, Hash)]
pub struct CacheCandidate {
    pub address: Address,
    pub slot: B256,
    pub read_count: usize,
    pub write_count: usize,
}

/// The slots worth caching, most read first.
#[derive(Clone, Debug)]
pub struct CacheCandidacy {
    pub candidates: Vec<CacheCandidate>,
    pub caveats: Caveats,
}

/// `row` is a slot that `reads` holds and `writes` does not, with how often
/// it was read.
pub open spec fn is_cache_candidate(
    reads: Seq<StateKey>,
    writes: Seq<StateKey>,
    row: CacheCandidate,
) -> bool {
    &&& row.read_count > 0
    &&& row.read_count == slot_tally(reads, row.address, row.slot)
    &&& row.write_count == 0
    &&& slot_tally(writes, row.address, row.slot) == 0
}

impl ReportOrder for CacheCandidate {
    open spec fn goes_before(self, other: Self) -> bool {
        self.read_count >= other.read_count
    }

    proof fn lemma_goes_before_total(a: Self, b: Self) {
    }

    proof fn lemma_goes_before_transitive(a: Self, b: Self, c: Self) {
    }

    fn check_goes_before(&self, other: &Self) -> (r: bool) {
        self.read_count >= other.read_count
    }
}

/// The cache report of `block`: one row per storage slot the block read
/// and never wrote, most read first.
pub open spec fn cache_candidacy_of(block: BlockAccess, rows: Seq<CacheCandidate>) -> bool {
    &&& rows.no_duplicates()
    &&& forall|x: CacheCandidate| #[trigger]
        rows.contains(x) <==> is_cache_candidate(block.reads@, write_keys(block.writes@), x)
    &&& in_report_order(rows)
    &&& forall|i: int, j: int|
        0 <= i < j < rows.len() ==> (#[trigger] rows[i]).read_count >= (#[trigger] rows[j]).read_count
}

/// Lists every storage slot the block read and never wrote, most read
/// first.
pub fn compute_cache_candidacy(block: &BlockAccess) -> (r: CacheCandidacy)
    ensures
        cache_candidacy_of(*block, r.candidates@),
        r.caveats.is_standard(),
{
    let rcounts = read_counts(block);
    let wcounts = write_counts(block);
    let rows = rcounts.rows();
    let ghost reads = block.reads@;
    let ghost writes = write_keys(block.writes@);
    let mut items: Vec<CacheCandidate> = Vec::new();
    let n = rows.len();
    let mut i: usize = 0;
    while i < n
        invariant
            i <= n,
            n == rows@.len(),
            rows@ == rcounts@,
            forall|a: Address, s: B256| #[trigger] rcounts.count(a, s) == slot_tally(reads, a, s),
            forall|a: Address, s: B256| #[trigger] wcounts.count(a, s) == slot_tally(writes, a, s),
            forall|j: int|
                0 <= j < rows@.len() ==> (#[trigger] rows@[j]).count > 0 && rows@[j].count
                    == rcounts.count(rows@[j].address, rows@[j].slot),
            distinct_slot_rows(rows@),
            items@.no_duplicates(),
            forall|x: CacheCandidate| #[trigger]
                items@.contains(x) <==> (is_cache_candidate(reads, writes, x) && exists|j: int|
                    0 <= j < i && (#[trigger] rows@[j]).address == x.address && rows@[j].slot
                        == x.slot),
        decreases n - i,
    {
        let row = rows[i];
        let written = wcounts.get(&(row.address, row.slot));
        let ghost before = items@;
        let ghost here = CacheCandidate {
            address: row.address,
            slot: row.slot,
            read_count: row.count,
            write_count: 0,
        };
        if written.is_none() {
            items.push(CacheCandidate { address: row.address, slot: row.slot, read_count: row.count, write_count: 0 });
        }
        proof {
            assert forall|x: CacheCandidate| #[trigger]
                items@.contains(x) <==> (is_cache_candidate(reads, writes, x) && exists|j: int|
                    0 <= j < i + 1 && (#[trigger] rows@[j]).address == x.address && rows@[j].slot
                        == x.slot) by {
                if items@.contains(x) {
                    let k = choose|k: int| 0 <= k < items@.len() && items@[k] == x;
                    if k < before.len() {
                        assert(before.contains(x));
                        let j = choose|j: int|
                            0 <= j < i && (#[trigger] rows@[j]).address == x.address && rows@[j].slot
                                == x.slot;
                        assert(0 <= j < i + 1);
                    } else {
                        assert(x == here);
                        assert(rows@[i as int].address == x.address);
                    }
                }
                if is_cache_candidate(reads, writes, x) && exists|j: int|
                    0 <= j < i + 1 && (#[trigger] rows@[j]).address == x.address && rows@[j].slot
                        == x.slot {
                    let j = choose|j: int|
                        0 <= j < i + 1 && (#[trigger] rows@[j]).address == x.address && rows@[j].slot
                            == x.slot;
                    if j < i {
                        assert(before.contains(x));
                        let k = choose|k: int| 0 <= k < before.len() && before[k] == x;
                        assert(items@[k] == x);
                    } else {
                        assert(x == here);
                        assert(items@[before.len() as int] == x);
                    }
                }
            }
            if written.is_none() {
                assert(!before.contains(here)) by {
                    if before.contains(here) {
                        let j = choose|j: int|
                            0 <= j < i && (#[trigger] rows@[j]).address == here.address
                                && rows@[j].slot == here.slot;
                        assert(rows@[j].address == rows@[i as int].address);
                    }
                }
                assert forall|p: int, q: int|
                    0 <= p < items@.len() && 0 <= q < items@.len() && p != q implies items@[p]
                    != items@[q] by {
                    if p == before.len() {
                        assert(before.contains(items@[q]));
                    } else if q == before.len() {
                        assert(before.contains(items@[p]));
                    }
                }
            }
        }
        i = i + 1;
    }
    proof {
        assert forall|x: CacheCandidate| #[trigger]
            items@.contains(x) <==> is_cache_candidate(reads, writes, x) by {
            if is_cache_candidate(reads, writes, x) {
                assert(rcounts.count(x.address, x.slot) > 0);
            }
        }
    }
    let candidates = sort_into_report_order(items);
    proof {
        assert forall|i: int, j: int| 0 <= i < j < candidates@.len() implies (#[trigger] candidates@[i]).read_count >= (#[trigger] candidates@[j]).read_count by {
            assert(candidates@[i].goes_before(candidates@[j]));
        }
    }
    CacheCandidacy { candidates, caveats: Caveats::default() }
}

/// A storage slot the block both read and wrote.
#[derive(Clone, Copy, Debug, PartialEq, Eq, Structural, Hash)]
pub struct ContentionHotspot {
    pub address: Address,
    pub slot: B256,
    pub read_count: usize,
    pub write_count: usize,
}

/// The contended slots, most accessed first.
#[derive(Clone, Debug)]
pub struct ContentionHotspots {
    pub hotspots: Vec<ContentionHotspot>,
    pub caveats: Caveats,
}

/// `row` is a slot that both `reads` and `writes` hold, with how often each
/// holds it.
pub open spec fn is_contention_hotspot(
    reads: Seq<StateKey>,
    writes: Seq<StateKey>,
    row: ContentionHotspot,
) -> bool {
    &&& row.read_count > 0
    &&& row.read_count == slot_tally(reads, row.address, row.slot)
    &&& row.write_count > 0
    &&& row.write_count == slot_tally(writes, row.address, row.slot)
}

impl ReportOrder for ContentionHotspot {
    open spec fn goes_before(self, other: Self) -> bool {
        self.read_count + self.write_count >= other.read_count + other.write_count
    }

    proof fn lemma_goes_before_total(a: Self, b: Self) {
    }

    proof fn lemma_goes_before_transitive(a: Self, b: Self, c: Self) {
    }

    fn check_goes_before(&self, other: &Self) -> (r: bool) {
        self.read_count as u128 + self.write_count as u128 >= other.read_count as u128
            + other.write_count as u128
    }
}

/// The contention report of `block`: one row per storage slot the block
/// both read and wrote, with both counts, most accessed first.
pub open spec fn contention_hotspots_of(block: BlockAccess, rows: Seq<ContentionHotspot>) -> bool {
    &&& rows.no_duplicates()
    &&& forall|x: ContentionHotspot| #[trigger]
        rows.contains(x) <==> is_contention_hotspot(block.reads@, write_keys(block.writes@), x)
    &&& in_report_order(rows)
    &&& forall|i: int, j: int|
        0 <= i < j < rows.len() ==> (#[trigger] rows[i]).read_count + rows[i].write_count
            >= (#[trigger] rows[j]).read_count + rows[j].write_count
}

/// Lists every storage slot the block both read and wrote, with its read
/// and write counts, most accessed first.
pub fn compute_contention_hotspots(block: &BlockAccess) -> (r: ContentionHotspots)
    ensures
        contention_hotspots_of(*block, r.hotspots@),
        r.caveats.is_standard(),
{
    let rcounts = read_counts(block);
    let wcounts = write_counts(block);
    let rows = rcounts.rows();
    let ghost reads = block.reads@;
    let ghost writes = write_keys(block.writes@);
    let mut items: Vec<ContentionHotspot> = Vec::new();
    let n = rows.len();
    let mut i: usize = 0;
    while i < n
        invariant
            i <= n,
            n == rows@.len(),
            rows@ == rcounts@,
            forall|a: Address, s: B256| #[trigger] rcounts.count(a, s) == slot_tally(reads, a, s),
            forall|a: Address, s: B256| #[trigger] wcounts.count(a, s) == slot_tally(writes, a, s),
            forall|j: int|
                0 <= j < rows@.len() ==> (#[trigger] rows@[j]).count > 0 && rows@[j].count
                    == rcounts.count(rows@[j].address, rows@[j].slot),
            distinct_slot_rows(rows@),
            items@.no_duplicates(),
            forall|x: ContentionHotspot| #[trigger]
                items@.contains(x) <==> (is_contention_hotspot(reads, writes, x) && exists|j: int|
                    0 <= j < i && (#[trigger] rows@[j]).address == x.address && rows@[j].slot
                        == x.slot),
        decreases n - i,
    {
        let row = rows[i];
        let written = wcounts.get(&(row.address, row.slot));
        let ghost before = items@;
        let ghost wc = wcounts.count(row.address, row.slot);
        let ghost here = ContentionHotspot {
            address: row.address,
            slot: row.slot,
            read_count: row.count,
            write_count: wc as usize,
        };
        match written {
            Some(w) => {
                items.push(ContentionHotspot { address: row.address, slot: row.slot, read_count: row.count, write_count: w });
            },
            None => {},
        }
        proof {
            assert forall|x: ContentionHotspot| #[trigger]
                items@.contains(x) <==> (is_contention_hotspot(reads, writes, x) && exists|j: int|
                    0 <= j < i + 1 && (#[trigger] rows@[j]).address == x.address && rows@[j].slot
                        == x.slot) by {
                if items@.contains(x) {
                    let k = choose|k: int| 0 <= k < items@.len() && items@[k] == x;
                    if k < before.len() {
                        assert(before.contains(x));
                        let j = choose|j: int|
                            0 <= j < i && (#[trigger] rows@[j]).address == x.address && rows@[j].slot
                                == x.slot;
                        assert(0 <= j < i + 1);
                    } else {
                        assert(x == here);
                        assert(rows@[i as int].address == x.address);
                    }
                }
                if is_contention_hotspot(reads, writes, x) && exists|j: int|
                    0 <= j < i + 1 && (#[trigger] rows@[j]).address == x.address && rows@[j].slot
                        == x.slot {
                    let j = choose|j: int|
                        0 <= j < i + 1 && (#[trigger] rows@[j]).address == x.address && rows@[j].slot
                            == x.slot;
                    if j < i {
                        assert(before.contains(x));
                        let k = choose|k: int| 0 <= k < before.len() && before[k] == x;
                        assert(items@[k] == x);
                    } else {
                        assert(wcounts.count(x.address, x.slot) == slot_tally(writes, x.address, x.slot));
                        assert(written.is_some());
                        assert(x == here);
                        assert(items@[before.len() as int] == x);
                    }
                }
            }
            if written.is_some() {
                assert(!before.contains(here)) by {
                    if before.contains(here) {
                        let j = choose|j: int|
                            0 <= j < i && (#[trigger] rows@[j]).address == here.address
                                && rows@[j].slot == here.slot;
                        assert(rows@[j].address == rows@[i as int].address);
                    }
                }
                assert forall|p: int, q: int|
                    0 <= p < items@.len() && 0 <= q < items@.len() && p != q implies items@[p]
                    != items@[q] by {
                    if p == before.len() {
                        assert(before.contains(items@[q]));
                    } else if q == before.len() {
                        assert(before.contains(items@[p]));
                    }
                }
            }
        }
        i = i + 1;
    }
    proof {
        assert forall|x: ContentionHotspot| #[trigger]
            items@.contains(x) <==> is_contention_hotspot(reads, writes, x) by {
            if is_contention_hotspot(reads, writes, x) {
                assert(rcounts.count(x.address, x.slot) > 0);
            }
        }
    }
    let hotspots = sort_into_report_order(items);
    proof {
        assert forall|i: int, j: int| 0 <= i < j < hotspots@.len() implies (#[trigger] hotspots@[i]).read_count + hotspots@[i].write_count >= (#[trigger] hotspots@[j]).read_count + hotspots@[j].write_count by {
            assert(hotspots@[i].goes_before(hotspots@[j]));
        }
    }
    ContentionHotspots { hotspots, caveats: Caveats::default() }
}

/// The keys to load ahead of executing the block.
#[derive(Clone, Debug)]
pub struct PrefetchWorkingSet {
    pub keys: ReadSet,
    pub caveats: Caveats,
}

/// The block's whole read set.
pub fn compute_prefetch_working_set(block: &BlockAccess) -> (r: PrefetchWorkingSet)
    ensures
        r.keys@ == block.reads@,
        r.caveats.is_standard(),
{
    PrefetchWorkingSet { keys: block.reads.clone(), caveats: Caveats::default() }
}

/// A storage slot the block read that a transaction also wrote: the shape
/// a sandwich leaves.
#[derive(Clone, Copy, Debug, PartialEq, Eq, Structural, Hash)]
pub struct MevSandwichSignal {
    pub address: Address,
    pub slot: B256,
    pub may_be_noop_write: bool,
}

/// The sandwich signals, by address and then slot.
#[derive(Clone, Debug)]
pub struct MevSandwichSignals {
    pub signals: Vec<MevSandwichSignal>,
    pub caveats: Caveats,
}

/// `row` is a slot that `reads` holds and `tx_keys` writes; the write may
/// have changed nothing when at most one transaction wrote the slot.
pub open spec fn is_mev_sandwich_signal(
    reads: Seq<StateKey>,
    tx_keys: Seq<StateKey>,
    row: MevSandwichSignal,
) -> bool {
    &&& reads.contains(StateKey::StorageSlot { address: row.address, slot: row.slot })
    &&& tx_keys.contains(StateKey::StorageSlot { address: row.address, slot: row.slot })
    &&& row.may_be_noop_write == (slot_tally(tx_keys, row.address, row.slot) <= 1)
}

/// `a` comes strictly before `b` by address, then by slot.
pub open spec fn signal_strictly_before(a: MevSandwichSignal, b: MevSandwichSignal) -> bool {
    a.address.ordered_lt(b.address) || (a.address == b.address && a.slot.ordered_lt(b.slot))
}

impl ReportOrder for MevSandwichSignal {
    open spec fn goes_before(self, other: Self) -> bool {
        self.address.ordered_lt(other.address) || (self.address == other.address
            && self.slot.ordered_le(other.slot))
    }

    proof fn lemma_goes_before_total(a: Self, b: Self) {
    }

    proof fn lemma_goes_before_transitive(a: Self, b: Self, c: Self) {
    }

    fn check_goes_before(&self, other: &Self) -> (r: bool) {
        self.address.is_before(&other.address) || (self.address == other.address
            && !other.slot.is_before(&self.slot))
    }
}

/// The sandwich report of `block`: one row per storage slot the block read
/// and a transaction wrote, by address and then slot.
pub open spec fn mev_sandwich_signals_of(block: BlockAccess, rows: Seq<MevSandwichSignal>) -> bool {
    &&& forall|x: MevSandwichSignal| #[trigger]
        rows.contains(x) <==> is_mev_sandwich_signal(block.reads@, tx_write_keys(block.writes@), x)
    &&& forall|i: int, j: int|
        0 <= i < j < rows.len() ==> signal_strictly_before(#[trigger] rows[i], #[trigger] rows[j])
}

/// Whether `rows` has a signal for slot `slot` of `address`.
fn has_signal(rows: &Vec<MevSandwichSignal>, address: &Address, slot: &B256) -> (r: bool)
    ensures
        r == exists|j: int|
            0 <= j < rows@.len() && (#[trigger] rows@[j]).address == *address && rows@[j].slot == *slot,
{
    let mut i: usize = 0;
    while i < rows.len()
        invariant
            i <= rows@.len(),
            forall|j: int|
                0 <= j < i ==> !((#[trigger] rows@[j]).address == *address && rows@[j].slot == *slot),
        decreases rows@.len() - i,
    {
        if rows[i].address == *address && rows[i].slot == *slot {
            return true;
        }
        i = i + 1;
    }
    false
}

/// Lists every storage slot the block read and a transaction wrote, by
/// address and then slot, flagging the write as possibly changing nothing
/// when only one transaction wrote the slot.
pub fn compute_mev_sandwich_signals(block: &BlockAccess) -> (r: MevSandwichSignals)
    ensures
        mev_sandwich_signals_of(*block, r.signals@),
        r.caveats.is_standard(),
{
    let tx = tx_writes_with_position(block);
    let ghost reads = block.reads@;
    let ghost txk = tx_write_keys(block.writes@);
    let mut items: Vec<MevSandwichSignal> = Vec::new();
    let n = tx.len();
    let mut i: usize = 0;
    while i < n
        invariant
            i <= n,
            n == tx@.len(),
            reads == block.reads@,
            txk == tx@.map_values(|p: (crate::block::WriteEntry, usize)| p.0.key),
            items@.no_duplicates(),
            forall|x: MevSandwichSignal| #[trigger]
                items@.contains(x) <==> (is_mev_sandwich_signal(reads, txk, x) && txk.take(
                    i as int,
                ).contains(StateKey::StorageSlot { address: x.address, slot: x.slot })),
        decreases n - i,
    {
        let ghost before = items@;
        let ghost prefix = txk.take(i as int);
        proof {
            assert(txk.take(i + 1) =~= prefix.push(txk[i as int]));
        }
        let (w, _) = tx[i];
        proof {
            assert(txk[i as int] == w.key);
        }
        match w.key {
            StateKey::StorageSlot { address, slot } => {
                if block.reads.contains(&w.key) && !has_signal(&items, &address, &slot) {
                    let writes = count_slot_writes(&tx, &address, &slot);
                    items.push(MevSandwichSignal { address, slot, may_be_noop_write: writes <= 1 });
                    proof {
                        let here = MevSandwichSignal { address, slot, may_be_noop_write: writes <= 1 };
                        assert(!before.contains(here));
                        assert forall|p: int, q: int|
                            0 <= p < items@.len() && 0 <= q < items@.len() && p != q implies items@[p]
                            != items@[q] by {
                            if p == before.len() {
                                assert(before.contains(items@[q]));
                            } else if q == before.len() {
                                assert(before.contains(items@[p]));
                            }
                        }
                    }
                }
            },
            _ => {},
        }
        proof {
            assert forall|x: MevSandwichSignal| #[trigger]
                items@.contains(x) <==> (is_mev_sandwich_signal(reads, txk, x) && txk.take(
                    i + 1,
                ).contains(StateKey::StorageSlot { address: x.address, slot: x.slot })) by {
                let key = StateKey::StorageSlot { address: x.address, slot: x.slot };
                assert(prefix.push(txk[i as int]).contains(key) <==> (prefix.contains(key) || key
                    == txk[i as int])) by {
                    if prefix.push(txk[i as int]).contains(key) {
                        let k = choose|k: int|
                            0 <= k < prefix.push(txk[i as int]).len() && prefix.push(
                                txk[i as int],
                            )[k] == key;
                        if k < prefix.len() {
                            assert(prefix[k] == key);
                        }
                    }
                    if prefix.contains(key) {
                        let k = choose|k: int| 0 <= k < prefix.len() && prefix[k] == key;
                        assert(prefix.push(txk[i as int])[k] == key);
                    }
                    if key == txk[i as int] {
                        assert(prefix.push(txk[i as int])[prefix.len() as int] == key);
                    }
                }
                if items@.contains(x) && !before.contains(x) {
                    let k = choose|k: int| 0 <= k < items@.len() && items@[k] == x;
                    assert(k == before.len());
                }
                if before.contains(x) {
                    let k = choose|k: int| 0 <= k < before.len() && before[k] == x;
                    assert(items@[k] == x);
                }
                if is_mev_sandwich_signal(reads, txk, x) && key == txk[i as int] && !prefix.contains(
                    key,
                ) {
                    assert(w.key == key);
                    assert(!exists|j: int|
                        0 <= j < before.len() && (#[trigger] before[j]).address == x.address
                            && before[j].slot == x.slot) by {
                        if exists|j: int|
                            0 <= j < before.len() && (#[trigger] before[j]).address == x.address
                                && before[j].slot == x.slot {
                            let j = choose|j: int|
                                0 <= j < before.len() && (#[trigger] before[j]).address == x.address
                                    && before[j].slot == x.slot;
                            assert(before.contains(before[j]));
                        }
                    }
                    assert(!before.contains(x));
                    assert(items@[before.len() as int] == x);
                }
            }
        }
        i = i + 1;
    }
    proof {
        assert(txk.take(n as int) =~= txk);
    }
    let signals = sort_into_report_order(items);
    proof {
        assert forall|i: int, j: int|
            0 <= i < j < signals@.len() implies signal_strictly_before(
            #[trigger] signals@[i],
            #[trigger] signals@[j],
        ) by {
            assert(signals@[i].goes_before(signals@[j]));
            assert(signals@.contains(signals@[i]) && signals@.contains(signals@[j]));
        }
    }
    MevSandwichSignals { signals, caveats: Caveats::default() }
}

/// An account the block touched but neither read nor wrote.
#[derive(Clone, Copy, Debug, PartialEq, Eq, Structural, Hash)]
pub struct TouchedUnchanged {
    pub address: Address,
    pub wasted_access_list_entry: bool,
}

/// The touched-but-unused accounts, by address.
#[derive(Clone, Debug)]
pub struct TouchedUnchangedAccounts {
    pub accounts: Vec<TouchedUnchanged>,
    pub caveats: Caveats,
}

/// `row` is an account of `touched` with no key in `reads` or `writes`;
/// its access-list entry was wasted.
pub open spec fn is_touched_unchanged(
    touched: Seq<Address>,
    reads: Seq<StateKey>,
    writes: Seq<StateKey>,
    row: TouchedUnchanged,
) -> bool {
    &&& touched.contains(row.address)
    &&& account_tally(reads, row.address) == 0
    &&& account_tally(writes, row.address) == 0
    &&& row.wasted_access_list_entry
}

impl ReportOrder for TouchedUnchanged {
    open spec fn goes_before(self, other: Self) -> bool {
        self.address.ordered_le(other.address)
    }

    proof fn lemma_goes_before_total(a: Self, b: Self) {
    }

    proof fn lemma_goes_before_transitive(a: Self, b: Self, c: Self) {
    }

    fn check_goes_before(&self, other: &Self) -> (r: bool) {
        !other.address.is_before(&self.address)
    }
}

/// The unused-account report of `block`: one row per touched account with
/// no key read or written, by address.
pub open spec fn touched_unchanged_of(block: BlockAccess, rows: Seq<TouchedUnchanged>) -> bool {
    &&& forall|x: TouchedUnchanged| #[trigger]
        rows.contains(x) <==> is_touched_unchanged(
            block.touched@,
            block.reads@,
            write_keys(block.writes@),
            x,
        )
    &&& forall|i: int, j: int|
        0 <= i < j < rows.len() ==> (#[trigger] rows[i]).address.ordered_lt(
            (#[trigger] rows[j]).address,
        )
}

/// Lists every account the block touched but neither read nor wrote, by
/// address.
pub fn compute_touched_unchanged(block: &BlockAccess) -> (r: TouchedUnchangedAccounts)
    ensures
        touched_unchanged_of(*block, r.accounts@),
        r.caveats.is_standard(),
{
    let raddrs = read_addresses(block);
    let waddrs = write_addresses(block);
    let touched = block.touched.accounts();
    let ghost reads = block.reads@;
    let ghost writes = write_keys(block.writes@);
    let mut items: Vec<TouchedUnchanged> = Vec::new();
    let n = touched.len();
    let mut i: usize = 0;
    while i < n
        invariant
            i <= n,
            n == touched@.len(),
            touched@.no_duplicates(),
            forall|a: Address| #[trigger] raddrs@.contains(a) <==> account_tally(reads, a) > 0,
            forall|a: Address| #[trigger] waddrs@.contains(a) <==> account_tally(writes, a) > 0,
            items@.no_duplicates(),
            forall|x: TouchedUnchanged| #[trigger]
                items@.contains(x) <==> (is_touched_unchanged(touched@, reads, writes, x)
                    && touched@.take(i as int).contains(x.address)),
        decreases n - i,
    {
        let ghost before = items@;
        let ghost prefix = touched@.take(i as int);
        proof {
            assert(touched@.take(i + 1) =~= prefix.push(touched@[i as int]));
        }
        let address = touched[i];
        let unused = !raddrs.contains(&address) && !waddrs.contains(&address);
        if unused {
            items.push(TouchedUnchanged { address, wasted_access_list_entry: true });
        }
        proof {
            let here = TouchedUnchanged { address, wasted_access_list_entry: true };
            assert(!prefix.contains(address)) by {
                if prefix.contains(address) {
                    let k = choose|k: int| 0 <= k < prefix.len() && prefix[k] == address;
                    assert(touched@[k] == touched@[i as int]);
                }
            }
            if unused {
                assert(!before.contains(here));
                assert forall|p: int, q: int|
                    0 <= p < items@.len() && 0 <= q < items@.len() && p != q implies items@[p]
                    != items@[q] by {
                    if p == before.len() {
                        assert(before.contains(items@[q]));
                    } else if q == before.len() {
                        assert(before.contains(items@[p]));
                    }
                }
            }
            assert forall|x: TouchedUnchanged| #[trigger]
                items@.contains(x) <==> (is_touched_unchanged(touched@, reads, writes, x)
                    && touched@.take(i + 1).contains(x.address)) by {
                assert(prefix.push(address).contains(x.address) <==> (prefix.contains(x.address)
                    || x.address == address)) by {
                    if prefix.push(address).contains(x.address) {
                        let k = choose|k: int|
                            0 <= k < prefix.push(address).len() && prefix.push(address)[k]
                                == x.address;
                        if k < prefix.len() {
                            assert(prefix[k] == x.address);
                        }
                    }
                    if prefix.contains(x.address) {
                        let k = choose|k: int| 0 <= k < prefix.len() && prefix[k] == x.address;
                        assert(prefix.push(address)[k] == x.address);
                    }
                    if x.address == address {
                        assert(prefix.push(address)[prefix.len() as int] == x.address);
                    }
                }
                assert(touched@.contains(address)) by {
                    assert(touched@[i as int] == address);
                }
                if items@.contains(x) && !before.contains(x) {
                    let k = choose|k: int| 0 <= k < items@.len() && items@[k] == x;
                    assert(k == before.len());
                }
                if before.contains(x) {
                    let k = choose|k: int| 0 <= k < before.len() && before[k] == x;
                    assert(items@[k] == x);
                }
                if is_touched_unchanged(touched@, reads, writes, x) && x.address == address {
                    assert(unused);
                    assert(x == here);
                    assert(items@[before.len() as int] == x);
                }
            }
        }
        i = i + 1;
    }
    proof {
        assert(touched@.take(n as int) =~= touched@);
    }
    let accounts = sort_into_report_order(items);
    proof {
        assert forall|i: int, j: int| 0 <= i < j < accounts@.len() implies (
        #[trigger] accounts@[i]).address.ordered_lt((#[trigger] accounts@[j]).address) by {
            assert(accounts@[i].goes_before(accounts@[j]));
            assert(accounts@.contains(accounts@[i]) && accounts@.contains(accounts@[j]));
        }
    }
    TouchedUnchangedAccounts { accounts, caveats: Caveats::default() }
}

/// Every read-side metric of one block.
#[derive(Clone, Debug)]
pub struct ReadAnalytics {
    pub hot_read_slots: HotReadSlots,
    pub read_write_ratio: ReadWriteRatio,
    pub cache_candidacy: CacheCandidacy,
    pub contention_hotspots: ContentionHotspots,
    pub prefetch_working_set: PrefetchWorkingSet,
    pub mev_sandwich_signals: MevSandwichSignals,
    pub touched_unchanged: TouchedUnchangedAccounts,
}

/// `r` holds every report of `block`, each with the standard caveats.
pub open spec fn read_analytics_of(block: BlockAccess, r: ReadAnalytics) -> bool {
    &&& hot_read_slots_of(block, r.hot_read_slots.slots@)
    &&& read_write_ratio_of(block, r.read_write_ratio.contracts@)
    &&& cache_candidacy_of(block, r.cache_candidacy.candidates@)
    &&& contention_hotspots_of(block, r.contention_hotspots.hotspots@)
    &&& r.prefetch_working_set.keys@ == block.reads@
    &&& mev_sandwich_signals_of(block, r.mev_sandwich_signals.signals@)
    &&& touched_unchanged_of(block, r.touched_unchanged.accounts@)
    &&& r.hot_read_slots.caveats.is_standard()
    &&& r.read_write_ratio.caveats.is_standard()
    &&& r.cache_candidacy.caveats.is_standard()
    &&& r.contention_hotspots.caveats.is_standard()
    &&& r.prefetch_working_set.caveats.is_standard()
    &&& r.mev_sandwich_signals.caveats.is_standard()
    &&& r.touched_unchanged.caveats.is_standard()
}

/// Computes every read-side metric of `block`.
pub fn compute_read_analytics(block: &BlockAccess) -> (r: ReadAnalytics)
    ensures
        read_analytics_of(*block, r),
{
    ReadAnalytics {
        hot_read_slots: compute_hot_read_slots(block),
        read_write_ratio: compute_read_write_ratio(block),
        cache_candidacy: compute_cache_candidacy(block),
        contention_hotspots: compute_contention_hotspots(block),
        prefetch_working_set: compute_prefetch_working_set(block),
        mev_sandwich_signals: compute_mev_sandwich_signals(block),
        touched_unchanged: compute_touched_unchanged(block),
    }
}

} // verus!
