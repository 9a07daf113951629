//! How the reports of one block relate to each other.
use vstd::prelude::*;
use crate::analytics::{
    CacheCandidate,
    ContentionHotspot,
    ContractReadWrite,
    MevSandwichSignal,
    ReadAnalytics,
    SlotReadCount,
    TouchedUnchanged,
    is_contract_read_write,
    is_touched_unchanged,
    cache_candidacy_of,
    contention_hotspots_of,
    hot_read_slots_of,
    is_cache_candidate,
    is_contention_hotspot,
    is_hot_read_slot,
    is_mev_sandwich_signal,
    mev_sandwich_signals_of,
    read_analytics_of,
    read_write_ratio_of,
    touched_unchanged_of,
};
use crate::block::{BlockAccess, StateKey, TxPosition, WriteEntry};
use crate::primitives::{Address, B256};
use crate::tally::{
    account_tally,
    lemma_account_tally_positive,
    lemma_account_tally_bound,
    lemma_no_tx_writes,
    lemma_slot_tally_bound,
    lemma_slot_tally_of_distinct,
    lemma_slot_tally_positive,
    lemma_tx_write_keys_are_written,
    slot_tally,
    tx_write_keys,
    write_keys,
};

verus! {

/// Every slot the block read is either a cache candidate (never written) or
/// a contention hotspot (written), never both, with the same read count in
/// each report; and every cache candidate and every hotspot is a slot the
/// block read.
pub proof fn lemma_read_slots_split_into_cache_and_contention(
    block: BlockAccess,
    hot: Seq<SlotReadCount>,
    cache: Seq<CacheCandidate>,
    contention: Seq<ContentionHotspot>,
)
    requires
        hot_read_slots_of(block, hot),
        cache_candidacy_of(block, cache),
        contention_hotspots_of(block, contention),
    ensures
        forall|x: SlotReadCount| #[trigger]
            hot.contains(x) ==> cache.contains(
                CacheCandidate {
                    address: x.address,
                    slot: x.slot,
                    read_count: x.read_count,
                    write_count: 0,
                },
            ) || contention.contains(
                ContentionHotspot {
                    address: x.address,
                    slot: x.slot,
                    read_count: x.read_count,
                    write_count: slot_tally(write_keys(block.writes@), x.address, x.slot) as usize,
                },
            ),
        forall|c: CacheCandidate| #[trigger]
            cache.contains(c) ==> hot.contains(
                SlotReadCount { address: c.address, slot: c.slot, read_count: c.read_count },
            ),
        forall|h: ContentionHotspot| #[trigger]
            contention.contains(h) ==> hot.contains(
                SlotReadCount { address: h.address, slot: h.slot, read_count: h.read_count },
            ),
        forall|c: CacheCandidate, h: ContentionHotspot|
            #[trigger] cache.contains(c) && #[trigger] contention.contains(h) ==> !(c.address
                == h.address && c.slot == h.slot),
{
    let reads = block.reads@;
    let writes = write_keys(block.writes@);
    assert forall|x: SlotReadCount| #[trigger] hot.contains(x) implies cache.contains(
        CacheCandidate { address: x.address, slot: x.slot, read_count: x.read_count, write_count: 0 },
    ) || contention.contains(
        ContentionHotspot {
            address: x.address,
            slot: x.slot,
            read_count: x.read_count,
            write_count: slot_tally(writes, x.address, x.slot) as usize,
        },
    ) by {
        let c = CacheCandidate {
            address: x.address,
            slot: x.slot,
            read_count: x.read_count,
            write_count: 0,
        };
        let w = slot_tally(writes, x.address, x.slot);
        let h = ContentionHotspot {
            address: x.address,
            slot: x.slot,
            read_count: x.read_count,
            write_count: w as usize,
        };
        if w == 0 {
            assert(is_cache_candidate(reads, writes, c));
        } else {
            assert(block.writes.len() == block.writes@.len());
            crate::tally::lemma_slot_tally_bound(writes, x.address, x.slot);
            assert(is_contention_hotspot(reads, writes, h));
        }
    }
    assert forall|c: CacheCandidate| #[trigger] cache.contains(c) implies hot.contains(
        SlotReadCount { address: c.address, slot: c.slot, read_count: c.read_count },
    ) by {
        assert(is_hot_read_slot(
            reads,
            SlotReadCount { address: c.address, slot: c.slot, read_count: c.read_count },
        ));
    }
    assert forall|h: ContentionHotspot| #[trigger] contention.contains(h) implies hot.contains(
        SlotReadCount { address: h.address, slot: h.slot, read_count: h.read_count },
    ) by {
        assert(is_hot_read_slot(
            reads,
            SlotReadCount { address: h.address, slot: h.slot, read_count: h.read_count },
        ));
    }
}

/// `contention` has a row for storage slot `slot` of `address`.
pub open spec fn lists_hotspot(contention: Seq<ContentionHotspot>, address: Address, slot: B256) -> bool {
    exists|h: ContentionHotspot| #[trigger] contention.contains(h) && h.address == address && h.slot == slot
}

/// Every sandwich signal names a contended slot: one the block read and
/// wrote.
pub proof fn lemma_sandwich_slots_are_contended(
    block: BlockAccess,
    signals: Seq<crate::analytics::MevSandwichSignal>,
    contention: Seq<ContentionHotspot>,
)
    requires
        block.reads@.no_duplicates(),
        mev_sandwich_signals_of(block, signals),
        contention_hotspots_of(block, contention),
    ensures
        forall|i: int|
            0 <= i < signals.len() ==> lists_hotspot(
                contention,
                (#[trigger] signals[i]).address,
                signals[i].slot,
            ),
{
    let reads = block.reads@;
    let writes = write_keys(block.writes@);
    assert forall|i: int| 0 <= i < signals.len() implies lists_hotspot(
        contention,
        (#[trigger] signals[i]).address,
        signals[i].slot,
    ) by {
        let x = signals[i];
        assert(signals.contains(x));
        assert(is_mev_sandwich_signal(reads, tx_write_keys(block.writes@), x));
        let key = StateKey::StorageSlot { address: x.address, slot: x.slot };
        lemma_tx_write_keys_are_written(block.writes@, key);
        lemma_slot_tally_positive(reads, x.address, x.slot);
        lemma_slot_tally_positive(writes, x.address, x.slot);
        crate::tally::lemma_slot_tally_of_distinct(reads, x.address, x.slot);
        assert(block.writes.len() == block.writes@.len());
        crate::tally::lemma_slot_tally_bound(writes, x.address, x.slot);
        let h = ContentionHotspot {
            address: x.address,
            slot: x.slot,
            read_count: slot_tally(reads, x.address, x.slot) as usize,
            write_count: slot_tally(writes, x.address, x.slot) as usize,
        };
        assert(is_contention_hotspot(reads, writes, h));
        assert(contention.contains(h));
    }
}

/// No account reported as touched but unused shows up among the accounts
/// with reads or writes.
pub proof fn lemma_unused_accounts_have_no_reads_or_writes(block: BlockAccess, r: ReadAnalytics)
    requires
        read_analytics_of(block, r),
    ensures
        forall|i: int, j: int|
            0 <= i < r.touched_unchanged.accounts@.len() && 0 <= j
                < r.read_write_ratio.contracts@.len() ==> (#[trigger] r.touched_unchanged.accounts@[i]).address
                != (#[trigger] r.read_write_ratio.contracts@[j]).address,
{
    assert forall|i: int, j: int|
        0 <= i < r.touched_unchanged.accounts@.len() && 0 <= j < r.read_write_ratio.contracts@.len()
        implies (#[trigger] r.touched_unchanged.accounts@[i]).address
        != (#[trigger] r.read_write_ratio.contracts@[j]).address by {
        assert(r.touched_unchanged.accounts@.contains(r.touched_unchanged.accounts@[i]));
        assert(r.read_write_ratio.contracts@.contains(r.read_write_ratio.contracts@[j]));
    }
}

/// A block that read, wrote and touched nothing has empty reports.
pub proof fn lemma_empty_block_has_empty_analytics(block: BlockAccess, r: ReadAnalytics)
    requires
        read_analytics_of(block, r),
        block.reads@.len() == 0,
        block.writes@.len() == 0,
        block.touched@.len() == 0,
    ensures
        r.hot_read_slots.slots@.len() == 0,
        r.read_write_ratio.contracts@.len() == 0,
        r.cache_candidacy.candidates@.len() == 0,
        r.contention_hotspots.hotspots@.len() == 0,
        r.prefetch_working_set.keys@.len() == 0,
        r.mev_sandwich_signals.signals@.len() == 0,
        r.touched_unchanged.accounts@.len() == 0,
{
    assert(write_keys(block.writes@).len() == 0);
    lemma_no_tx_writes(block.writes@);
    if r.hot_read_slots.slots@.len() > 0 {
        assert(r.hot_read_slots.slots@.contains(r.hot_read_slots.slots@[0]));
    }
    if r.read_write_ratio.contracts@.len() > 0 {
        assert(r.read_write_ratio.contracts@.contains(r.read_write_ratio.contracts@[0]));
    }
    if r.cache_candidacy.candidates@.len() > 0 {
        assert(r.cache_candidacy.candidates@.contains(r.cache_candidacy.candidates@[0]));
    }
    if r.contention_hotspots.hotspots@.len() > 0 {
        assert(r.contention_hotspots.hotspots@.contains(r.contention_hotspots.hotspots@[0]));
    }
    if r.mev_sandwich_signals.signals@.len() > 0 {
        assert(r.mev_sandwich_signals.signals@.contains(r.mev_sandwich_signals.signals@[0]));
    }
    if r.touched_unchanged.accounts@.len() > 0 {
        assert(r.touched_unchanged.accounts@.contains(r.touched_unchanged.accounts@[0]));
    }
}

/// Writes made before or after all transactions raise no sandwich signal:
/// a block whose writes are all such has an empty sandwich report.
pub proof fn lemma_writes_outside_transactions_raise_no_signal(
    block: BlockAccess,
    signals: Seq<crate::analytics::MevSandwichSignal>,
)
    requires
        mev_sandwich_signals_of(block, signals),
        forall|i: int|
            0 <= i < block.writes@.len() ==> !((#[trigger] block.writes@[i]).position is Transaction),
    ensures
        signals.len() == 0,
{
    lemma_no_tx_writes(block.writes@);
    if signals.len() > 0 {
        assert(signals.contains(signals[0]));
    }
}

/// Each key belongs to the account it names.
pub proof fn lemma_key_accounts(address: Address, slot: B256)
    ensures
        (StateKey::StorageSlot { address, slot }).account() == address,
        StateKey::Balance(address).account() == address,
        StateKey::Nonce(address).account() == address,
        StateKey::Code(address).account() == address,
{
}

/// The written keys are the keys of all writes, one per write, in block
/// order, whatever the key's kind or the write's position.
pub proof fn lemma_write_keys_follow_writes(writes: Seq<WriteEntry>)
    ensures
        write_keys(writes).len() == writes.len(),
        forall|i: int| 0 <= i < writes.len() ==> #[trigger] write_keys(writes)[i] == writes[i].key,
{
}

/// Appending a write adds its key to the transaction-written keys exactly
/// when the write sits at a transaction position.
pub proof fn lemma_tx_write_keys_push(writes: Seq<WriteEntry>, w: WriteEntry)
    ensures
        tx_write_keys(writes.push(w)) == (if w.position is Transaction {
            tx_write_keys(writes).push(w.key)
        } else {
            tx_write_keys(writes)
        }),
        tx_write_keys(Seq::<WriteEntry>::empty()).len() == 0,
{
    assert(writes.push(w).drop_last() =~= writes);
    match w.position {
        TxPosition::Transaction(i) => {
            assert(tx_write_keys(writes.push(w)) =~= tx_write_keys(writes).push(w.key));
        },
        _ => {
            assert(tx_write_keys(writes.push(w)) =~= tx_write_keys(writes));
        },
    }
}

/// A slot's tally grows by one for each key naming it, and by nothing for
/// any other key; an empty sequence names nothing.
pub proof fn lemma_slot_tally_counts(keys: Seq<StateKey>, k: StateKey, address: Address, slot: B256)
    ensures
        slot_tally(Seq::<StateKey>::empty(), address, slot) == 0,
        slot_tally(keys.push(k), address, slot) == slot_tally(keys, address, slot) + (if k
            == (StateKey::StorageSlot { address, slot }) {
            1nat
        } else {
            0nat
        }),
{
    assert(keys.push(k).drop_last() =~= keys);
}

/// An account's tally grows by one for each key of that account, and by
/// nothing for any other key; an empty sequence has none.
pub proof fn lemma_account_tally_counts(keys: Seq<StateKey>, k: StateKey, address: Address)
    ensures
        account_tally(Seq::<StateKey>::empty(), address) == 0,
        account_tally(keys.push(k), address) == account_tally(keys, address) + (if k.account()
            == address {
            1nat
        } else {
            0nat
        }),
{
    assert(keys.push(k).drop_last() =~= keys);
}

/// Some write of `writes` has key `key`.
pub open spec fn written(writes: Seq<WriteEntry>, key: StateKey) -> bool {
    exists|m: int| 0 <= m < writes.len() && (#[trigger] writes[m]).key == key
}

/// Some write of `writes` at a transaction position has key `key`.
pub open spec fn written_by_transaction(writes: Seq<WriteEntry>, key: StateKey) -> bool {
    exists|m: int|
        0 <= m < writes.len() && (#[trigger] writes[m]).position is Transaction && writes[m].key == key
}

/// A key is among the transaction-written keys exactly when a write at a
/// transaction position has it.
pub proof fn lemma_tx_write_keys_are_transaction_writes(writes: Seq<WriteEntry>, key: StateKey)
    ensures
        tx_write_keys(writes).contains(key) <==> written_by_transaction(writes, key),
    decreases writes.len(),
{
    if writes.len() == 0 {
        lemma_tx_write_keys_push(writes, WriteEntry { position: TxPosition::PreTransaction, key, value: crate::block::WriteValue::Storage(B256 { hi: 0, lo: 0 }) });
        assert(writes =~= Seq::<WriteEntry>::empty());
    } else {
        let rest = writes.drop_last();
        let w = writes.last();
        assert(rest.push(w) =~= writes);
        lemma_tx_write_keys_push(rest, w);
        lemma_tx_write_keys_are_transaction_writes(rest, key);
        let t = tx_write_keys(rest);
        if written_by_transaction(rest, key) {
            let m = choose|m: int|
                0 <= m < rest.len() && (#[trigger] rest[m]).position is Transaction && rest[m].key == key;
            assert(writes[m] == rest[m]);
        }
        if written_by_transaction(writes, key) {
            let m = choose|m: int|
                0 <= m < writes.len() && (#[trigger] writes[m]).position is Transaction && writes[m].key
                    == key;
            if m < rest.len() {
                assert(rest[m] == writes[m]);
            }
        }
        if w.position is Transaction {
            if t.push(w.key).contains(key) {
                let k = choose|k: int| 0 <= k < t.push(w.key).len() && t.push(w.key)[k] == key;
                if k < t.len() {
                    assert(t[k] == key);
                } else {
                    assert(writes[writes.len() - 1] == w);
                }
            }
            if t.contains(key) {
                let k = choose|k: int| 0 <= k < t.len() && t[k] == key;
                assert(t.push(w.key)[k] == key);
            }
            if w.key == key {
                assert(t.push(w.key)[t.len() as int] == key);
            }
        }
    }
}

/// A key is among the written keys exactly when some write has it.
proof fn lemma_written_keys_contain(writes: Seq<WriteEntry>, key: StateKey)
    ensures
        write_keys(writes).contains(key) <==> written(writes, key),
{
    lemma_write_keys_follow_writes(writes);
    if written(writes, key) {
        let m = choose|m: int| 0 <= m < writes.len() && (#[trigger] writes[m]).key == key;
        assert(write_keys(writes)[m] == key);
    }
    if write_keys(writes).contains(key) {
        let m = choose|m: int| 0 <= m < write_keys(writes).len() && write_keys(writes)[m] == key;
        assert(writes[m].key == key);
    }
}

/// An account has a positive write tally exactly when some write has a key
/// of that account.
proof fn lemma_account_written(writes: Seq<WriteEntry>, address: Address)
    ensures
        account_tally(write_keys(writes), address) > 0 <==> exists|m: int|
            0 <= m < writes.len() && (#[trigger] writes[m]).key.account() == address,
{
    lemma_write_keys_follow_writes(writes);
    lemma_account_tally_positive(write_keys(writes), address);
    if exists|m: int| 0 <= m < writes.len() && (#[trigger] writes[m]).key.account() == address {
        let m = choose|m: int| 0 <= m < writes.len() && (#[trigger] writes[m]).key.account() == address;
        assert(write_keys(writes)[m].account() == address);
    }
    if account_tally(write_keys(writes), address) > 0 {
        let m = choose|m: int|
            0 <= m < write_keys(writes).len() && (#[trigger] write_keys(writes)[m]).account() == address;
        assert(writes[m].key.account() == address);
    }
}

/// The storage key of slot `slot` of `address`.
pub open spec fn slot_key(address: Address, slot: B256) -> StateKey {
    StateKey::StorageSlot { address, slot }
}

/// `rows` has a hot-read row for slot `slot` of `address`.
pub open spec fn lists_read_slot(rows: Seq<SlotReadCount>, address: Address, slot: B256) -> bool {
    exists|i: int| 0 <= i < rows.len() && (#[trigger] rows[i]).address == address && rows[i].slot == slot
}

/// The hot-read report lists exactly the storage slots among the block's
/// reads, each read once, most read first.
pub proof fn lemma_hot_read_slots_are_the_read_slots(block: BlockAccess, rows: Seq<SlotReadCount>)
    requires
        hot_read_slots_of(block, rows),
        block.reads@.no_duplicates(),
    ensures
        forall|i: int|
            0 <= i < rows.len() ==> block.reads@.contains(
                slot_key((#[trigger] rows[i]).address, rows[i].slot),
            ) && rows[i].read_count == 1,
        forall|j: int|
            0 <= j < block.reads@.len() && (#[trigger] block.reads@[j]) is StorageSlot
                ==> lists_read_slot(rows, block.reads@[j]->address, block.reads@[j]->slot),
        forall|i: int, j: int|
            0 <= i < j < rows.len() ==> (#[trigger] rows[i]).read_count >= (#[trigger] rows[j]).read_count,
{
    let reads = block.reads@;
    assert forall|i: int| 0 <= i < rows.len() implies reads.contains(
        slot_key((#[trigger] rows[i]).address, rows[i].slot),
    ) && rows[i].read_count == 1 by {
        assert(rows.contains(rows[i]));
        lemma_slot_tally_positive(reads, rows[i].address, rows[i].slot);
        lemma_slot_tally_of_distinct(reads, rows[i].address, rows[i].slot);
    }
    assert forall|j: int| 0 <= j < reads.len() && (#[trigger] reads[j]) is StorageSlot implies lists_read_slot(
        rows,
        reads[j]->address,
        reads[j]->slot,
    ) by {
        let a = reads[j]->address;
        let sl = reads[j]->slot;
        assert(reads[j] == slot_key(a, sl));
        assert(reads.contains(reads[j]));
        lemma_slot_tally_positive(reads, a, sl);
        lemma_slot_tally_of_distinct(reads, a, sl);
        let x = SlotReadCount { address: a, slot: sl, read_count: 1 };
        assert(is_hot_read_slot(reads, x));
        assert(rows.contains(x));
        let i = choose|i: int| 0 <= i < rows.len() && rows[i] == x;
        assert(rows[i].address == a && rows[i].slot == sl);
    }
}

/// `rows` has a row for account `address`.
pub open spec fn lists_contract(rows: Seq<ContractReadWrite>, address: Address) -> bool {
    exists|i: int| 0 <= i < rows.len() && (#[trigger] rows[i]).address == address
}

/// The read/write report has a row for the account of every key the block
/// read and of every write, whatever the key's kind; each row counts the
/// account's read keys and writes; most read first.
pub proof fn lemma_read_write_ratio_covers_every_access(block: BlockAccess, rows: Seq<ContractReadWrite>)
    requires
        read_write_ratio_of(block, rows),
    ensures
        forall|j: int|
            0 <= j < block.reads@.len() ==> lists_contract(rows, (#[trigger] block.reads@[j]).account()),
        forall|m: int|
            0 <= m < block.writes@.len() ==> lists_contract(
                rows,
                (#[trigger] block.writes@[m]).key.account(),
            ),
        forall|i: int|
            0 <= i < rows.len() ==> (#[trigger] rows[i]).read_count == account_tally(
                block.reads@,
                rows[i].address,
            ) && rows[i].write_count == account_tally(write_keys(block.writes@), rows[i].address),
        forall|i: int, j: int|
            0 <= i < j < rows.len() ==> (#[trigger] rows[i]).read_count >= (#[trigger] rows[j]).read_count,
{
    let reads = block.reads@;
    let writes = write_keys(block.writes@);
    block.reads.lemma_len_fits();
    assert(block.writes.len() == block.writes@.len());
    lemma_write_keys_follow_writes(block.writes@);
    assert forall|i: int| 0 <= i < rows.len() implies (#[trigger] rows[i]).read_count == account_tally(
        reads,
        rows[i].address,
    ) && rows[i].write_count == account_tally(writes, rows[i].address) by {
        assert(rows.contains(rows[i]));
    }
    assert forall|a: Address|
        account_tally(reads, a) + account_tally(writes, a) > 0 implies #[trigger] lists_contract(rows, a) by {
        lemma_account_tally_bound(reads, a);
        lemma_account_tally_bound(writes, a);
        let x = ContractReadWrite {
            address: a,
            read_count: account_tally(reads, a) as usize,
            write_count: account_tally(writes, a) as usize,
        };
        assert(is_contract_read_write(reads, writes, x));
        assert(rows.contains(x));
        let i = choose|i: int| 0 <= i < rows.len() && rows[i] == x;
        assert(rows[i].address == a);
    }
    assert forall|j: int| 0 <= j < reads.len() implies lists_contract(rows, (#[trigger] reads[j]).account()) by {
        lemma_account_tally_positive(reads, reads[j].account());
    }
    assert forall|m: int| 0 <= m < block.writes@.len() implies lists_contract(
        rows,
        (#[trigger] block.writes@[m]).key.account(),
    ) by {
        lemma_account_written(block.writes@, block.writes@[m].key.account());
    }
}

/// `rows` has a cache-candidate row for slot `slot` of `address`.
pub open spec fn lists_candidate(rows: Seq<CacheCandidate>, address: Address, slot: B256) -> bool {
    exists|i: int| 0 <= i < rows.len() && (#[trigger] rows[i]).address == address && rows[i].slot == slot
}

/// The cache report lists exactly the storage slots the block read and no
/// write touched, each read once and written never, most read first.
pub proof fn lemma_cache_candidates_are_read_never_written(block: BlockAccess, rows: Seq<CacheCandidate>)
    requires
        cache_candidacy_of(block, rows),
        block.reads@.no_duplicates(),
    ensures
        forall|i: int|
            0 <= i < rows.len() ==> block.reads@.contains(
                slot_key((#[trigger] rows[i]).address, rows[i].slot),
            ) && !written(block.writes@, slot_key(rows[i].address, rows[i].slot)) && rows[i].read_count
                == 1 && rows[i].write_count == 0,
        forall|j: int|
            0 <= j < block.reads@.len() && (#[trigger] block.reads@[j]) is StorageSlot && !written(
                block.writes@,
                block.reads@[j],
            ) ==> lists_candidate(rows, block.reads@[j]->address, block.reads@[j]->slot),
        forall|i: int, j: int|
            0 <= i < j < rows.len() ==> (#[trigger] rows[i]).read_count >= (#[trigger] rows[j]).read_count,
{
    let reads = block.reads@;
    let writes = write_keys(block.writes@);
    assert forall|i: int| 0 <= i < rows.len() implies reads.contains(
        slot_key((#[trigger] rows[i]).address, rows[i].slot),
    ) && !written(block.writes@, slot_key(rows[i].address, rows[i].slot)) && rows[i].read_count == 1
        && rows[i].write_count == 0 by {
        let k = slot_key(rows[i].address, rows[i].slot);
        assert(rows.contains(rows[i]));
        lemma_slot_tally_positive(reads, rows[i].address, rows[i].slot);
        lemma_slot_tally_of_distinct(reads, rows[i].address, rows[i].slot);
        lemma_slot_tally_positive(writes, rows[i].address, rows[i].slot);
        lemma_written_keys_contain(block.writes@, k);
    }
    assert forall|j: int|
        0 <= j < reads.len() && (#[trigger] reads[j]) is StorageSlot && !written(block.writes@, reads[j])
        implies lists_candidate(rows, reads[j]->address, reads[j]->slot) by {
        let a = reads[j]->address;
        let sl = reads[j]->slot;
        assert(reads[j] == slot_key(a, sl));
        assert(reads.contains(reads[j]));
        lemma_slot_tally_positive(reads, a, sl);
        lemma_slot_tally_of_distinct(reads, a, sl);
        lemma_slot_tally_positive(writes, a, sl);
        lemma_written_keys_contain(block.writes@, reads[j]);
        let x = CacheCandidate { address: a, slot: sl, read_count: 1, write_count: 0 };
        assert(is_cache_candidate(reads, writes, x));
        assert(rows.contains(x));
        let i = choose|i: int| 0 <= i < rows.len() && rows[i] == x;
        assert(rows[i].address == a && rows[i].slot == sl);
    }
}

/// `rows` has a hotspot row for slot `slot` of `address`.
pub open spec fn lists_contended_slot(rows: Seq<ContentionHotspot>, address: Address, slot: B256) -> bool {
    exists|i: int| 0 <= i < rows.len() && (#[trigger] rows[i]).address == address && rows[i].slot == slot
}

/// The contention report lists exactly the storage slots the block read
/// and some write (at any position) touched, with the number of those
/// writes, most accessed (reads plus writes) first.
pub proof fn lemma_contention_hotspots_are_read_and_written(block: BlockAccess, rows: Seq<ContentionHotspot>)
    requires
        contention_hotspots_of(block, rows),
        block.reads@.no_duplicates(),
    ensures
        forall|i: int|
            0 <= i < rows.len() ==> block.reads@.contains(
                slot_key((#[trigger] rows[i]).address, rows[i].slot),
            ) && written(block.writes@, slot_key(rows[i].address, rows[i].slot)) && rows[i].read_count
                == 1 && rows[i].write_count == slot_tally(
                write_keys(block.writes@),
                rows[i].address,
                rows[i].slot,
            ) && rows[i].write_count >= 1,
        forall|j: int|
            0 <= j < block.reads@.len() && (#[trigger] block.reads@[j]) is StorageSlot && written(
                block.writes@,
                block.reads@[j],
            ) ==> lists_contended_slot(rows, block.reads@[j]->address, block.reads@[j]->slot),
        forall|i: int, j: int|
            0 <= i < j < rows.len() ==> (#[trigger] rows[i]).read_count + rows[i].write_count
                >= (#[trigger] rows[j]).read_count + rows[j].write_count,
{
    let reads = block.reads@;
    let writes = write_keys(block.writes@);
    assert(block.writes.len() == block.writes@.len());
    lemma_write_keys_follow_writes(block.writes@);
    assert forall|i: int| 0 <= i < rows.len() implies block.reads@.contains(
        slot_key((#[trigger] rows[i]).address, rows[i].slot),
    ) && written(block.writes@, slot_key(rows[i].address, rows[i].slot)) && rows[i].read_count == 1
        && rows[i].write_count == slot_tally(writes, rows[i].address, rows[i].slot) && rows[i].write_count
        >= 1 by {
        let k = slot_key(rows[i].address, rows[i].slot);
        assert(rows.contains(rows[i]));
        lemma_slot_tally_positive(reads, rows[i].address, rows[i].slot);
        lemma_slot_tally_of_distinct(reads, rows[i].address, rows[i].slot);
        lemma_slot_tally_positive(writes, rows[i].address, rows[i].slot);
        lemma_written_keys_contain(block.writes@, k);
    }
    assert forall|j: int|
        0 <= j < reads.len() && (#[trigger] reads[j]) is StorageSlot && written(block.writes@, reads[j])
        implies lists_contended_slot(rows, reads[j]->address, reads[j]->slot) by {
        let a = reads[j]->address;
        let sl = reads[j]->slot;
        assert(reads[j] == slot_key(a, sl));
        assert(reads.contains(reads[j]));
        lemma_slot_tally_positive(reads, a, sl);
        lemma_slot_tally_of_distinct(reads, a, sl);
        lemma_slot_tally_positive(writes, a, sl);
        lemma_slot_tally_bound(writes, a, sl);
        lemma_written_keys_contain(block.writes@, reads[j]);
        let x = ContentionHotspot {
            address: a,
            slot: sl,
            read_count: 1,
            write_count: slot_tally(writes, a, sl) as usize,
        };
        assert(is_contention_hotspot(reads, writes, x));
        assert(rows.contains(x));
        let i = choose|i: int| 0 <= i < rows.len() && rows[i] == x;
        assert(rows[i].address == a && rows[i].slot == sl);
    }
}

/// `rows` has a signal for slot `slot` of `address`.
pub open spec fn lists_signal(rows: Seq<MevSandwichSignal>, address: Address, slot: B256) -> bool {
    exists|i: int| 0 <= i < rows.len() && (#[trigger] rows[i]).address == address && rows[i].slot == slot
}

/// The sandwich report lists exactly the storage slots the block read that
/// a write at a transaction position touched, flagging a possible no-op
/// exactly when at most one transaction wrote the slot, in increasing order
/// of address words and then slot words.
pub proof fn lemma_sandwich_signals_are_read_then_transaction_written(
    block: BlockAccess,
    rows: Seq<MevSandwichSignal>,
)
    requires
        mev_sandwich_signals_of(block, rows),
    ensures
        forall|i: int|
            0 <= i < rows.len() ==> block.reads@.contains(
                slot_key((#[trigger] rows[i]).address, rows[i].slot),
            ) && written_by_transaction(block.writes@, slot_key(rows[i].address, rows[i].slot)) && (
            rows[i].may_be_noop_write <==> slot_tally(
                tx_write_keys(block.writes@),
                rows[i].address,
                rows[i].slot,
            ) <= 1),
        forall|m: int|
            0 <= m < block.writes@.len() && (#[trigger] block.writes@[m]).position is Transaction
                && block.writes@[m].key is StorageSlot && block.reads@.contains(block.writes@[m].key)
                ==> lists_signal(rows, block.writes@[m].key->address, block.writes@[m].key->slot),
        forall|i: int, j: int|
            0 <= i < j < rows.len() ==> {
                let (x, y) = (#[trigger] rows[i], #[trigger] rows[j]);
                ||| x.address.hi < y.address.hi
                ||| (x.address.hi == y.address.hi && x.address.lo < y.address.lo)
                ||| (x.address == y.address && x.slot.hi < y.slot.hi)
                ||| (x.address == y.address && x.slot.hi == y.slot.hi && x.slot.lo < y.slot.lo)
            },
{
    let reads = block.reads@;
    let tx = tx_write_keys(block.writes@);
    assert forall|i: int| 0 <= i < rows.len() implies block.reads@.contains(
        slot_key((#[trigger] rows[i]).address, rows[i].slot),
    ) && written_by_transaction(block.writes@, slot_key(rows[i].address, rows[i].slot)) && (
    rows[i].may_be_noop_write <==> slot_tally(tx, rows[i].address, rows[i].slot) <= 1) by {
        assert(rows.contains(rows[i]));
        lemma_tx_write_keys_are_transaction_writes(block.writes@, slot_key(rows[i].address, rows[i].slot));
    }
    assert forall|m: int|
        0 <= m < block.writes@.len() && (#[trigger] block.writes@[m]).position is Transaction
            && block.writes@[m].key is StorageSlot && reads.contains(block.writes@[m].key) implies lists_signal(
        rows,
        block.writes@[m].key->address,
        block.writes@[m].key->slot,
    ) by {
        let k = block.writes@[m].key;
        let a = k->address;
        let sl = k->slot;
        assert(k == slot_key(a, sl));
        assert(written_by_transaction(block.writes@, k));
        lemma_tx_write_keys_are_transaction_writes(block.writes@, k);
        let x = MevSandwichSignal { address: a, slot: sl, may_be_noop_write: slot_tally(tx, a, sl) <= 1 };
        assert(is_mev_sandwich_signal(reads, tx, x));
        assert(rows.contains(x));
        let i = choose|i: int| 0 <= i < rows.len() && rows[i] == x;
        assert(rows[i].address == a && rows[i].slot == sl);
    }
}

/// Nothing of account `address` is among the block's reads or writes.
pub open spec fn account_unused(block: BlockAccess, address: Address) -> bool {
    &&& forall|j: int| 0 <= j < block.reads@.len() ==> (#[trigger] block.reads@[j]).account() != address
    &&& forall|m: int|
        0 <= m < block.writes@.len() ==> (#[trigger] block.writes@[m]).key.account() != address
}

/// `rows` has a row for account `address`.
pub open spec fn lists_unused_account(rows: Seq<TouchedUnchanged>, address: Address) -> bool {
    exists|i: int| 0 <= i < rows.len() && (#[trigger] rows[i]).address == address
}

/// The unused-account report lists exactly the touched accounts with no key
/// among the block's reads and no write of any kind, each marked wasted, in
/// strictly increasing order of address words.
pub proof fn lemma_unused_accounts_are_touched_and_unaccessed(block: BlockAccess, rows: Seq<TouchedUnchanged>)
    requires
        touched_unchanged_of(block, rows),
    ensures
        forall|i: int|
            0 <= i < rows.len() ==> block.touched@.contains((#[trigger] rows[i]).address)
                && account_unused(block, rows[i].address) && rows[i].wasted_access_list_entry,
        forall|j: int|
            0 <= j < block.touched@.len() && account_unused(block, #[trigger] block.touched@[j])
                ==> lists_unused_account(rows, block.touched@[j]),
        forall|i: int, j: int|
            0 <= i < j < rows.len() ==> (#[trigger] rows[i]).address.hi < (#[trigger] rows[j]).address.hi
                || (rows[i].address.hi == rows[j].address.hi && rows[i].address.lo < rows[j].address.lo),
{
    let reads = block.reads@;
    let writes = write_keys(block.writes@);
    assert forall|i: int| 0 <= i < rows.len() implies block.touched@.contains((#[trigger] rows[i]).address)
        && account_unused(block, rows[i].address) && rows[i].wasted_access_list_entry by {
        let a = rows[i].address;
        assert(rows.contains(rows[i]));
        lemma_account_tally_positive(reads, a);
        lemma_account_written(block.writes@, a);
        assert forall|j: int| 0 <= j < reads.len() implies (#[trigger] reads[j]).account() != a by {}
    }
    assert forall|j: int|
        0 <= j < block.touched@.len() && account_unused(block, #[trigger] block.touched@[j])
        implies lists_unused_account(rows, block.touched@[j]) by {
        let a = block.touched@[j];
        lemma_account_tally_positive(reads, a);
        lemma_account_written(block.writes@, a);
        assert(block.touched@.contains(a));
        let x = TouchedUnchanged { address: a, wasted_access_list_entry: true };
        assert(is_touched_unchanged(block.touched@, reads, writes, x));
        assert(rows.contains(x));
        let i = choose|i: int| 0 <= i < rows.len() && rows[i] == x;
        assert(rows[i].address == a);
    }
}

} // verus!
