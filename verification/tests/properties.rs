use dep_graph::analytics::{
    compute_cache_candidacy, compute_contention_hotspots, compute_hot_read_slots,
    compute_mev_sandwich_signals, compute_read_analytics, compute_read_write_ratio,
    compute_touched_unchanged, Caveats, ContractReadWrite, SlotReadCount,
};
use dep_graph::block::{
    AccountSet, BlockAccess, BlockContext, ReadSet, StateKey, TxPosition, WriteEntry, WriteValue,
};
use dep_graph::primitives::{Address, B256};
use dep_graph::tally::{
    count_slot_writes, key_address, per_address_counts, read_addresses, read_counts,
    storage_address_slot, tx_writes_with_position, write_addresses, write_counts,
};

fn addr(byte: u8) -> Address {
    Address::from_bytes([byte; 20])
}

fn slot(byte: u8) -> B256 {
    B256::from_bytes([byte; 32])
}

fn storage_key(a: u8, s: u8) -> StateKey {
    StateKey::StorageSlot {
        address: addr(a),
        slot: slot(s),
    }
}

fn ctx() -> BlockContext {
    BlockContext {
        number: 1,
        hash: slot(0x11),
        parent_hash: slot(0x10),
        coinbase: addr(0xFE),
        chain_id: 1,
        timestamp: 1_700_000_000,
        base_fee_per_gas: None,
        gas_limit: 30_000_000,
        gas_used: 0,
        tx_hashes: Vec::new(),
        block_access_list_hash: None,
    }
}

fn write(position: TxPosition, key: StateKey) -> WriteEntry {
    WriteEntry {
        position,
        key,
        value: WriteValue::Storage(slot(0x77)),
    }
}

fn reads_of(keys: &[StateKey]) -> ReadSet {
    let mut reads = ReadSet::new();
    for k in keys {
        reads.insert(*k);
    }
    reads
}

fn accounts_of(addrs: &[Address]) -> AccountSet {
    let mut set = AccountSet::new();
    for a in addrs {
        set.insert(*a);
    }
    set
}

/// Reads A0/1, A0/2, B0/1, C0/1 and the nonce of A0; writes A0/1 twice,
/// B0/1 once and C0/9 after the last transaction; touches A0, D0, E0.
fn mixed_block() -> BlockAccess {
    let reads = reads_of(&[
        storage_key(0xA0, 0x01),
        storage_key(0xA0, 0x02),
        storage_key(0xB0, 0x01),
        storage_key(0xC0, 0x01),
        StateKey::Nonce(addr(0xA0)),
    ]);
    let writes = vec![
        write(TxPosition::Transaction(0), storage_key(0xA0, 0x01)),
        write(TxPosition::Transaction(2), storage_key(0xB0, 0x01)),
        write(TxPosition::Transaction(3), storage_key(0xA0, 0x01)),
        write(TxPosition::PostTransaction, storage_key(0xC0, 0x09)),
    ];
    let touched = accounts_of(&[addr(0xA0), addr(0xD0), addr(0xE0)]);
    BlockAccess::new(ctx(), writes, reads, touched)
}

#[test]
fn address_from_bytes_reads_big_endian_words() {
    let mut bytes = [0u8; 20];
    bytes[0] = 0x01;
    bytes[1] = 0x02;
    bytes[2] = 0x03;
    bytes[3] = 0x04;
    bytes[4] = 0xFF;
    bytes[19] = 0x05;
    let a = Address::from_bytes(bytes);
    assert_eq!(a.hi, 0x0102_0304);
    assert_eq!(a.lo, (0xFFu128 << 120) | 0x05);
    assert_eq!(addr(0xAB).hi, 0xABAB_ABAB);
    assert_eq!(addr(0xAB).lo, u128::from_be_bytes([0xAB; 16]));
}

#[test]
fn b256_from_bytes_reads_big_endian_words() {
    let mut bytes = [0u8; 32];
    bytes[0] = 0x80;
    bytes[15] = 0x01;
    bytes[16] = 0x02;
    bytes[31] = 0x03;
    let w = B256::from_bytes(bytes);
    assert_eq!(w.hi, (0x80u128 << 120) | 0x01);
    assert_eq!(w.lo, (0x02u128 << 120) | 0x03);
}

#[test]
fn word_order_follows_byte_order() {
    assert!(addr(0x01).is_before(&addr(0x02)));
    assert!(!addr(0x02).is_before(&addr(0x01)));
    assert!(!addr(0x02).is_before(&addr(0x02)));
    let mut low_first = [0xFFu8; 20];
    low_first[0] = 0x00;
    let mut high_last = [0x00u8; 20];
    high_last[19] = 0x01;
    high_last[0] = 0x01;
    assert!(Address::from_bytes(low_first).is_before(&Address::from_bytes(high_last)));
    let mut a = [0u8; 32];
    let mut b = [0u8; 32];
    a[31] = 1;
    b[16] = 1;
    assert!(B256::from_bytes(a).is_before(&B256::from_bytes(b)));
    assert!(!B256::from_bytes(b).is_before(&B256::from_bytes(a)));
}

#[test]
fn read_set_inserts_each_key_once() {
    let mut reads = ReadSet::new();
    assert!(reads.is_empty());
    assert!(reads.insert(storage_key(0x01, 0x01)));
    assert!(!reads.insert(storage_key(0x01, 0x01)));
    assert!(reads.insert(StateKey::Code(addr(0x01))));
    assert_eq!(reads.len(), 2);
    assert!(reads.contains(&StateKey::Code(addr(0x01))));
    assert!(!reads.contains(&StateKey::Balance(addr(0x01))));
    assert_eq!(reads.keys().len(), 2);
    let copy = reads.clone();
    assert_eq!(copy.keys(), reads.keys());
}

#[test]
fn account_set_inserts_each_account_once() {
    let mut set = AccountSet::new();
    assert!(set.insert(addr(0x01)));
    assert!(set.insert(addr(0x02)));
    assert!(!set.insert(addr(0x01)));
    assert_eq!(set.len(), 2);
    assert!(set.contains(&addr(0x02)));
    assert!(!set.contains(&addr(0x03)));
    assert_eq!(set.accounts(), &vec![addr(0x01), addr(0x02)]);
}

#[test]
fn key_helpers_name_account_and_slot() {
    assert_eq!(key_address(&storage_key(0x05, 0x06)), addr(0x05));
    assert_eq!(key_address(&StateKey::Balance(addr(0x07))), addr(0x07));
    assert_eq!(key_address(&StateKey::Nonce(addr(0x08))), addr(0x08));
    assert_eq!(key_address(&StateKey::Code(addr(0x09))), addr(0x09));
    assert_eq!(storage_address_slot(&storage_key(0x05, 0x06)), Some((addr(0x05), slot(0x06))));
    assert_eq!(storage_address_slot(&StateKey::Code(addr(0x09))), None);
}

#[test]
fn slot_counts_count_every_write_position() {
    let block = mixed_block();
    let wc = write_counts(&block);
    assert_eq!(wc.len(), 3);
    assert_eq!(wc.get(&(addr(0xA0), slot(0x01))), Some(2));
    assert_eq!(wc.get(&(addr(0xB0), slot(0x01))), Some(1));
    assert_eq!(wc.get(&(addr(0xC0), slot(0x09))), Some(1));
    assert_eq!(wc.get(&(addr(0xA0), slot(0x02))), None);
    let rc = read_counts(&block);
    assert_eq!(rc.len(), 4);
    assert_eq!(rc.get(&(addr(0xA0), slot(0x02))), Some(1));
    assert_eq!(rc.get(&(addr(0xC0), slot(0x09))), None);
}

#[test]
fn per_address_counts_split_reads_and_writes() {
    let block = mixed_block();
    let rows = per_address_counts(&block);
    assert_eq!(rows.len(), 3);
    let a0 = rows.iter().find(|r| r.address == addr(0xA0)).unwrap();
    assert_eq!((a0.reads, a0.writes), (3, 2));
    let b0 = rows.iter().find(|r| r.address == addr(0xB0)).unwrap();
    assert_eq!((b0.reads, b0.writes), (1, 1));
    let c0 = rows.iter().find(|r| r.address == addr(0xC0)).unwrap();
    assert_eq!((c0.reads, c0.writes), (1, 1));
}

#[test]
fn address_sets_of_reads_and_writes() {
    let block = mixed_block();
    let r = read_addresses(&block);
    assert_eq!(r.len(), 3);
    assert!(r.contains(&addr(0xA0)) && r.contains(&addr(0xB0)) && r.contains(&addr(0xC0)));
    let w = write_addresses(&block);
    assert_eq!(w.len(), 3);
    assert!(!w.contains(&addr(0xD0)));
}

#[test]
fn transaction_writes_keep_their_positions() {
    let block = mixed_block();
    let tx = tx_writes_with_position(&block);
    let positions: Vec<usize> = tx.iter().map(|(_, i)| *i).collect();
    assert_eq!(positions, vec![0, 2, 3]);
    assert_eq!(count_slot_writes(&tx, &addr(0xA0), &slot(0x01)), 2);
    assert_eq!(count_slot_writes(&tx, &addr(0xC0), &slot(0x09)), 0);
}

#[test]
fn read_ratio_fraction_of_counts() {
    let c = ContractReadWrite {
        address: addr(0x01),
        read_count: 3,
        write_count: 2,
    };
    assert_eq!(c.read_ratio_fraction(), (3, 5));
    let none = ContractReadWrite {
        address: addr(0x01),
        read_count: 0,
        write_count: 0,
    };
    assert_eq!(none.read_ratio_fraction(), (0, 1));
    let written = ContractReadWrite {
        address: addr(0x01),
        read_count: 0,
        write_count: 4,
    };
    assert_eq!(written.read_ratio_fraction(), (0, 4));
}

#[test]
fn reports_list_rows_in_their_order() {
    let block = mixed_block();
    let rw = compute_read_write_ratio(&block);
    assert_eq!(rw.contracts[0].address, addr(0xA0));
    assert_eq!(rw.contracts[0].read_count, 3);
    for pair in rw.contracts.windows(2) {
        assert!(pair[0].read_count >= pair[1].read_count);
    }
    let ch = compute_contention_hotspots(&block);
    assert_eq!(ch.hotspots.len(), 2);
    assert_eq!((ch.hotspots[0].address, ch.hotspots[0].slot), (addr(0xA0), slot(0x01)));
    assert_eq!(ch.hotspots[0].write_count, 2);
    assert_eq!((ch.hotspots[1].address, ch.hotspots[1].slot), (addr(0xB0), slot(0x01)));
    let hot = compute_hot_read_slots(&block);
    for pair in hot.slots.windows(2) {
        assert!(pair[0].read_count >= pair[1].read_count);
    }
}

#[test]
fn sandwich_signals_sorted_and_flagged() {
    let block = mixed_block();
    let mev = compute_mev_sandwich_signals(&block);
    assert_eq!(mev.signals.len(), 2);
    assert_eq!((mev.signals[0].address, mev.signals[0].slot), (addr(0xA0), slot(0x01)));
    assert!(!mev.signals[0].may_be_noop_write);
    assert_eq!((mev.signals[1].address, mev.signals[1].slot), (addr(0xB0), slot(0x01)));
    assert!(mev.signals[1].may_be_noop_write);

    let reads = reads_of(&[storage_key(0x20, 0x02), storage_key(0x10, 0x05), storage_key(0x20, 0x01)]);
    let writes = vec![
        write(TxPosition::Transaction(0), storage_key(0x20, 0x02)),
        write(TxPosition::Transaction(1), storage_key(0x20, 0x01)),
        write(TxPosition::Transaction(2), storage_key(0x10, 0x05)),
        write(TxPosition::Transaction(3), storage_key(0x20, 0x02)),
    ];
    let block = BlockAccess::new(ctx(), writes, reads, AccountSet::new());
    let mev = compute_mev_sandwich_signals(&block);
    let keys: Vec<_> = mev.signals.iter().map(|s| (s.address, s.slot)).collect();
    assert_eq!(
        keys,
        vec![
            (addr(0x10), slot(0x05)),
            (addr(0x20), slot(0x01)),
            (addr(0x20), slot(0x02)),
        ]
    );
    assert!(!mev.signals[2].may_be_noop_write);
}

#[test]
fn writes_outside_transactions_raise_no_signal() {
    let reads = reads_of(&[storage_key(0x30, 0x01), storage_key(0x30, 0x02)]);
    let writes = vec![
        write(TxPosition::PreTransaction, storage_key(0x30, 0x01)),
        write(TxPosition::PostTransaction, storage_key(0x30, 0x02)),
        write(TxPosition::PostTransaction, storage_key(0x30, 0x01)),
    ];
    let block = BlockAccess::new(ctx(), writes, reads, AccountSet::new());
    assert!(compute_mev_sandwich_signals(&block).signals.is_empty());
    assert_eq!(compute_contention_hotspots(&block).hotspots.len(), 2);
}

#[test]
fn touched_unchanged_sorted_by_address() {
    let touched = accounts_of(&[addr(0x09), addr(0x03), addr(0x07), addr(0xA0)]);
    let reads = reads_of(&[StateKey::Balance(addr(0xA0))]);
    let block = BlockAccess::new(ctx(), Vec::new(), reads, touched);
    let tu = compute_touched_unchanged(&block);
    let addrs: Vec<_> = tu.accounts.iter().map(|a| a.address).collect();
    assert_eq!(addrs, vec![addr(0x03), addr(0x07), addr(0x09)]);
}

#[test]
fn read_slots_split_into_cache_and_contention() {
    let block = mixed_block();
    let hot = compute_hot_read_slots(&block);
    let cache = compute_cache_candidacy(&block);
    let contention = compute_contention_hotspots(&block);
    assert_eq!(hot.slots.len(), cache.candidates.len() + contention.hotspots.len());
    for h in &hot.slots {
        let in_cache = cache
            .candidates
            .iter()
            .any(|c| c.address == h.address && c.slot == h.slot && c.read_count == h.read_count);
        let in_contention = contention
            .hotspots
            .iter()
            .any(|c| c.address == h.address && c.slot == h.slot && c.read_count == h.read_count);
        assert!(in_cache != in_contention);
    }
}

#[test]
fn sandwich_slots_are_contended() {
    let block = mixed_block();
    let mev = compute_mev_sandwich_signals(&block);
    let contention = compute_contention_hotspots(&block);
    for s in &mev.signals {
        assert!(contention
            .hotspots
            .iter()
            .any(|h| h.address == s.address && h.slot == s.slot));
    }
}

#[test]
fn unused_accounts_have_no_reads_or_writes() {
    let block = mixed_block();
    let analytics = compute_read_analytics(&block);
    let unused: Vec<_> = analytics
        .touched_unchanged
        .accounts
        .iter()
        .map(|a| a.address)
        .collect();
    assert_eq!(unused, vec![addr(0xD0), addr(0xE0)]);
    for c in &analytics.read_write_ratio.contracts {
        assert!(!unused.contains(&c.address));
    }
}

#[test]
fn every_read_slot_counts_once() {
    let block = mixed_block();
    let hot = compute_hot_read_slots(&block);
    assert_eq!(hot.slots.len(), 4);
    assert!(hot.slots.contains(&SlotReadCount {
        address: addr(0xC0),
        slot: slot(0x01),
        read_count: 1
    }));
    for s in &hot.slots {
        assert_eq!(s.read_count, 1);
    }
}

#[test]
fn standard_caveats_text() {
    let c = Caveats::default();
    assert_eq!(
        c.block_granularity,
        "BAL reads are block-level; per-transaction attribution is unavailable"
    );
    assert_eq!(
        c.contamination,
        "Counts may include no-op / reverted-inner-call reads and are upper bounds"
    );
}
