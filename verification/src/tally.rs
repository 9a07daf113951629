//! Counting what a block read and wrote, per storage slot and per account.
use vstd::prelude::*;
use crate::block::{AccountSet, BlockAccess, StateKey, TxPosition, WriteEntry};
use crate::primitives::{Address, B256};

verus! {

/// How many of `keys` are storage slot `slot` of `address`.
pub open spec fn slot_tally(keys: Seq<StateKey>, address: Address, slot: B256) -> nat
    decreases keys.len(),
{
    if keys.len() == 0 {
        0
    } else {
        slot_tally(keys.drop_last(), address, slot) + if keys.last() == (StateKey::StorageSlot {
            address,
            slot,
        }) {
            1nat
        } else {
            0nat
        }
    }
}

/// How many of `keys` belong to account `address`.
pub open spec fn account_tally(keys: Seq<StateKey>, address: Address) -> nat
    decreases keys.len(),
{
    if keys.len() == 0 {
        0
    } else {
        account_tally(keys.drop_last(), address) + if keys.last().account() == address {
            1nat
        } else {
            0nat
        }
    }
}

/// The keys of `writes`, in order.
pub open spec fn write_keys(writes: Seq<WriteEntry>) -> Seq<StateKey> {
    writes.map_values(|w: WriteEntry| w.key)
}

/// The writes made by transactions (not before or after them), each with
/// its transaction's index, in order.
pub open spec fn tx_writes(writes: Seq<WriteEntry>) -> Seq<(WriteEntry, usize)>
    decreases writes.len(),
{
    if writes.len() == 0 {
        Seq::empty()
    } else {
        let earlier = tx_writes(writes.drop_last());
        match writes.last().position {
            TxPosition::Transaction(i) => earlier.push((writes.last(), i)),
            _ => earlier,
        }
    }
}

/// The keys written by transactions, in order.
pub open spec fn tx_write_keys(writes: Seq<WriteEntry>) -> Seq<StateKey> {
    tx_writes(writes).map_values(|p: (WriteEntry, usize)| p.0.key)
}

pub proof fn lemma_slot_tally_bound(keys: Seq<StateKey>, address: Address, slot: B256)
    ensures
        slot_tally(keys, address, slot) <= keys.len(),
    decreases keys.len(),
{
    if keys.len() > 0 {
        lemma_slot_tally_bound(keys.drop_last(), address, slot);
    }
}

pub proof fn lemma_account_tally_bound(keys: Seq<StateKey>, address: Address)
    ensures
        account_tally(keys, address) <= keys.len(),
    decreases keys.len(),
{
    if keys.len() > 0 {
        lemma_account_tally_bound(keys.drop_last(), address);
    }
}

/// A slot has a positive tally exactly when its key occurs.
pub proof fn lemma_slot_tally_positive(keys: Seq<StateKey>, address: Address, slot: B256)
    ensures
        slot_tally(keys, address, slot) > 0 <==> keys.contains(
            StateKey::StorageSlot { address, slot },
        ),
    decreases keys.len(),
{
    let k = StateKey::StorageSlot { address, slot };
    if keys.len() > 0 {
        let rest = keys.drop_last();
        lemma_slot_tally_positive(rest, address, slot);
        if rest.contains(k) {
            let j = choose|j: int| 0 <= j < rest.len() && rest[j] == k;
            assert(keys[j] == k);
        }
        if keys.contains(k) {
            let j = choose|j: int| 0 <= j < keys.len() && keys[j] == k;
            if j < keys.len() - 1 {
                assert(rest[j] == k);
            }
        }
    }
}

/// Among keys that do not repeat, each slot occurs at most once.
pub proof fn lemma_slot_tally_of_distinct(keys: Seq<StateKey>, address: Address, slot: B256)
    requires
        keys.no_duplicates(),
    ensures
        slot_tally(keys, address, slot) <= 1,
    decreases keys.len(),
{
    if keys.len() > 0 {
        let rest = keys.drop_last();
        assert(rest.no_duplicates());
        lemma_slot_tally_of_distinct(rest, address, slot);
        if keys.last() == (StateKey::StorageSlot { address, slot }) {
            lemma_slot_tally_positive(rest, address, slot);
            if rest.contains(keys.last()) {
                let j = choose|j: int| 0 <= j < rest.len() && rest[j] == keys.last();
                assert(keys[j] == keys[keys.len() - 1]);
            }
        }
    }
}

/// An account has a positive tally exactly when one of its keys occurs.
pub proof fn lemma_account_tally_positive(keys: Seq<StateKey>, address: Address)
    ensures
        account_tally(keys, address) > 0 <==> exists|j: int|
            0 <= j < keys.len() && (#[trigger] keys[j]).account() == address,
    decreases keys.len(),
{
    if keys.len() > 0 {
        let rest = keys.drop_last();
        lemma_account_tally_positive(rest, address);
        if exists|j: int| 0 <= j < rest.len() && (#[trigger] rest[j]).account() == address {
            let j = choose|j: int| 0 <= j < rest.len() && (#[trigger] rest[j]).account() == address;
            assert(keys[j] == rest[j]);
        }
        if exists|j: int| 0 <= j < keys.len() && (#[trigger] keys[j]).account() == address {
            let j = choose|j: int| 0 <= j < keys.len() && (#[trigger] keys[j]).account() == address;
            if j < keys.len() - 1 {
                assert(rest[j] == keys[j]);
            }
        }
    }
}

/// The account a key belongs to.
pub fn key_address(key: &StateKey) -> (r: Address)
    ensures
        r == key.account(),
{
    match key {
        StateKey::StorageSlot { address, .. } => *address,
        StateKey::Balance(address) => *address,
        StateKey::Nonce(address) => *address,
        StateKey::Code(address) => *address,
    }
}

/// The account and slot of a storage key; `None` for other keys.
pub fn storage_address_slot(key: &StateKey) -> (r: Option<(Address, B256)>)
    ensures
        r == (match *key {
            StateKey::StorageSlot { address, slot } => Some((address, slot)),
            _ => None,
        }),
{
    match key {
        StateKey::StorageSlot { address, slot } => Some((*address, *slot)),
        _ => None,
    }
}

/// The keys of `writes`, in order.
pub fn keys_of_writes(writes: &Vec<WriteEntry>) -> (r: Vec<StateKey>)
    ensures
        r@ == write_keys(writes@),
{
    let mut keys: Vec<StateKey> = Vec::new();
    let n = writes.len();
    for i in 0..n
        invariant
            n == writes@.len(),
            keys@ == write_keys(writes@.take(i as int)),
    {
        keys.push(writes[i].key);
        proof {
            assert(write_keys(writes@.take(i + 1)) =~= write_keys(writes@.take(i as int)).push(
                writes@[i as int].key,
            ));
        }
    }
    proof {
        assert(writes@.take(n as int) =~= writes@);
    }
    keys
}

/// How often one storage slot occurred.
#[derive(Clone, Copy, Debug, PartialEq, Eq, Structural)]
pub struct SlotCount {
    pub address: Address,
    pub slot: B256,
    pub count: usize,
}

/// Each of `rows` names a different slot.
pub open spec fn distinct_slot_rows(rows: Seq<SlotCount>) -> bool {
    forall|i: int, j: int|
        0 <= i < rows.len() && 0 <= j < rows.len() && i != j ==> !(rows[i].address
            == rows[j].address && rows[i].slot == rows[j].slot)
}

/// Some row of `rows` names storage slot `slot` of `address`.
pub open spec fn has_slot_row(rows: Seq<SlotCount>, address: Address, slot: B256) -> bool {
    exists|j: int| 0 <= j < rows.len() && (#[trigger] rows[j]).address == address && rows[j].slot == slot
}

/// Occurrence counts of storage slots, one row per slot that occurred.
pub struct SlotCounts {
    rows: Vec<SlotCount>,
}

impl SlotCounts {
    #[verifier::type_invariant]
    spec fn well_formed(self) -> bool {
        &&& distinct_slot_rows(self.rows@)
        &&& forall|i: int| 0 <= i < self.rows@.len() ==> #[trigger] self.rows@[i].count > 0
    }

    /// The rows, in the order their slots first occurred.
    pub closed spec fn view(&self) -> Seq<SlotCount> {
        self.rows@
    }

    /// How often storage slot `slot` of `address` occurred.
    pub closed spec fn count(&self, address: Address, slot: B256) -> nat {
        if exists|j: int|
            0 <= j < self.rows@.len() && (#[trigger] self.rows@[j]).address == address
                && self.rows@[j].slot == slot {
            self.rows@[choose|j: int|
                0 <= j < self.rows@.len() && (#[trigger] self.rows@[j]).address == address
                    && self.rows@[j].slot == slot].count as nat
        } else {
            0
        }
    }

    /// The count of the slot `key` names, or `None` where it never occurred.
    pub fn get(&self, key: &(Address, B256)) -> (r: Option<usize>)
        ensures
            self.count(key.0, key.1) <= usize::MAX,
            r == (if self.count(key.0, key.1) > 0 {
                Some(self.count(key.0, key.1) as usize)
            } else {
                None
            }),
    {
        proof {
            use_type_invariant(self);
        }
        let (address, slot) = *key;
        match find_slot_row(&self.rows, &address, &slot) {
            Some(j) => {
                proof {
                    let c = choose|c: int|
                        0 <= c < self.rows@.len() && (#[trigger] self.rows@[c]).address == address
                            && self.rows@[c].slot == slot;
                    assert(c == j);
                }
                Some(self.rows[j].count)
            },
            None => None,
        }
    }

    /// The number of slots that occurred.
    pub fn len(&self) -> (r: usize)
        ensures
            r == self@.len(),
    {
        self.rows.len()
    }

    /// The rows, each slot once, each with its count.
    pub fn rows(&self) -> (r: &Vec<SlotCount>)
        ensures
            r@ == self@,
            distinct_slot_rows(r@),
            forall|i: int|
                0 <= i < r@.len() ==> (#[trigger] r@[i]).count > 0 && r@[i].count == self.count(
                    r@[i].address,
                    r@[i].slot,
                ),
            forall|a: Address, s: B256|
                #[trigger] self.count(a, s) > 0 ==> exists|i: int|
                    0 <= i < r@.len() && (#[trigger] r@[i]).address == a && r@[i].slot == s,
    {
        proof {
            use_type_invariant(self);
            assert forall|i: int| 0 <= i < self.rows@.len() implies (#[trigger] self.rows@[i]).count
                > 0 && self.rows@[i].count == self.count(self.rows@[i].address, self.rows@[i].slot) by {
                let a = self.rows@[i].address;
                let s = self.rows@[i].slot;
                assert(self.rows@[i].address == a && self.rows@[i].slot == s);
                let c = choose|c: int|
                    0 <= c < self.rows@.len() && (#[trigger] self.rows@[c]).address == a
                        && self.rows@[c].slot == s;
                assert(c == i);
            }
        }
        &self.rows
    }
}

/// The index of the row of slot `slot` of `address`, if there is one.
fn find_slot_row(rows: &Vec<SlotCount>, address: &Address, slot: &B256) -> (r: Option<usize>)
    ensures
        match r {
            Some(j) => j < rows@.len() && rows@[j as int].address == *address && rows@[j as int].slot
                == *slot,
            None => forall|j: int|
                0 <= j < rows@.len() ==> !((#[trigger] rows@[j]).address == *address
                    && rows@[j].slot == *slot),
        },
{
    let mut i: usize = 0;
    while i < rows.len()
        invariant
            i <= rows@.len(),
            forall|j: int|
                0 <= j < i ==> !((#[trigger] rows@[j]).address == *address && rows@[j].slot == *slot),
        decreases rows@.len() - i,
    {
        if rows[i].address == *address && rows[i].slot == *slot {
            return Some(i);
        }
        i = i + 1;
    }
    None
}

/// Counts how often each storage slot occurs among `keys`.
pub fn tally_slots(keys: &Vec<StateKey>) -> (r: SlotCounts)
    ensures
        forall|a: Address, s: B256| #[trigger] r.count(a, s) == slot_tally(keys@, a, s),
{
    let mut rows: Vec<SlotCount> = Vec::new();
    let n = keys.len();
    let mut i: usize = 0;
    while i < n
        invariant
            i <= n,
            n == keys@.len(),
            distinct_slot_rows(rows@),
            forall|j: int|
                0 <= j < rows@.len() ==> (#[trigger] rows@[j]).count > 0 && rows@[j].count
                    == slot_tally(keys@.take(i as int), rows@[j].address, rows@[j].slot),
            forall|a: Address, s: B256|
                #[trigger] slot_tally(keys@.take(i as int), a, s) > 0 ==> has_slot_row(rows@, a, s),
        decreases n - i,
    {
        let ghost prefix = keys@.take(i as int);
        let ghost next = keys@.take(i + 1);
        proof {
            assert(next.drop_last() =~= prefix);
            assert(next.last() == keys@[i as int]);
        }
        let key = keys[i];
        match key {
            StateKey::StorageSlot { address, slot } => {
                match find_slot_row(&rows, &address, &slot) {
                    Some(j) => {
                        let old_row = rows[j];
                        proof {
                            lemma_slot_tally_bound(prefix, address, slot);
                        }
                        let ghost before = rows@;
                        rows.set(j, SlotCount { address, slot, count: old_row.count + 1 });
                        proof {
                            assert forall|a: Address, s: B256|
                                #[trigger] slot_tally(next, a, s) > 0 implies has_slot_row(rows@, a, s) by {
                                if slot_tally(keys@.take(i as int), a, s) > 0 {
                                    let m = choose|m: int|
                                        0 <= m < before.len() && (#[trigger] before[m]).address == a
                                            && before[m].slot == s;
                                    assert(rows@[m].address == a && rows@[m].slot == s);
                                } else {
                                    assert(rows@[j as int].address == a && rows@[j as int].slot == s);
                                }
                            }
                        }
                    },
                    None => {
                        proof {
                            if slot_tally(prefix, address, slot) > 0 {
                                let m = choose|m: int|
                                    0 <= m < rows@.len() && (#[trigger] rows@[m]).address == address
                                        && rows@[m].slot == slot;
                                assert(false);
                            }
                        }
                        let ghost before = rows@;
                        rows.push(SlotCount { address, slot, count: 1 });
                        proof {
                            assert forall|a: Address, s: B256|
                                #[trigger] slot_tally(next, a, s) > 0 implies has_slot_row(rows@, a, s) by {
                                if slot_tally(keys@.take(i as int), a, s) > 0 {
                                    let m = choose|m: int|
                                        0 <= m < before.len() && (#[trigger] before[m]).address == a
                                            && before[m].slot == s;
                                    assert(rows@[m] == before[m]);
                                } else {
                                    assert(rows@[before.len() as int].address == a);
                                }
                            }
                        }
                    },
                }
            },
            _ => {
                proof {
                    assert forall|a: Address, s: B256|
                        #[trigger] slot_tally(next, a, s) == slot_tally(prefix, a, s) by {}
                }
            },
        }
        i = i + 1;
    }
    proof {
        assert(keys@.take(n as int) =~= keys@);
    }
    let r = SlotCounts { rows };
    proof {
        assert forall|a: Address, s: B256| #[trigger] r.count(a, s) == slot_tally(keys@, a, s) by {
            if exists|j: int|
                0 <= j < r.rows@.len() && (#[trigger] r.rows@[j]).address == a && r.rows@[j].slot
                    == s {
                let c = choose|j: int|
                    0 <= j < r.rows@.len() && (#[trigger] r.rows@[j]).address == a && r.rows@[j].slot
                        == s;
                assert(r.rows@[c].count == slot_tally(keys@, a, s));
            } else {
                assert(slot_tally(keys@.take(n as int), a, s) == 0);
            }
        }
    }
    r
}

/// How often each storage slot occurs among the block's reads.
pub fn read_counts(block: &BlockAccess) -> (r: SlotCounts)
    ensures
        forall|a: Address, s: B256| #[trigger] r.count(a, s) == slot_tally(block.reads@, a, s),
{
    tally_slots(block.reads.keys())
}

/// How often each storage slot occurs among the block's writes, whatever
/// their position.
pub fn write_counts(block: &BlockAccess) -> (r: SlotCounts)
    ensures
        forall|a: Address, s: B256| #[trigger] r.count(a, s) == slot_tally(
            write_keys(block.writes@),
            a,
            s,
        ),
{
    let keys = keys_of_writes(&block.writes);
    tally_slots(&keys)
}

/// Reads and writes of one account.
#[derive(Clone, Copy, Debug, PartialEq, Eq, Structural)]
pub struct AccountTally {
    pub address: Address,
    pub reads: usize,
    pub writes: usize,
}

/// Some row of `rows` is for account `address`.
pub open spec fn has_account_row(rows: Seq<AccountTally>, address: Address) -> bool {
    exists|j: int| 0 <= j < rows.len() && (#[trigger] rows[j]).address == address
}

/// Each of `rows` is for a different account.
pub open spec fn distinct_account_rows(rows: Seq<AccountTally>) -> bool {
    forall|i: int, j: int|
        0 <= i < rows.len() && 0 <= j < rows.len() && i != j ==> rows[i].address != rows[j].address
}

/// The index of the row of account `address`, if there is one.
fn find_account_row(rows: &Vec<AccountTally>, address: &Address) -> (r: Option<usize>)
    ensures
        match r {
            Some(j) => j < rows@.len() && rows@[j as int].address == *address,
            None => !has_account_row(rows@, *address),
        },
{
    let mut i: usize = 0;
    while i < rows.len()
        invariant
            i <= rows@.len(),
            forall|j: int| 0 <= j < i ==> (#[trigger] rows@[j]).address != *address,
        decreases rows@.len() - i,
    {
        if rows[i].address == *address {
            return Some(i);
        }
        i = i + 1;
    }
    None
}

/// For every account the block read or wrote, how many of its keys the
/// block read and how many writes went to it; one row per account.
pub fn per_address_counts(block: &BlockAccess) -> (r: Vec<AccountTally>)
    ensures
        distinct_account_rows(r@),
        forall|i: int|
            0 <= i < r@.len() ==> (#[trigger] r@[i]).reads == account_tally(block.reads@, r@[i].address)
                && r@[i].writes == account_tally(write_keys(block.writes@), r@[i].address)
                && r@[i].reads + r@[i].writes > 0,
        forall|a: Address|
            #[trigger] account_tally(block.reads@, a) + account_tally(write_keys(block.writes@), a) > 0
                ==> has_account_row(r@, a),
{
    let reads = block.reads.keys();
    let writes = keys_of_writes(&block.writes);
    let ghost wk = write_keys(block.writes@);
    let mut rows: Vec<AccountTally> = Vec::new();
    let n = reads.len();
    let mut i: usize = 0;
    while i < n
        invariant
            i <= n,
            n == reads@.len(),
            distinct_account_rows(rows@),
            forall|j: int|
                0 <= j < rows@.len() ==> (#[trigger] rows@[j]).reads == account_tally(
                    reads@.take(i as int),
                    rows@[j].address,
                ) && rows@[j].writes == 0 && rows@[j].reads > 0,
            forall|a: Address|
                #[trigger] account_tally(reads@.take(i as int), a) > 0 ==> has_account_row(rows@, a),
        decreases n - i,
    {
        let ghost prefix = reads@.take(i as int);
        let ghost next = reads@.take(i + 1);
        proof {
            assert(next.drop_last() =~= prefix);
            lemma_account_tally_bound(prefix, reads@[i as int].account());
        }
        let address = key_address(&reads[i]);
        let ghost before = rows@;
        match find_account_row(&rows, &address) {
            Some(j) => {
                let row = rows[j];
                rows.set(j, AccountTally { address, reads: row.reads + 1, writes: 0 });
                proof {
                    assert forall|a: Address| #[trigger] account_tally(next, a) > 0 implies has_account_row(
                        rows@,
                        a,
                    ) by {
                        if account_tally(prefix, a) > 0 {
                            let m = choose|m: int| 0 <= m < before.len() && (#[trigger] before[m]).address == a;
                            assert(rows@[m].address == a);
                        } else {
                            assert(rows@[j as int].address == a);
                        }
                    }
                }
            },
            None => {
                proof {
                    if account_tally(prefix, address) > 0 {
                        assert(has_account_row(before, address));
                    }
                }
                rows.push(AccountTally { address, reads: 1, writes: 0 });
                proof {
                    assert forall|a: Address| #[trigger] account_tally(next, a) > 0 implies has_account_row(
                        rows@,
                        a,
                    ) by {
                        if account_tally(prefix, a) > 0 {
                            let m = choose|m: int| 0 <= m < before.len() && (#[trigger] before[m]).address == a;
                            assert(rows@[m] == before[m]);
                        } else {
                            assert(rows@[before.len() as int].address == a);
                        }
                    }
                }
            },
        }
        i = i + 1;
    }
    proof {
        assert(reads@.take(n as int) =~= reads@);
    }
    let m = writes.len();
    let mut i: usize = 0;
    while i < m
        invariant
            i <= m,
            m == writes@.len(),
            writes@ == wk,
            reads@ == block.reads@,
            distinct_account_rows(rows@),
            forall|j: int|
                0 <= j < rows@.len() ==> (#[trigger] rows@[j]).reads == account_tally(reads@, rows@[j].address)
                    && rows@[j].writes == account_tally(writes@.take(i as int), rows@[j].address)
                    && rows@[j].reads + rows@[j].writes > 0,
            forall|a: Address|
                #[trigger] account_tally(reads@, a) + account_tally(writes@.take(i as int), a) > 0
                    ==> has_account_row(rows@, a),
        decreases m - i,
    {
        let ghost prefix = writes@.take(i as int);
        let ghost next = writes@.take(i + 1);
        proof {
            assert(next.drop_last() =~= prefix);
            lemma_account_tally_bound(prefix, writes@[i as int].account());
        }
        let address = key_address(&writes[i]);
        let ghost before = rows@;
        match find_account_row(&rows, &address) {
            Some(j) => {
                let row = rows[j];
                rows.set(j, AccountTally { address, reads: row.reads, writes: row.writes + 1 });
                proof {
                    assert forall|a: Address|
                        #[trigger] account_tally(reads@, a) + account_tally(next, a) > 0 implies has_account_row(
                        rows@,
                        a,
                    ) by {
                        if account_tally(reads@, a) + account_tally(prefix, a) > 0 {
                            let m = choose|m: int| 0 <= m < before.len() && (#[trigger] before[m]).address == a;
                            assert(rows@[m].address == a);
                        } else {
                            assert(rows@[j as int].address == a);
                        }
                    }
                }
            },
            None => {
                proof {
                    if account_tally(reads@, address) + account_tally(prefix, address) > 0 {
                        assert(has_account_row(before, address));
                    }
                }
                rows.push(AccountTally { address, reads: 0, writes: 1 });
                proof {
                    assert forall|a: Address|
                        #[trigger] account_tally(reads@, a) + account_tally(next, a) > 0 implies has_account_row(
                        rows@,
                        a,
                    ) by {
                        if account_tally(reads@, a) + account_tally(prefix, a) > 0 {
                            let m = choose|m: int| 0 <= m < before.len() && (#[trigger] before[m]).address == a;
                            assert(rows@[m] == before[m]);
                        } else {
                            assert(rows@[before.len() as int].address == a);
                        }
                    }
                }
            },
        }
        i = i + 1;
    }
    proof {
        assert(writes@.take(m as int) =~= writes@);
    }
    rows
}

/// The accounts that `keys` belong to.
pub fn accounts_of(keys: &Vec<StateKey>) -> (r: AccountSet)
    ensures
        forall|a: Address| #[trigger] r@.contains(a) <==> account_tally(keys@, a) > 0,
{
    let mut set = AccountSet::new();
    let n = keys.len();
    let mut i: usize = 0;
    while i < n
        invariant
            i <= n,
            n == keys@.len(),
            forall|a: Address| #[trigger] set@.contains(a) <==> account_tally(keys@.take(i as int), a) > 0,
        decreases n - i,
    {
        let ghost prefix = keys@.take(i as int);
        let ghost next = keys@.take(i + 1);
        proof {
            assert(next.drop_last() =~= prefix);
        }
        let address = key_address(&keys[i]);
        let ghost before = set@;
        set.insert(address);
        proof {
            assert forall|a: Address| #[trigger] set@.contains(a) <==> account_tally(next, a) > 0 by {
                if set@ != before {
                    assert(set@ == before.push(address));
                    if set@.contains(a) && a != address {
                        let m = choose|m: int| 0 <= m < set@.len() && set@[m] == a;
                        assert(before[m] == a);
                    }
                    if before.contains(a) {
                        let m = choose|m: int| 0 <= m < before.len() && before[m] == a;
                        assert(set@[m] == a);
                    }
                    if a == address {
                        assert(set@[before.len() as int] == a);
                    }
                }
            }
        }
        i = i + 1;
    }
    proof {
        assert(keys@.take(n as int) =~= keys@);
    }
    set
}

/// The accounts the block read any key of.
pub fn read_addresses(block: &BlockAccess) -> (r: AccountSet)
    ensures
        forall|a: Address| #[trigger] r@.contains(a) <==> account_tally(block.reads@, a) > 0,
{
    accounts_of(block.reads.keys())
}

/// The accounts the block wrote any key of.
pub fn write_addresses(block: &BlockAccess) -> (r: AccountSet)
    ensures
        forall|a: Address| #[trigger] r@.contains(a) <==> account_tally(write_keys(block.writes@), a)
            > 0,
{
    let keys = keys_of_writes(&block.writes);
    accounts_of(&keys)
}

/// The writes made by transactions, each with its transaction's index, in
/// block order.
pub fn tx_writes_with_position(block: &BlockAccess) -> (r: Vec<(WriteEntry, usize)>)
    ensures
        r@ == tx_writes(block.writes@),
{
    let writes = &block.writes;
    let mut out: Vec<(WriteEntry, usize)> = Vec::new();
    let n = writes.len();
    let mut i: usize = 0;
    while i < n
        invariant
            i <= n,
            n == writes@.len(),
            out@ == tx_writes(writes@.take(i as int)),
        decreases n - i,
    {
        let w = writes[i];
        proof {
            assert(writes@.take(i + 1).drop_last() =~= writes@.take(i as int));
        }
        match w.position {
            TxPosition::Transaction(t) => {
                out.push((w, t));
            },
            _ => {},
        }
        i = i + 1;
    }
    proof {
        assert(writes@.take(n as int) =~= writes@);
    }
    out
}

/// How many of `tx` write storage slot `slot` of `address`.
pub fn count_slot_writes(tx: &Vec<(WriteEntry, usize)>, address: &Address, slot: &B256) -> (r: usize)
    ensures
        r == slot_tally(tx@.map_values(|p: (WriteEntry, usize)| p.0.key), *address, *slot),
{
    let ghost keys = tx@.map_values(|p: (WriteEntry, usize)| p.0.key);
    let mut count: usize = 0;
    let n = tx.len();
    let mut i: usize = 0;
    while i < n
        invariant
            i <= n,
            n == tx@.len(),
            keys == tx@.map_values(|p: (WriteEntry, usize)| p.0.key),
            count == slot_tally(keys.take(i as int), *address, *slot),
        decreases n - i,
    {
        proof {
            assert(keys.take(i + 1).drop_last() =~= keys.take(i as int));
            lemma_slot_tally_bound(keys.take(i as int), *address, *slot);
        }
        let (w, _) = tx[i];
        match w.key {
            StateKey::StorageSlot { address: a, slot: s } => {
                if a == *address && s == *slot {
                    count = count + 1;
                }
            },
            _ => {},
        }
        i = i + 1;
    }
    proof {
        assert(keys.take(n as int) =~= keys);
    }
    count
}

/// A key written by a transaction is among the block's written keys.
pub proof fn lemma_tx_write_keys_are_written(writes: Seq<WriteEntry>, key: StateKey)
    requires
        tx_write_keys(writes).contains(key),
    ensures
        write_keys(writes).contains(key),
    decreases writes.len(),
{
    if writes.len() > 0 {
        let rest = writes.drop_last();
        let last = writes.last();
        assert(write_keys(writes) =~= write_keys(rest).push(last.key));
        match last.position {
            TxPosition::Transaction(i) => {
                assert(tx_write_keys(writes) =~= tx_write_keys(rest).push(last.key));
            },
            _ => {
                assert(tx_write_keys(writes) =~= tx_write_keys(rest));
            },
        }
        let k = choose|k: int| 0 <= k < tx_write_keys(writes).len() && tx_write_keys(writes)[k] == key;
        if k < tx_write_keys(rest).len() {
            assert(tx_write_keys(rest)[k] == key);
            lemma_tx_write_keys_are_written(rest, key);
            let m = choose|m: int| 0 <= m < write_keys(rest).len() && write_keys(rest)[m] == key;
            assert(write_keys(writes)[m] == key);
        } else {
            assert(key == last.key);
            assert(write_keys(writes)[writes.len() - 1] == key);
        }
    }
}

/// Writes made before or after all transactions leave no transaction write.
pub proof fn lemma_no_tx_writes(writes: Seq<WriteEntry>)
    requires
        forall|i: int| 0 <= i < writes.len() ==> !((#[trigger] writes[i]).position is Transaction),
    ensures
        tx_write_keys(writes).len() == 0,
    decreases writes.len(),
{
    if writes.len() > 0 {
        let rest = writes.drop_last();
        assert(!(writes[writes.len() - 1].position is Transaction));
        lemma_no_tx_writes(rest);
    }
}

} // verus!
