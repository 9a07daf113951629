//! A block's access list: what the block read, what it wrote and at which
//! position, and which accounts it touched.
use vstd::prelude::*;
use crate::primitives::{Address, B256};

verus! {

/// One piece of account state.
#[derive(Clone, Copy, Debug, PartialEq, Eq, Structural, Hash)]
pub enum StateKey {
    StorageSlot { address: Address, slot: B256 },
    Balance(Address),
    Nonce(Address),
    Code(Address),
}

/// Where in the block a write happened.
#[derive(Clone, Copy, Debug, PartialEq, Eq, Structural, Hash)]
pub enum TxPosition {
    PreTransaction,
    Transaction(usize),
    PostTransaction,
}

/// The value a write stored.
#[derive(Clone, Copy, Debug, PartialEq, Eq, Structural, Hash)]
pub enum WriteValue {
    Storage(B256),
}

/// One write of the block.
#[derive(Clone, Copy, Debug, PartialEq, Eq, Structural, Hash)]
pub struct WriteEntry {
    pub position: TxPosition,
    pub key: StateKey,
    pub value: WriteValue,
}

/// The header facts of a block.
#[derive(Clone, Debug)]
pub struct BlockContext {
    pub number: u64,
    pub hash: B256,
    pub parent_hash: B256,
    pub coinbase: Address,
    pub chain_id: u64,
    pub timestamp: u64,
    pub base_fee_per_gas: Option<u64>,
    pub gas_limit: u64,
    pub gas_used: u64,
    pub tx_hashes: Vec<B256>,
    pub block_access_list_hash: Option<B256>,
}

impl StateKey {
    /// The account this key belongs to.
    pub open spec fn account(self) -> Address {
        match self {
            StateKey::StorageSlot { address, .. } => address,
            StateKey::Balance(address) => address,
            StateKey::Nonce(address) => address,
            StateKey::Code(address) => address,
        }
    }
}

/// The set of state keys a block read. Reads are recorded for the block as a
/// whole, not per transaction.
#[derive(Debug)]
pub struct ReadSet {
    keys: Vec<StateKey>,
}

impl ReadSet {
    #[verifier::type_invariant]
    spec fn no_repeats(self) -> bool {
        self.keys@.no_duplicates()
    }

    /// The keys, each once, in the order they were first inserted.
    pub closed spec fn view(&self) -> Seq<StateKey> {
        self.keys@
    }

    /// The empty set.
    pub fn new() -> (r: ReadSet)
        ensures
            r@ == Seq::<StateKey>::empty(),
    {
        ReadSet { keys: Vec::new() }
    }

    /// Adds `key`; returns whether it was not there before.
    pub fn insert(&mut self, key: StateKey) -> (r: bool)
        ensures
            r == !old(self)@.contains(key),
            r ==> final(self)@ == old(self)@.push(key),
            !r ==> final(self)@ == old(self)@,
    {
        proof {
            use_type_invariant(&*self);
        }
        if self.contains(&key) {
            false
        } else {
            let mut keys = Vec::new();
            std::mem::swap(&mut keys, &mut self.keys);
            keys.push(key);
            proof {
                assert forall|i: int, j: int|
                    0 <= i < keys@.len() && 0 <= j < keys@.len() && i != j implies keys@[i]
                    != keys@[j] by {
                    if i == keys@.len() - 1 {
                        assert(old(self)@.contains(keys@[j]));
                    } else if j == keys@.len() - 1 {
                        assert(old(self)@.contains(keys@[i]));
                    }
                }
            }
            self.keys = keys;
            true
        }
    }

    /// Whether `key` is in the set.
    pub fn contains(&self, key: &StateKey) -> (r: bool)
        ensures
            r == self@.contains(*key),
    {
        let mut i: usize = 0;
        while i < self.keys.len()
            invariant
                i <= self.keys@.len(),
                forall|j: int| 0 <= j < i ==> self.keys@[j] != *key,
            decreases self.keys@.len() - i,
        {
            if self.keys[i] == *key {
                return true;
            }
            i = i + 1;
        }
        false
    }

    /// The number of keys.
    pub fn len(&self) -> (r: usize)
        ensures
            r == self@.len(),
    {
        self.keys.len()
    }

    /// Whether the set is empty.
    pub fn is_empty(&self) -> (r: bool)
        ensures
            r == (self@.len() == 0),
    {
        self.keys.len() == 0
    }

    /// Whether the reads are attributed to single transactions; a block
    /// access list records them for the whole block only.
    pub fn is_exact(&self) -> (r: bool)
        ensures
            !r,
    {
        false
    }

    /// A read set holds at most as many keys as a vector can.
    pub proof fn lemma_len_fits(&self)
        ensures
            self@.len() <= usize::MAX,
    {
        assert(self.keys.len() == self.keys@.len());
    }

    /// The keys, each once.
    pub fn keys(&self) -> (r: &Vec<StateKey>)
        ensures
            r@ == self@,
            r@.no_duplicates(),
    {
        proof {
            use_type_invariant(self);
        }
        &self.keys
    }
}

/// A set of accounts, such as those a block touched.
#[derive(Debug)]
pub struct AccountSet {
    accounts: Vec<Address>,
}

impl AccountSet {
    #[verifier::type_invariant]
    spec fn no_repeats(self) -> bool {
        self.accounts@.no_duplicates()
    }

    /// The accounts, each once, in the order they were first inserted.
    pub closed spec fn view(&self) -> Seq<Address> {
        self.accounts@
    }

    /// The empty set.
    pub fn new() -> (r: AccountSet)
        ensures
            r@ == Seq::<Address>::empty(),
    {
        AccountSet { accounts: Vec::new() }
    }

    /// Adds `account`; returns whether it was not there before.
    pub fn insert(&mut self, account: Address) -> (r: bool)
        ensures
            r == !old(self)@.contains(account),
            r ==> final(self)@ == old(self)@.push(account),
            !r ==> final(self)@ == old(self)@,
    {
        proof {
            use_type_invariant(&*self);
        }
        if self.contains(&account) {
            false
        } else {
            let mut accounts = Vec::new();
            std::mem::swap(&mut accounts, &mut self.accounts);
            accounts.push(account);
            proof {
                assert forall|i: int, j: int|
                    0 <= i < accounts@.len() && 0 <= j < accounts@.len() && i != j implies accounts@[i]
                    != accounts@[j] by {
                    if i == accounts@.len() - 1 {
                        assert(old(self)@.contains(accounts@[j]));
                    } else if j == accounts@.len() - 1 {
                        assert(old(self)@.contains(accounts@[i]));
                    }
                }
            }
            self.accounts = accounts;
            true
        }
    }

    /// Whether `account` is in the set.
    pub fn contains(&self, account: &Address) -> (r: bool)
        ensures
            r == self@.contains(*account),
    {
        let mut i: usize = 0;
        while i < self.accounts.len()
            invariant
                i <= self.accounts@.len(),
                forall|j: int| 0 <= j < i ==> self.accounts@[j] != *account,
            decreases self.accounts@.len() - i,
        {
            if self.accounts[i] == *account {
                return true;
            }
            i = i + 1;
        }
        false
    }

    /// The number of accounts.
    pub fn len(&self) -> (r: usize)
        ensures
            r == self@.len(),
    {
        self.accounts.len()
    }

    /// Whether the set is empty.
    pub fn is_empty(&self) -> (r: bool)
        ensures
            r == (self@.len() == 0),
    {
        self.accounts.len() == 0
    }

    /// The accounts, each once.
    pub fn accounts(&self) -> (r: &Vec<Address>)
        ensures
            r@ == self@,
            r@.no_duplicates(),
    {
        proof {
            use_type_invariant(self);
        }
        &self.accounts
    }
}

impl Clone for ReadSet {
    /// A second set with the same keys in the same order.
    fn clone(&self) -> (r: ReadSet)
        ensures
            r@ == self@,
    {
        proof {
            use_type_invariant(self);
        }
        let mut keys: Vec<StateKey> = Vec::new();
        let n = self.keys.len();
        let mut i: usize = 0;
        while i < n
            invariant
                i <= n,
                n == self.keys@.len(),
                keys@ == self.keys@.take(i as int),
            decreases n - i,
        {
            keys.push(self.keys[i]);
            proof {
                assert(self.keys@.take(i + 1) =~= self.keys@.take(i as int).push(self.keys@[i as int]));
            }
            i = i + 1;
        }
        proof {
            assert(self.keys@.take(n as int) =~= self.keys@);
        }
        ReadSet { keys }
    }
}

impl Clone for AccountSet {
    /// A second set with the same accounts in the same order.
    fn clone(&self) -> (r: AccountSet)
        ensures
            r@ == self@,
    {
        proof {
            use_type_invariant(self);
        }
        let mut accounts: Vec<Address> = Vec::new();
        let n = self.accounts.len();
        let mut i: usize = 0;
        while i < n
            invariant
                i <= n,
                n == self.accounts@.len(),
                accounts@ == self.accounts@.take(i as int),
            decreases n - i,
        {
            accounts.push(self.accounts[i]);
            proof {
                assert(self.accounts@.take(i + 1) =~= self.accounts@.take(i as int).push(
                    self.accounts@[i as int],
                ));
            }
            i = i + 1;
        }
        proof {
            assert(self.accounts@.take(n as int) =~= self.accounts@);
        }
        AccountSet { accounts }
    }
}

/// Everything a block accessed: its writes in order, the keys it read, and
/// the accounts it touched.
#[derive(Clone, Debug)]
pub struct BlockAccess {
    pub context: BlockContext,
    pub writes: Vec<WriteEntry>,
    pub reads: ReadSet,
    pub touched: AccountSet,
}

impl BlockAccess {
    /// Bundles a block's context with what it accessed.
    pub fn new(context: BlockContext, writes: Vec<WriteEntry>, reads: ReadSet, touched: AccountSet) -> (r:
        BlockAccess)
        ensures
            r.context == context,
            r.writes == writes,
            r.reads == reads,
            r.touched == touched,
    {
        BlockAccess { context, writes, reads, touched }
    }

    /// The keys the block read.
    pub fn reads(&self) -> (r: &ReadSet)
        ensures
            r == &self.reads,
    {
        &self.reads
    }

    /// The reads attributed to single transactions, where the access list
    /// has them; a block access list has them for the block only.
    pub fn exact_reads(&self) -> (r: Option<&ReadSet>)
        ensures
            r.is_none(),
    {
        None
    }
}

} // verus!
