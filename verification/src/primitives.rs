//! Account addresses and 32-byte words (storage slots), held as the
//! big-endian numbers their bytes spell, split into machine words.
//!
//! Ordering two values by their words (high word first) is the same as
//! ordering their bytes lexicographically, which is how addresses and slots
//! are ordered on chain.
use vstd::prelude::*;

verus! {

/// The number that `bytes` spells when read big-endian.
pub open spec fn big_endian_value(bytes: Seq<u8>) -> nat
    decreases bytes.len(),
{
    if bytes.len() == 0 {
        0
    } else {
        big_endian_value(bytes.drop_last()) * 256 + bytes.last() as nat
    }
}

/// `256` to the power `n`.
pub open spec fn byte_power(n: nat) -> nat
    decreases n,
{
    if n == 0 {
        1
    } else {
        256 * byte_power((n - 1) as nat)
    }
}

proof fn lemma_big_endian_bound(bytes: Seq<u8>)
    ensures
        big_endian_value(bytes) < byte_power(bytes.len()),
    decreases bytes.len(),
{
    if bytes.len() > 0 {
        let rest = bytes.drop_last();
        lemma_big_endian_bound(rest);
        let v = big_endian_value(rest);
        let p = byte_power(rest.len());
        let b = bytes.last();
        assert(v * 256 + b < 256 * p) by (nonlinear_arith)
            requires
                v < p,
                b < 256,
        ;
    }
}

proof fn lemma_byte_powers()
    ensures
        byte_power(4) == 0x1_0000_0000,
        byte_power(16) == 0x1_0000_0000_0000_0000_0000_0000_0000_0000,
{
    reveal_with_fuel(byte_power, 17);
}

/// Reads `bytes[start..end]` as a big-endian number of at most 16 bytes.
fn read_big_endian(bytes: &[u8], start: usize, end: usize) -> (r: u128)
    requires
        start <= end <= bytes@.len(),
        end - start <= 16,
    ensures
        r == big_endian_value(bytes@.subrange(start as int, end as int)),
{
    let mut acc: u128 = 0;
    let mut i: usize = start;
    proof {
        lemma_byte_powers();
        assert(bytes@.subrange(start as int, start as int) =~= Seq::<u8>::empty());
    }
    while i < end
        invariant
            start <= i <= end <= bytes@.len(),
            end - start <= 16,
            acc == big_endian_value(bytes@.subrange(start as int, i as int)),
            byte_power(16) == 0x1_0000_0000_0000_0000_0000_0000_0000_0000,
        decreases end - i,
    {
        let ghost prefix = bytes@.subrange(start as int, i as int);
        let ghost next = bytes@.subrange(start as int, i + 1);
        proof {
            assert(next.drop_last() =~= prefix);
            lemma_big_endian_bound(next);
            lemma_byte_power_monotone(next.len(), 16);
        }
        acc = acc * 256 + bytes[i] as u128;
        i = i + 1;
    }
    acc
}

proof fn lemma_byte_power_monotone(m: nat, n: nat)
    requires
        m <= n,
    ensures
        byte_power(m) <= byte_power(n),
    decreases n,
{
    if m < n {
        lemma_byte_power_monotone(m, (n - 1) as nat);
    }
}

/// A 20-byte account address. `hi` is the number its first 4 bytes spell
/// big-endian, `lo` the number its last 16 bytes spell.
#[derive(Clone, Copy, Debug, PartialEq, Eq, Structural, Hash)]
pub struct Address {
    pub hi: u32,
    pub lo: u128,
}

/// A 32-byte word, such as a storage slot. `hi` is the number its first 16
/// bytes spell big-endian, `lo` the number its last 16 bytes spell.
#[derive(Clone, Copy, Debug, PartialEq, Eq, Structural, Hash)]
pub struct B256 {
    pub hi: u128,
    pub lo: u128,
}

impl Address {
    /// The address with the given bytes.
    pub open spec fn spec_from_bytes(bytes: Seq<u8>) -> Address {
        Address {
            hi: big_endian_value(bytes.subrange(0, 4)) as u32,
            lo: big_endian_value(bytes.subrange(4, 20)) as u128,
        }
    }

    /// `self` comes no later than `other` in byte order.
    pub open spec fn ordered_le(self, other: Address) -> bool {
        self.hi < other.hi || (self.hi == other.hi && self.lo <= other.lo)
    }

    /// `self` comes strictly before `other` in byte order.
    pub open spec fn ordered_lt(self, other: Address) -> bool {
        self.hi < other.hi || (self.hi == other.hi && self.lo < other.lo)
    }

    /// Builds the address whose bytes are `bytes`.
    pub fn from_bytes(bytes: [u8; 20]) -> (r: Address)
        ensures
            r == Address::spec_from_bytes(bytes@),
            r.hi == big_endian_value(bytes@.subrange(0, 4)),
            r.lo == big_endian_value(bytes@.subrange(4, 20)),
    {
        let hi = read_big_endian(&bytes, 0, 4);
        proof {
            lemma_byte_powers();
            lemma_big_endian_bound(bytes@.subrange(0, 4));
        }
        let lo = read_big_endian(&bytes, 4, 20);
        Address { hi: hi as u32, lo }
    }

    /// Whether `self` comes strictly before `other` in byte order.
    pub fn is_before(&self, other: &Address) -> (r: bool)
        ensures
            r == self.ordered_lt(*other),
    {
        self.hi < other.hi || (self.hi == other.hi && self.lo < other.lo)
    }
}

impl B256 {
    /// The word with the given bytes.
    pub open spec fn spec_from_bytes(bytes: Seq<u8>) -> B256 {
        B256 {
            hi: big_endian_value(bytes.subrange(0, 16)) as u128,
            lo: big_endian_value(bytes.subrange(16, 32)) as u128,
        }
    }

    /// `self` comes no later than `other` in byte order.
    pub open spec fn ordered_le(self, other: B256) -> bool {
        self.hi < other.hi || (self.hi == other.hi && self.lo <= other.lo)
    }

    /// `self` comes strictly before `other` in byte order.
    pub open spec fn ordered_lt(self, other: B256) -> bool {
        self.hi < other.hi || (self.hi == other.hi && self.lo < other.lo)
    }

    /// Builds the word whose bytes are `bytes`.
    pub fn from_bytes(bytes: [u8; 32]) -> (r: B256)
        ensures
            r == B256::spec_from_bytes(bytes@),
            r.hi == big_endian_value(bytes@.subrange(0, 16)),
            r.lo == big_endian_value(bytes@.subrange(16, 32)),
    {
        let hi = read_big_endian(&bytes, 0, 16);
        let lo = read_big_endian(&bytes, 16, 32);
        B256 { hi, lo }
    }

    /// Whether `self` comes strictly before `other` in byte order.
    pub fn is_before(&self, other: &B256) -> (r: bool)
        ensures
            r == self.ordered_lt(*other),
    {
        self.hi < other.hi || (self.hi == other.hi && self.lo < other.lo)
    }
}

/// `a` comes strictly before `b` in lexicographic byte order: at the first
/// position where they differ, `a` holds the smaller byte.
pub open spec fn bytes_before(a: Seq<u8>, b: Seq<u8>) -> bool {
    exists|i: int|
        0 <= i < a.len() && i < b.len() && #[trigger] a[i] < #[trigger] b[i] && (forall|j: int|
            0 <= j < i ==> a[j] == b[j])
}

proof fn lemma_shift_order(x: nat, y: nat, la: u8, lb: u8)
    requires
        x < y,
    ensures
        x * 256 + la < y * 256 + lb,
{
    assert(x * 256 + la < y * 256 + lb) by (nonlinear_arith)
        requires
            x + 1 <= y,
            la < 256,
    ;
}

/// Among byte strings of one length, the big-endian value orders them as
/// lexicographic byte order does, and tells them apart.
pub proof fn lemma_big_endian_order(a: Seq<u8>, b: Seq<u8>)
    requires
        a.len() == b.len(),
    ensures
        big_endian_value(a) < big_endian_value(b) <==> bytes_before(a, b),
        big_endian_value(a) == big_endian_value(b) <==> a == b,
    decreases a.len(),
{
    if a.len() == 0 {
        assert(a =~= b);
    } else {
        let n = a.len() - 1;
        let ra = a.drop_last();
        let rb = b.drop_last();
        lemma_big_endian_order(ra, rb);
        let x = big_endian_value(ra);
        let y = big_endian_value(rb);
        let la = a.last();
        let lb = b.last();
        // `bytes_before(a, b)` splits on whether the first difference is the
        // last byte.
        assert(bytes_before(a, b) <==> (bytes_before(ra, rb) || (ra == rb && la < lb))) by {
            if bytes_before(a, b) {
                let i = choose|i: int|
                    0 <= i < a.len() && i < b.len() && #[trigger] a[i] < #[trigger] b[i] && (forall|
                        j: int,
                    | 0 <= j < i ==> a[j] == b[j]);
                if i < n {
                    assert(ra[i] < rb[i]);
                    assert(forall|j: int| 0 <= j < i ==> ra[j] == rb[j]);
                } else {
                    assert(ra =~= rb);
                }
            }
            if bytes_before(ra, rb) {
                let i = choose|i: int|
                    0 <= i < ra.len() && i < rb.len() && #[trigger] ra[i] < #[trigger] rb[i] && (
                    forall|j: int| 0 <= j < i ==> ra[j] == rb[j]);
                assert(a[i] < b[i]);
                assert(forall|j: int| 0 <= j < i ==> a[j] == b[j]) by {
                    assert forall|j: int| 0 <= j < i implies a[j] == b[j] by {
                        assert(ra[j] == rb[j]);
                    }
                }
            }
            if ra == rb && la < lb {
                assert(a[n] < b[n]);
                assert(forall|j: int| 0 <= j < n ==> a[j] == b[j]) by {
                    assert forall|j: int| 0 <= j < n implies a[j] == b[j] by {
                        assert(ra[j] == rb[j]);
                    }
                }
            }
        }
        if x < y {
            lemma_shift_order(x, y, la, lb);
            assert(a != b) by {
                if a == b {
                    assert(ra =~= rb);
                }
            }
        } else if y < x {
            lemma_shift_order(y, x, lb, la);
            assert(!(ra == rb));
            assert(a != b) by {
                if a == b {
                    assert(ra =~= rb);
                }
            }
        } else {
            assert(ra == rb);
            if la == lb {
                assert forall|j: int| 0 <= j < a.len() implies a[j] == b[j] by {
                    if j < n {
                        assert(ra[j] == rb[j]);
                    }
                }
                assert(a =~= b);
            } else {
                assert(a != b) by {
                    if a == b {
                        assert(a[n] == b[n]);
                    }
                }
            }
        }
    }
}

/// Comparing two byte strings of one length is comparing their first `k`
/// bytes and, where those agree, the rest.
pub proof fn lemma_bytes_before_split(a: Seq<u8>, b: Seq<u8>, k: int)
    requires
        a.len() == b.len(),
        0 <= k <= a.len(),
    ensures
        bytes_before(a, b) <==> (bytes_before(a.subrange(0, k), b.subrange(0, k)) || (a.subrange(
            0,
            k,
        ) == b.subrange(0, k) && bytes_before(
            a.subrange(k, a.len() as int),
            b.subrange(k, b.len() as int),
        ))),
{
    let pa = a.subrange(0, k);
    let pb = b.subrange(0, k);
    let sa = a.subrange(k, a.len() as int);
    let sb = b.subrange(k, b.len() as int);
    if bytes_before(a, b) {
        let i = choose|i: int|
            0 <= i < a.len() && i < b.len() && #[trigger] a[i] < #[trigger] b[i] && (forall|j: int|
                0 <= j < i ==> a[j] == b[j]);
        if i < k {
            assert(pa[i] < pb[i]);
            assert(forall|j: int| 0 <= j < i ==> pa[j] == pb[j]);
        } else {
            assert(pa =~= pb);
            assert(sa[i - k] < sb[i - k]);
            assert(forall|j: int| 0 <= j < i - k ==> sa[j] == sb[j]) by {
                assert forall|j: int| 0 <= j < i - k implies sa[j] == sb[j] by {
                    assert(a[j + k] == b[j + k]);
                }
            }
        }
    }
    if bytes_before(pa, pb) {
        let i = choose|i: int|
            0 <= i < pa.len() && i < pb.len() && #[trigger] pa[i] < #[trigger] pb[i] && (forall|
                j: int,
            | 0 <= j < i ==> pa[j] == pb[j]);
        assert(a[i] < b[i]);
        assert(forall|j: int| 0 <= j < i ==> a[j] == b[j]) by {
            assert forall|j: int| 0 <= j < i implies a[j] == b[j] by {
                assert(pa[j] == pb[j]);
            }
        }
    }
    if pa == pb && bytes_before(sa, sb) {
        let i = choose|i: int|
            0 <= i < sa.len() && i < sb.len() && #[trigger] sa[i] < #[trigger] sb[i] && (forall|
                j: int,
            | 0 <= j < i ==> sa[j] == sb[j]);
        assert(a[i + k] < b[i + k]);
        assert(forall|j: int| 0 <= j < i + k ==> a[j] == b[j]) by {
            assert forall|j: int| 0 <= j < i + k implies a[j] == b[j] by {
                if j < k {
                    assert(pa[j] == pb[j]);
                } else {
                    assert(sa[j - k] == sb[j - k]);
                }
            }
        }
    }
}

/// Splitting two byte strings at `k` and rejoining them keeps them equal
/// or apart.
proof fn lemma_split_equal(a: Seq<u8>, b: Seq<u8>, k: int)
    requires
        a.len() == b.len(),
        0 <= k <= a.len(),
    ensures
        a == b <==> (a.subrange(0, k) == b.subrange(0, k) && a.subrange(k, a.len() as int)
            == b.subrange(k, b.len() as int)),
{
    assert(a =~= a.subrange(0, k) + a.subrange(k, a.len() as int));
    assert(b =~= b.subrange(0, k) + b.subrange(k, b.len() as int));
}

/// Addresses built from bytes are ordered as their bytes are, and equal
/// exactly when their bytes are.
pub proof fn lemma_address_order_is_byte_order(a: Seq<u8>, b: Seq<u8>)
    requires
        a.len() == 20,
        b.len() == 20,
    ensures
        Address::spec_from_bytes(a).ordered_lt(Address::spec_from_bytes(b)) <==> bytes_before(a, b),
        Address::spec_from_bytes(a) == Address::spec_from_bytes(b) <==> a == b,
{
    lemma_byte_powers();
    lemma_big_endian_bound(a.subrange(0, 4));
    lemma_big_endian_bound(b.subrange(0, 4));
    lemma_big_endian_bound(a.subrange(4, 20));
    lemma_big_endian_bound(b.subrange(4, 20));
    lemma_big_endian_order(a.subrange(0, 4), b.subrange(0, 4));
    lemma_big_endian_order(a.subrange(4, 20), b.subrange(4, 20));
    lemma_bytes_before_split(a, b, 4);
    lemma_split_equal(a, b, 4);
}

/// Words built from bytes are ordered as their bytes are, and equal exactly
/// when their bytes are.
pub proof fn lemma_b256_order_is_byte_order(a: Seq<u8>, b: Seq<u8>)
    requires
        a.len() == 32,
        b.len() == 32,
    ensures
        B256::spec_from_bytes(a).ordered_lt(B256::spec_from_bytes(b)) <==> bytes_before(a, b),
        B256::spec_from_bytes(a) == B256::spec_from_bytes(b) <==> a == b,
{
    lemma_byte_powers();
    lemma_big_endian_bound(a.subrange(0, 16));
    lemma_big_endian_bound(b.subrange(0, 16));
    lemma_big_endian_bound(a.subrange(16, 32));
    lemma_big_endian_bound(b.subrange(16, 32));
    lemma_big_endian_order(a.subrange(0, 16), b.subrange(0, 16));
    lemma_big_endian_order(a.subrange(16, 32), b.subrange(16, 32));
    lemma_bytes_before_split(a, b, 16);
    lemma_split_equal(a, b, 16);
}

} // verus!
