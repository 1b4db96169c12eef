use vstd::prelude::*;

verus! {

/// A 256-bit unsigned value held as four little-endian 64-bit limbs.
///
/// Every quantity the commitment engine moves around — tree indices,
/// storage keys and values, class hashes, nonces, node digests — is one of
/// these.  The engine never does field arithmetic on them: it only compares
/// them, reads their bits to route a tree descent, and feeds their big-endian
/// byte form to the hash functions.
#[derive(Clone, Copy, Debug, PartialEq, Eq, Structural, Hash)]
pub struct Felt {
    pub l0: u64,
    pub l1: u64,
    pub l2: u64,
    pub l3: u64,
}

/// The all-zero value; also the sentinel digest of an empty subtree.
pub open spec fn felt_zero() -> Felt {
    Felt { l0: 0, l1: 0, l2: 0, l3: 0 }
}

/// Limb `i` of `f`, counting from the least significant.
pub open spec fn limb_of(f: Felt, i: int) -> u64 {
    if i == 0 {
        f.l0
    } else if i == 1 {
        f.l1
    } else if i == 2 {
        f.l2
    } else {
        f.l3
    }
}

/// Bit `k` of the 256-bit value, counting from the least significant.
pub open spec fn spec_bit(f: Felt, k: int) -> bool {
    (limb_of(f, k / 64) >> ((k % 64) as u64)) & 1 == 1
}

/// All bits at positions `h` and above are clear: the value is below `2^h`.
/// This is the tree-index invariant for a tree of height `h`.
pub open spec fn fits_below(f: Felt, h: int) -> bool {
    forall|k: int| h <= k < 256 ==> !spec_bit(f, k)
}

/// Byte `i` of the 32-byte big-endian form (byte 0 is the most significant).
pub open spec fn byte_of(f: Felt, i: int) -> u8 {
    ((limb_of(f, (31 - i) / 8) >> ((((31 - i) % 8) * 8) as u64)) & 0xff) as u8
}

/// The 32-byte big-endian form of `f`.
pub open spec fn bytes_of_felt(f: Felt) -> Seq<u8> {
    Seq::new(32, |i: int| byte_of(f, i))
}

/// Limb `j` recovered from a 32-byte big-endian sequence.
pub open spec fn limb_from_bytes(s: Seq<u8>, j: int) -> u64 {
    ((s[31 - 8 * j] as int) + (s[31 - (8 * j + 1)] as int) * 0x100 + (s[31 - (8 * j + 2)] as int)
        * 0x10000 + (s[31 - (8 * j + 3)] as int) * 0x1000000 + (s[31 - (8 * j + 4)] as int)
        * 0x100000000 + (s[31 - (8 * j + 5)] as int) * 0x10000000000 + (s[31 - (8 * j + 6)] as int)
        * 0x1000000000000 + (s[31 - (8 * j + 7)] as int) * 0x100000000000000) as u64
}

/// The value whose 32-byte big-endian form is `s`.
pub open spec fn felt_of_bytes(s: Seq<u8>) -> Felt {
    Felt {
        l0: limb_from_bytes(s, 0),
        l1: limb_from_bytes(s, 1),
        l2: limb_from_bytes(s, 2),
        l3: limb_from_bytes(s, 3),
    }
}

/// `f` with bit `b` set.
pub open spec fn with_bit_set(f: Felt, b: int) -> Felt {
    let m = (1u64 << ((b % 64) as u64));
    if b / 64 == 0 {
        Felt { l0: f.l0 | m, ..f }
    } else if b / 64 == 1 {
        Felt { l1: f.l1 | m, ..f }
    } else if b / 64 == 2 {
        Felt { l2: f.l2 | m, ..f }
    } else {
        Felt { l3: f.l3 | m, ..f }
    }
}

/// `f` with bit `b` cleared.
pub open spec fn with_bit_clear(f: Felt, b: int) -> Felt {
    let m = !(1u64 << ((b % 64) as u64));
    if b / 64 == 0 {
        Felt { l0: f.l0 & m, ..f }
    } else if b / 64 == 1 {
        Felt { l1: f.l1 & m, ..f }
    } else if b / 64 == 2 {
        Felt { l2: f.l2 & m, ..f }
    } else {
        Felt { l3: f.l3 & m, ..f }
    }
}

/// Setting bit `b` sets that bit and keeps every other.
pub proof fn lemma_with_bit_set_bits(f: Felt, b: int)
    requires
        0 <= b < 256,
    ensures
        spec_bit(with_bit_set(f, b), b),
        forall|j: int| 0 <= j < 256 && j != b ==> spec_bit(with_bit_set(f, b), j) == spec_bit(f, j),
{
    assert(forall|x: u64, i: u64, s: u64|
        i < 64 && s < 64 ==> ((x | (1u64 << i)) >> s) & 1 == (if i == s {
            1u64
        } else {
            (x >> s) & 1
        })) by (bit_vector);
    let r = with_bit_set(f, b);
    assert(spec_bit(r, b));
    assert forall|j: int| 0 <= j < 256 && j != b implies spec_bit(r, j) == spec_bit(f, j) by {
        if j / 64 == b / 64 {
            assert(j % 64 != b % 64) by {
                if j % 64 == b % 64 {
                    assert(j == 64 * (j / 64) + j % 64);
                    assert(b == 64 * (b / 64) + b % 64);
                }
            };
        }
    };
}

/// Clearing bit `b` clears that bit and keeps every other.
pub proof fn lemma_with_bit_clear_bits(f: Felt, b: int)
    requires
        0 <= b < 256,
    ensures
        !spec_bit(with_bit_clear(f, b), b),
        forall|j: int| 0 <= j < 256 && j != b ==> spec_bit(with_bit_clear(f, b), j) == spec_bit(
            f,
            j,
        ),
{
    assert(forall|x: u64, i: u64, s: u64|
        i < 64 && s < 64 ==> ((x & !(1u64 << i)) >> s) & 1 == (if i == s {
            0u64
        } else {
            (x >> s) & 1
        })) by (bit_vector);
    let r = with_bit_clear(f, b);
    assert(!spec_bit(r, b));
    assert forall|j: int| 0 <= j < 256 && j != b implies spec_bit(r, j) == spec_bit(f, j) by {
        if j / 64 == b / 64 {
            assert(j % 64 != b % 64) by {
                if j % 64 == b % 64 {
                    assert(j == 64 * (j / 64) + j % 64);
                    assert(b == 64 * (b / 64) + b % 64);
                }
            };
        }
    };
}

/// Setting the bit that was cleared restores the value, and conversely.
pub proof fn lemma_bit_set_clear_inverse(k: Felt, b: int)
    requires
        0 <= b < 256,
    ensures
        spec_bit(k, b) ==> with_bit_set(with_bit_clear(k, b), b) == k,
        !spec_bit(k, b) ==> with_bit_clear(with_bit_set(k, b), b) == k,
{
    lemma_with_bit_clear_bits(k, b);
    lemma_with_bit_set_bits(k, b);
    if spec_bit(k, b) {
        lemma_with_bit_set_bits(with_bit_clear(k, b), b);
        lemma_felt_bit_ext(with_bit_set(with_bit_clear(k, b), b), k);
    } else {
        lemma_with_bit_clear_bits(with_bit_set(k, b), b);
        lemma_felt_bit_ext(with_bit_clear(with_bit_set(k, b), b), k);
    }
}

/// Reading a value back from its big-endian bytes yields the value.
pub proof fn lemma_felt_of_bytes_of(f: Felt)
    ensures
        felt_of_bytes(bytes_of_felt(f)) == f,
{
    let s = bytes_of_felt(f);
    assert(forall|x: u64, sh: u64| sh < 64 ==> (x >> sh) & 0xff < 256) by (bit_vector);
    assert(forall|x: u64|
        ((x >> 0) & 0xff) + ((x >> 8) & 0xff) * 0x100 + ((x >> 16) & 0xff) * 0x10000 + ((x >> 24)
            & 0xff) * 0x1000000 + ((x >> 32) & 0xff) * 0x100000000 + ((x >> 40) & 0xff)
            * 0x10000000000 + ((x >> 48) & 0xff) * 0x1000000000000 + ((x >> 56) & 0xff)
            * 0x100000000000000 == x) by (bit_vector);
    assert(limb_from_bytes(s, 0) == f.l0);
    assert(limb_from_bytes(s, 1) == f.l1);
    assert(limb_from_bytes(s, 2) == f.l2);
    assert(limb_from_bytes(s, 3) == f.l3);
    assert(felt_of_bytes(s) == f);
}

/// The value whose low limb is `x` and whose other limbs are zero.
pub open spec fn felt_of_u64(x: u64) -> Felt {
    Felt { l0: x, l1: 0, l2: 0, l3: 0 }
}

impl Felt {
    /// The value of a 64-bit integer.
    pub fn from_u64(x: u64) -> (r: Felt)
        ensures
            r == felt_of_u64(x),
    {
        Felt { l0: x, l1: 0, l2: 0, l3: 0 }
    }

    /// The zero value.
    pub fn zero() -> (r: Felt)
        ensures
            r == felt_zero(),
    {
        Felt { l0: 0, l1: 0, l2: 0, l3: 0 }
    }

    /// Whether `self` is zero, i.e. the empty-subtree sentinel.
    pub fn is_zero(&self) -> (r: bool)
        ensures
            r == (*self == felt_zero()),
    {
        self.l0 == 0 && self.l1 == 0 && self.l2 == 0 && self.l3 == 0
    }

    /// Bit `k`, counting from the least significant.
    pub fn bit(&self, k: u64) -> (r: bool)
        requires
            k < 256,
        ensures
            r == spec_bit(*self, k as int),
    {
        let limb: u64 = if k < 64 {
            self.l0
        } else if k < 128 {
            self.l1
        } else if k < 192 {
            self.l2
        } else {
            self.l3
        };
        assert(limb == limb_of(*self, k as int / 64));
        ((limb >> (k % 64)) & 1) == 1
    }

    /// A copy of `self` with bit `k` cleared; every other bit is kept.
    pub fn with_bit_cleared(&self, k: u64) -> (r: Felt)
        requires
            k < 256,
        ensures
            r == with_bit_clear(*self, k as int),
            !spec_bit(r, k as int),
            forall|j: int| 0 <= j < 256 && j != k ==> spec_bit(r, j) == spec_bit(*self, j),
    {
        let sh: u64 = k % 64;
        let mask: u64 = !(1u64 << sh);
        let r = if k < 64 {
            Felt { l0: self.l0 & mask, ..*self }
        } else if k < 128 {
            Felt { l1: self.l1 & mask, ..*self }
        } else if k < 192 {
            Felt { l2: self.l2 & mask, ..*self }
        } else {
            Felt { l3: self.l3 & mask, ..*self }
        };
        proof {
            assert(r == with_bit_clear(*self, k as int));
            lemma_with_bit_clear_bits(*self, k as int);
        }
        r
    }

    /// The 32-byte big-endian form.
    pub fn to_bytes_be(&self) -> (r: Vec<u8>)
        ensures
            r@ == bytes_of_felt(*self),
            r@.len() == 32,
    {
        let mut v: Vec<u8> = Vec::new();
        let mut i: usize = 0;
        while i < 32
            invariant
                i <= 32,
                v@.len() == i,
                forall|t: int| 0 <= t < i ==> v@[t] == byte_of(*self, t),
            decreases 32 - i,
        {
            let p: usize = 31 - i;
            let limb: u64 = if p < 8 {
                self.l0
            } else if p < 16 {
                self.l1
            } else if p < 24 {
                self.l2
            } else {
                self.l3
            };
            assert(limb == limb_of(*self, (31 - i as int) / 8));
            let sh: u64 = ((p % 8) as u64) * 8;
            v.push(((limb >> sh) & 0xff) as u8);
            i += 1;
        }
        proof {
            assert(v@ =~= bytes_of_felt(*self));
        }
        v
    }

    /// The value read from a 32-byte big-endian sequence.
    pub fn from_bytes_be(b: &[u8]) -> (r: Felt)
        requires
            b@.len() == 32,
        ensures
            r == felt_of_bytes(b@),
    {
        let l0: u64 = Self::limb_from(b, 0);
        let l1: u64 = Self::limb_from(b, 1);
        let l2: u64 = Self::limb_from(b, 2);
        let l3: u64 = Self::limb_from(b, 3);
        Felt { l0, l1, l2, l3 }
    }

    /// Limb `j` read from a 32-byte big-endian sequence.
    fn limb_from(b: &[u8], j: usize) -> (r: u64)
        requires
            b@.len() == 32,
            j < 4,
        ensures
            r == limb_from_bytes(b@, j as int),
    {
        let base: usize = 31 - 8 * j;
        (b[base] as u64) + (b[base - 1] as u64) * 0x100 + (b[base - 2] as u64) * 0x10000 + (b[base
            - 3] as u64) * 0x1000000 + (b[base - 4] as u64) * 0x100000000 + (b[base - 5] as u64)
            * 0x10000000000 + (b[base - 6] as u64) * 0x1000000000000 + (b[base - 7] as u64)
            * 0x100000000000000
    }
}

/// The low 128 bits of a value, as the re-execution driver reads amounts.
pub fn felt_to_u128(felt: &Felt) -> (r: u128)
    ensures
        r == felt.l0 + felt.l1 * 0x10000000000000000,
{
    (felt.l0 as u128) + (felt.l1 as u128) * 0x10000000000000000
}

/// Two u64 values with the same bits are equal.
proof fn lemma_u64_bit_ext(x: u64, y: u64)
    requires
        forall|j: u64| j < 64 ==> (x >> j) & 1 == (y >> j) & 1,
    ensures
        x == y,
{
    assert(((x >> 0) & 1 == (y >> 0) & 1) && ((x >> 1) & 1 == (y >> 1) & 1) && ((x >> 2) & 1 == (y
        >> 2) & 1) && ((x >> 3) & 1 == (y >> 3) & 1) && ((x >> 4) & 1 == (y >> 4) & 1) && ((x >> 5)
        & 1 == (y >> 5) & 1) && ((x >> 6) & 1 == (y >> 6) & 1) && ((x >> 7) & 1 == (y >> 7) & 1) && (
    (x >> 8) & 1 == (y >> 8) & 1) && ((x >> 9) & 1 == (y >> 9) & 1) && ((x >> 10) & 1 == (y >> 10)
        & 1) && ((x >> 11) & 1 == (y >> 11) & 1) && ((x >> 12) & 1 == (y >> 12) & 1) && ((x >> 13)
        & 1 == (y >> 13) & 1) && ((x >> 14) & 1 == (y >> 14) & 1) && ((x >> 15) & 1 == (y >> 15)
        & 1) && ((x >> 16) & 1 == (y >> 16) & 1) && ((x >> 17) & 1 == (y >> 17) & 1) && ((x >> 18)
        & 1 == (y >> 18) & 1) && ((x >> 19) & 1 == (y >> 19) & 1) && ((x >> 20) & 1 == (y >> 20)
        & 1) && ((x >> 21) & 1 == (y >> 21) & 1) && ((x >> 22) & 1 == (y >> 22) & 1) && ((x >> 23)
        & 1 == (y >> 23) & 1) && ((x >> 24) & 1 == (y >> 24) & 1) && ((x >> 25) & 1 == (y >> 25)
        & 1) && ((x >> 26) & 1 == (y >> 26) & 1) && ((x >> 27) & 1 == (y >> 27) & 1) && ((x >> 28)
        & 1 == (y >> 28) & 1) && ((x >> 29) & 1 == (y >> 29) & 1) && ((x >> 30) & 1 == (y >> 30)
        & 1) && ((x >> 31) & 1 == (y >> 31) & 1) && ((x >> 32) & 1 == (y >> 32) & 1) && ((x >> 33)
        & 1 == (y >> 33) & 1) && ((x >> 34) & 1 == (y >> 34) & 1) && ((x >> 35) & 1 == (y >> 35)
        & 1) && ((x >> 36) & 1 == (y >> 36) & 1) && ((x >> 37) & 1 == (y >> 37) & 1) && ((x >> 38)
        & 1 == (y >> 38) & 1) && ((x >> 39) & 1 == (y >> 39) & 1) && ((x >> 40) & 1 == (y >> 40)
        & 1) && ((x >> 41) & 1 == (y >> 41) & 1) && ((x >> 42) & 1 == (y >> 42) & 1) && ((x >> 43)
        & 1 == (y >> 43) & 1) && ((x >> 44) & 1 == (y >> 44) & 1) && ((x >> 45) & 1 == (y >> 45)
        & 1) && ((x >> 46) & 1 == (y >> 46) & 1) && ((x >> 47) & 1 == (y >> 47) & 1) && ((x >> 48)
        & 1 == (y >> 48) & 1) && ((x >> 49) & 1 == (y >> 49) & 1) && ((x >> 50) & 1 == (y >> 50)
        & 1) && ((x >> 51) & 1 == (y >> 51) & 1) && ((x >> 52) & 1 == (y >> 52) & 1) && ((x >> 53)
        & 1 == (y >> 53) & 1) && ((x >> 54) & 1 == (y >> 54) & 1) && ((x >> 55) & 1 == (y >> 55)
        & 1) && ((x >> 56) & 1 == (y >> 56) & 1) && ((x >> 57) & 1 == (y >> 57) & 1) && ((x >> 58)
        & 1 == (y >> 58) & 1) && ((x >> 59) & 1 == (y >> 59) & 1) && ((x >> 60) & 1 == (y >> 60)
        & 1) && ((x >> 61) & 1 == (y >> 61) & 1) && ((x >> 62) & 1 == (y >> 62) & 1) && ((x >> 63)
        & 1 == (y >> 63) & 1) ==> x == y) by (bit_vector);
}

/// A bit-test always yields 0 or 1.
proof fn lemma_u64_bit_01(x: u64, j: u64)
    requires
        j < 64,
    ensures
        (x >> j) & 1 == 0 || (x >> j) & 1 == 1,
{
    assert(j < 64 ==> (x >> j) & 1 == 0 || (x >> j) & 1 == 1) by (bit_vector);
}

/// Two values with the same bits are equal.
pub proof fn lemma_felt_bit_ext(a: Felt, b: Felt)
    requires
        forall|k: int| 0 <= k < 256 ==> spec_bit(a, k) == spec_bit(b, k),
    ensures
        a == b,
{
    assert forall|i: int, j: u64| 0 <= i < 4 && j < 64 implies (limb_of(a, i) >> j) & 1 == (limb_of(
        b,
        i,
    ) >> j) & 1 by {
        let k = 64 * i + j;
        assert(k / 64 == i && k % 64 == j as int);
        assert(spec_bit(a, k) == spec_bit(b, k));
        lemma_u64_bit_01(limb_of(a, i), j);
        lemma_u64_bit_01(limb_of(b, i), j);
    };
    assert forall|i: int| 0 <= i < 4 implies limb_of(a, i) == limb_of(b, i) by {
        lemma_u64_bit_ext(limb_of(a, i), limb_of(b, i));
    };
    assert(limb_of(a, 0) == limb_of(b, 0) && limb_of(a, 1) == limb_of(b, 1) && limb_of(a, 2)
        == limb_of(b, 2) && limb_of(a, 3) == limb_of(b, 3));
}

/// Every bit of the zero value is clear, so zero fits below any height.
pub proof fn lemma_zero_bits()
    ensures
        forall|k: int| 0 <= k < 256 ==> !spec_bit(felt_zero(), k),
        forall|h: int| 0 <= h ==> fits_below(felt_zero(), h),
{
    assert(forall|s: u64| s < 64 ==> (0u64 >> s) & 1 == 0) by (bit_vector);
    assert forall|k: int| 0 <= k < 256 implies !spec_bit(felt_zero(), k) by {
        assert(limb_of(felt_zero(), k / 64) == 0);
    };
    assert forall|h: int| 0 <= h implies fits_below(felt_zero(), h) by {
        assert forall|k: int| h <= k < 256 implies !spec_bit(felt_zero(), k) by {};
    };
}

/// A value whose bits are all clear is zero.
pub proof fn lemma_fits_below_zero(f: Felt)
    requires
        fits_below(f, 0),
    ensures
        f == felt_zero(),
{
    assert forall|k: int| 0 <= k < 256 implies spec_bit(f, k) == spec_bit(felt_zero(), k) by {
        assert(!spec_bit(f, k));
        let s = (k % 64) as u64;
        assert((0u64 >> s) & 1 == 0) by (bit_vector);
    };
    lemma_felt_bit_ext(f, felt_zero());
}

} // verus!
