//! Traits that the stable collections ask of their elements: a fixed encoded size,
//! and, for keys, a total order, an equality and a deterministic hash.
use vstd::prelude::*;

verus! {

/// The result of comparing two keys.
#[derive(PartialEq, Eq, Structural, Clone, Copy, Debug)]
pub enum KeyOrder {
    Less,
    Equal,
    Greater,
}

/// Types that are stored in stable memory in a fixed number of bytes.
pub trait AsFixedSizeBytes: Sized {
    /// The number of bytes one value takes.
    spec fn spec_size() -> nat;

    fn fixed_size() -> (r: usize)
        ensures
            r == Self::spec_size(),
            r <= 16,
    ;
}

/// Types that can key the ordered and hashed collections.
///
/// A key is read as an integer (`key_int`), which orders keys and tells them apart;
/// its hash is the one that `zwohash` gives the key through `std::hash::Hash`.
pub trait StableKey: Sized + Copy + AsFixedSizeBytes {
    spec fn key_int(&self) -> int;

    spec fn key_hash_spec(&self) -> u64;

    proof fn lemma_key_int_injective(a: Self, b: Self)
        ensures
            a.key_int() == b.key_int() ==> a == b,
    ;

    fn compare_key(&self, other: &Self) -> (r: KeyOrder)
        ensures
            r == KeyOrder::Less <==> self.key_int() < other.key_int(),
            r == KeyOrder::Equal <==> self.key_int() == other.key_int(),
            r == KeyOrder::Greater <==> self.key_int() > other.key_int(),
    ;

    fn key_hash(&self) -> (h: u64)
        ensures
            h == self.key_hash_spec(),
    ;
}

/// Name for the hash that `zwohash::ZwoHasher` gives a `u64` written with `Hash`,
/// on a machine whose `usize` has `usize_bits` bits.
pub uninterp spec fn zwohash_u64(value: u64, usize_bits: u32) -> u64;

/// Name for the hash that `zwohash::ZwoHasher` gives a `u32` written with `Hash`.
pub uninterp spec fn zwohash_u32(value: u32, usize_bits: u32) -> u64;

/// Name for the hash that `zwohash::ZwoHasher` gives a `usize` written with `Hash`.
pub uninterp spec fn zwohash_usize(value: usize, usize_bits: u32) -> u64;

/// Name for the hash that `zwohash::ZwoHasher` gives an `i32` written with `Hash`.
pub uninterp spec fn zwohash_i32(value: i32, usize_bits: u32) -> u64;

/// Name for the hash that `zwohash::ZwoHasher` gives an `i64` written with `Hash`.
pub uninterp spec fn zwohash_i64(value: i64, usize_bits: u32) -> u64;

/// Name for the hash that `zwohash::ZwoHasher` gives a `u8` written with `Hash`.
pub uninterp spec fn zwohash_u8(value: u8, usize_bits: u32) -> u64;

/// Name for the hash that `zwohash::ZwoHasher` gives a `u16` written with `Hash`.
pub uninterp spec fn zwohash_u16(value: u16, usize_bits: u32) -> u64;

/// Name for the hash that `zwohash::ZwoHasher` gives a `u128` written with `Hash`.
pub uninterp spec fn zwohash_u128(value: u128, usize_bits: u32) -> u64;

/// Hashes a `u64` with a fresh `zwohash::ZwoHasher` (`Hash::hash`, then `Hasher::finish`).
/// Claimed: the result depends only on the value and on the width of `usize`.
#[verifier::external_body]
fn zwo_hash_u64(value: u64) -> (h: u64)
    ensures
        h == zwohash_u64(value, usize::BITS),
{
    let mut hasher = zwohash::ZwoHasher::default();
    std::hash::Hash::hash(&value, &mut hasher);
    std::hash::Hasher::finish(&hasher)
}

/// Hashes a `u32` with a fresh `zwohash::ZwoHasher` (`Hash::hash`, then `Hasher::finish`).
/// Claimed: the result depends only on the value and on the width of `usize`.
#[verifier::external_body]
fn zwo_hash_u32(value: u32) -> (h: u64)
    ensures
        h == zwohash_u32(value, usize::BITS),
{
    let mut hasher = zwohash::ZwoHasher::default();
    std::hash::Hash::hash(&value, &mut hasher);
    std::hash::Hasher::finish(&hasher)
}

/// Hashes a `usize` with a fresh `zwohash::ZwoHasher` (`Hash::hash`, then `Hasher::finish`).
/// Claimed: the result depends only on the value and on the width of `usize`.
#[verifier::external_body]
fn zwo_hash_usize(value: usize) -> (h: u64)
    ensures
        h == zwohash_usize(value, usize::BITS),
{
    let mut hasher = zwohash::ZwoHasher::default();
    std::hash::Hash::hash(&value, &mut hasher);
    std::hash::Hasher::finish(&hasher)
}

/// Hashes an `i32` with a fresh `zwohash::ZwoHasher` (`Hash::hash`, then `Hasher::finish`).
/// Claimed: the result depends only on the value and on the width of `usize`.
#[verifier::external_body]
fn zwo_hash_i32(value: i32) -> (h: u64)
    ensures
        h == zwohash_i32(value, usize::BITS),
{
    let mut hasher = zwohash::ZwoHasher::default();
    std::hash::Hash::hash(&value, &mut hasher);
    std::hash::Hasher::finish(&hasher)
}

/// Hashes an `i64` with a fresh `zwohash::ZwoHasher` (`Hash::hash`, then `Hasher::finish`).
/// Claimed: the result depends only on the value and on the width of `usize`.
#[verifier::external_body]
fn zwo_hash_i64(value: i64) -> (h: u64)
    ensures
        h == zwohash_i64(value, usize::BITS),
{
    let mut hasher = zwohash::ZwoHasher::default();
    std::hash::Hash::hash(&value, &mut hasher);
    std::hash::Hasher::finish(&hasher)
}

/// Hashes a `u8` with a fresh `zwohash::ZwoHasher` (`Hash::hash`, then `Hasher::finish`).
/// Claimed: the result depends only on the value and on the width of `usize`.
#[verifier::external_body]
fn zwo_hash_u8(value: u8) -> (h: u64)
    ensures
        h == zwohash_u8(value, usize::BITS),
{
    let mut hasher = zwohash::ZwoHasher::default();
    std::hash::Hash::hash(&value, &mut hasher);
    std::hash::Hasher::finish(&hasher)
}

/// Hashes a `u16` with a fresh `zwohash::ZwoHasher` (`Hash::hash`, then `Hasher::finish`).
/// Claimed: the result depends only on the value and on the width of `usize`.
#[verifier::external_body]
fn zwo_hash_u16(value: u16) -> (h: u64)
    ensures
        h == zwohash_u16(value, usize::BITS),
{
    let mut hasher = zwohash::ZwoHasher::default();
    std::hash::Hash::hash(&value, &mut hasher);
    std::hash::Hasher::finish(&hasher)
}

/// Hashes a `u128` with a fresh `zwohash::ZwoHasher` (`Hash::hash`, then `Hasher::finish`).
/// Claimed: the result depends only on the value and on the width of `usize`.
#[verifier::external_body]
fn zwo_hash_u128(value: u128) -> (h: u64)
    ensures
        h == zwohash_u128(value, usize::BITS),
{
    let mut hasher = zwohash::ZwoHasher::default();
    std::hash::Hash::hash(&value, &mut hasher);
    std::hash::Hasher::finish(&hasher)
}

impl AsFixedSizeBytes for () {
    open spec fn spec_size() -> nat {
        0
    }

    fn fixed_size() -> (r: usize) {
        0
    }
}

impl AsFixedSizeBytes for bool {
    open spec fn spec_size() -> nat {
        1
    }

    fn fixed_size() -> (r: usize) {
        1
    }
}

impl AsFixedSizeBytes for u8 {
    open spec fn spec_size() -> nat {
        1
    }

    fn fixed_size() -> (r: usize) {
        1
    }
}

impl AsFixedSizeBytes for u16 {
    open spec fn spec_size() -> nat {
        2
    }

    fn fixed_size() -> (r: usize) {
        2
    }
}

impl AsFixedSizeBytes for u32 {
    open spec fn spec_size() -> nat {
        4
    }

    fn fixed_size() -> (r: usize) {
        4
    }
}

impl AsFixedSizeBytes for u64 {
    open spec fn spec_size() -> nat {
        8
    }

    fn fixed_size() -> (r: usize) {
        8
    }
}

impl AsFixedSizeBytes for u128 {
    open spec fn spec_size() -> nat {
        16
    }

    fn fixed_size() -> (r: usize) {
        16
    }
}

impl AsFixedSizeBytes for usize {
    open spec fn spec_size() -> nat {
        8
    }

    fn fixed_size() -> (r: usize) {
        8
    }
}

impl AsFixedSizeBytes for i32 {
    open spec fn spec_size() -> nat {
        4
    }

    fn fixed_size() -> (r: usize) {
        4
    }
}

impl AsFixedSizeBytes for i64 {
    open spec fn spec_size() -> nat {
        8
    }

    fn fixed_size() -> (r: usize) {
        8
    }
}

impl StableKey for u64 {
    open spec fn key_int(&self) -> int {
        *self as int
    }

    open spec fn key_hash_spec(&self) -> u64 {
        zwohash_u64(*self, usize::BITS)
    }

    proof fn lemma_key_int_injective(a: Self, b: Self) {
    }

    fn compare_key(&self, other: &Self) -> (r: KeyOrder) {
        if *self < *other {
            KeyOrder::Less
        } else if *self == *other {
            KeyOrder::Equal
        } else {
            KeyOrder::Greater
        }
    }

    fn key_hash(&self) -> (h: u64) {
        zwo_hash_u64(*self)
    }
}

impl StableKey for u32 {
    open spec fn key_int(&self) -> int {
        *self as int
    }

    open spec fn key_hash_spec(&self) -> u64 {
        zwohash_u32(*self, usize::BITS)
    }

    proof fn lemma_key_int_injective(a: Self, b: Self) {
    }

    fn compare_key(&self, other: &Self) -> (r: KeyOrder) {
        if *self < *other {
            KeyOrder::Less
        } else if *self == *other {
            KeyOrder::Equal
        } else {
            KeyOrder::Greater
        }
    }

    fn key_hash(&self) -> (h: u64) {
        zwo_hash_u32(*self)
    }
}

impl StableKey for usize {
    open spec fn key_int(&self) -> int {
        *self as int
    }

    open spec fn key_hash_spec(&self) -> u64 {
        zwohash_usize(*self, usize::BITS)
    }

    proof fn lemma_key_int_injective(a: Self, b: Self) {
    }

    fn compare_key(&self, other: &Self) -> (r: KeyOrder) {
        if *self < *other {
            KeyOrder::Less
        } else if *self == *other {
            KeyOrder::Equal
        } else {
            KeyOrder::Greater
        }
    }

    fn key_hash(&self) -> (h: u64) {
        zwo_hash_usize(*self)
    }
}

impl StableKey for i32 {
    open spec fn key_int(&self) -> int {
        *self as int
    }

    open spec fn key_hash_spec(&self) -> u64 {
        zwohash_i32(*self, usize::BITS)
    }

    proof fn lemma_key_int_injective(a: Self, b: Self) {
    }

    fn compare_key(&self, other: &Self) -> (r: KeyOrder) {
        if *self < *other {
            KeyOrder::Less
        } else if *self == *other {
            KeyOrder::Equal
        } else {
            KeyOrder::Greater
        }
    }

    fn key_hash(&self) -> (h: u64) {
        zwo_hash_i32(*self)
    }
}

impl StableKey for i64 {
    open spec fn key_int(&self) -> int {
        *self as int
    }

    open spec fn key_hash_spec(&self) -> u64 {
        zwohash_i64(*self, usize::BITS)
    }

    proof fn lemma_key_int_injective(a: Self, b: Self) {
    }

    fn compare_key(&self, other: &Self) -> (r: KeyOrder) {
        if *self < *other {
            KeyOrder::Less
        } else if *self == *other {
            KeyOrder::Equal
        } else {
            KeyOrder::Greater
        }
    }

    fn key_hash(&self) -> (h: u64) {
        zwo_hash_i64(*self)
    }
}

impl StableKey for u8 {
    open spec fn key_int(&self) -> int {
        *self as int
    }

    open spec fn key_hash_spec(&self) -> u64 {
        zwohash_u8(*self, usize::BITS)
    }

    proof fn lemma_key_int_injective(a: Self, b: Self) {
    }

    fn compare_key(&self, other: &Self) -> (r: KeyOrder) {
        if *self < *other {
            KeyOrder::Less
        } else if *self == *other {
            KeyOrder::Equal
        } else {
            KeyOrder::Greater
        }
    }

    fn key_hash(&self) -> (h: u64) {
        zwo_hash_u8(*self)
    }
}

impl StableKey for u16 {
    open spec fn key_int(&self) -> int {
        *self as int
    }

    open spec fn key_hash_spec(&self) -> u64 {
        zwohash_u16(*self, usize::BITS)
    }

    proof fn lemma_key_int_injective(a: Self, b: Self) {
    }

    fn compare_key(&self, other: &Self) -> (r: KeyOrder) {
        if *self < *other {
            KeyOrder::Less
        } else if *self == *other {
            KeyOrder::Equal
        } else {
            KeyOrder::Greater
        }
    }

    fn key_hash(&self) -> (h: u64) {
        zwo_hash_u16(*self)
    }
}

impl StableKey for u128 {
    open spec fn key_int(&self) -> int {
        *self as int
    }

    open spec fn key_hash_spec(&self) -> u64 {
        zwohash_u128(*self, usize::BITS)
    }

    proof fn lemma_key_int_injective(a: Self, b: Self) {
    }

    fn compare_key(&self, other: &Self) -> (r: KeyOrder) {
        if *self < *other {
            KeyOrder::Less
        } else if *self == *other {
            KeyOrder::Equal
        } else {
            KeyOrder::Greater
        }
    }

    fn key_hash(&self) -> (h: u64) {
        zwo_hash_u128(*self)
    }
}

} // verus!
