//! Counting the set bits of a word, and how the count splits over
//! seven-bit fields.
use vstd::prelude::*;

verus! {

/// Number of ones in the binary representation of `x`.
pub open spec fn pc(x: u64) -> nat
    decreases x,
{
    if x == 0 {
        0
    } else {
        (x % 2) as nat + pc(x / 2)
    }
}

/// The number of ones in the binary representation of `x`, from `u64::count_ones`.
#[verifier::external_body]
pub fn count_ones(x: u64) -> (n: u32)
    ensures
        n == pc(x),
{
    x.count_ones()
}

/// Seven-bit field `c` of `x`: bits `7c..7c+7`.
pub open spec fn field(x: u64, c: int) -> u64 {
    (x >> ((7 * c) as u64)) & 0x7f
}

/// Disjoint bits count separately.
pub proof fn lemma_pc_or(a: u64, b: u64)
    requires
        a & b == 0,
    ensures
        pc(a | b) == pc(a) + pc(b),
    decreases a as int + b as int,
{
    assert((0u64 | b == b) && (a | 0u64 == a) && (a & b == 0 ==> (a | b) % 2 == a % 2 + b % 2)
        && ((a | b) / 2 == (a / 2) | (b / 2)) && (a & b == 0 ==> (a / 2) & (b / 2) == 0) && (a != 0
        && b != 0 ==> (a | b) != 0)) by (bit_vector);
    if a != 0 && b != 0 {
        lemma_pc_or(a / 2, b / 2);
    }
}

/// Shifting left by one keeps the count when no bit falls off.
pub proof fn lemma_pc_shl1(y: u64)
    requires
        y < 0x8000_0000_0000_0000,
    ensures
        pc(y << 1u64) == pc(y),
{
    assert(y < 0x8000_0000_0000_0000 ==> (y << 1u64) == 2 * y) by (bit_vector);
    if y != 0 {
        assert((2 * y) as u64 / 2 == y);
        assert((2 * y) as u64 % 2 == 0);
    }
}

/// Shifting left by seven keeps the count when no bit falls off.
pub proof fn lemma_pc_shl7(y: u64)
    requires
        y < 0x200_0000_0000_0000,
    ensures
        pc(y << 7u64) == pc(y),
{
    assert(y < 0x200_0000_0000_0000 ==> (y << 7u64) == ((((((((y << 1u64) << 1u64) << 1u64)
        << 1u64) << 1u64) << 1u64) << 1u64))) by (bit_vector);
    assert(y < 0x200_0000_0000_0000 ==> (y << 1u64) < 0x400_0000_0000_0000 && ((y << 1u64) << 1u64)
        < 0x800_0000_0000_0000 && (((y << 1u64) << 1u64) << 1u64) < 0x1000_0000_0000_0000 && ((((y
        << 1u64) << 1u64) << 1u64) << 1u64) < 0x2000_0000_0000_0000 && (((((y << 1u64) << 1u64)
        << 1u64) << 1u64) << 1u64) < 0x4000_0000_0000_0000 && ((((((y << 1u64) << 1u64) << 1u64)
        << 1u64) << 1u64) << 1u64) < 0x8000_0000_0000_0000) by (bit_vector);
    lemma_pc_shl1(y);
    lemma_pc_shl1(y << 1u64);
    lemma_pc_shl1((y << 1u64) << 1u64);
    lemma_pc_shl1(((y << 1u64) << 1u64) << 1u64);
    lemma_pc_shl1((((y << 1u64) << 1u64) << 1u64) << 1u64);
    lemma_pc_shl1(((((y << 1u64) << 1u64) << 1u64) << 1u64) << 1u64);
    lemma_pc_shl1((((((y << 1u64) << 1u64) << 1u64) << 1u64) << 1u64) << 1u64);
}

/// The count splits into the low seven bits and the rest.
pub proof fn lemma_pc_low7(x: u64)
    ensures
        pc(x) == pc(x & 0x7f) + pc(x >> 7u64),
{
    assert(x == (x & 0x7f) | ((x >> 7u64) << 7u64) && (x & 0x7f) & ((x >> 7u64) << 7u64) == 0 && (x
        >> 7u64) < 0x200_0000_0000_0000) by (bit_vector);
    lemma_pc_or(x & 0x7f, (x >> 7u64) << 7u64);
    lemma_pc_shl7(x >> 7u64);
}

/// The count of a 49-bit word is the sum of the counts of its seven fields.
pub proof fn lemma_pc_fields(x: u64)
    requires
        x < 0x2_0000_0000_0000,
    ensures
        pc(x) == pc(field(x, 0)) + pc(field(x, 1)) + pc(field(x, 2)) + pc(field(x, 3)) + pc(
            field(x, 4),
        ) + pc(field(x, 5)) + pc(field(x, 6)),
{
    let x1 = x >> 7u64;
    let x2 = x1 >> 7u64;
    let x3 = x2 >> 7u64;
    let x4 = x3 >> 7u64;
    let x5 = x4 >> 7u64;
    let x6 = x5 >> 7u64;
    let x7 = x6 >> 7u64;
    lemma_pc_low7(x);
    lemma_pc_low7(x1);
    lemma_pc_low7(x2);
    lemma_pc_low7(x3);
    lemma_pc_low7(x4);
    lemma_pc_low7(x5);
    lemma_pc_low7(x6);
    assert((x < 0x2_0000_0000_0000 ==> (((((((x >> 7u64) >> 7u64) >> 7u64) >> 7u64) >> 7u64)
        >> 7u64) >> 7u64) == 0) && x >> 0u64 == x && (x >> 14u64) == ((x >> 7u64) >> 7u64) && (x
        >> 21u64) == (((x >> 7u64) >> 7u64) >> 7u64) && (x >> 28u64) == ((((x >> 7u64) >> 7u64)
        >> 7u64) >> 7u64) && (x >> 35u64) == (((((x >> 7u64) >> 7u64) >> 7u64) >> 7u64) >> 7u64)
        && (x >> 42u64) == ((((((x >> 7u64) >> 7u64) >> 7u64) >> 7u64) >> 7u64) >> 7u64))
        by (bit_vector);
    assert(field(x, 0) == x & 0x7f);
    assert(field(x, 1) == x1 & 0x7f);
    assert(field(x, 2) == x2 & 0x7f);
    assert(field(x, 3) == x3 & 0x7f);
    assert(field(x, 4) == x4 & 0x7f);
    assert(field(x, 5) == x5 & 0x7f);
    assert(field(x, 6) == x6 & 0x7f);
}

} // verus!
