//! Bit-level facts about the 32-bit columns that boards are made of.
use vstd::prelude::*;

verus! {

/// Bit `i` of `v`, for an index inside the word.
pub open spec fn bit32(v: u32, i: u32) -> bool {
    (v >> i) & 1 == 1
}

/// Bit `i` of `v`; every bit outside the word is clear.
pub open spec fn bit(v: u32, i: int) -> bool {
    0 <= i < 32 && bit32(v, i as u32)
}

/// The word with its bits below `y` set and all others clear.
pub open spec fn low_mask(y: u32) -> u32 {
    ((1u32 << y) - 1) as u32
}

/// `v` with bit `y` taken out and the bits above it moved down by one.
pub open spec fn without_bit(v: u32, y: u32) -> u32 {
    (v & low_mask(y)) | ((v >> 1) & !low_mask(y))
}

/// Number of set bits among the lowest `n` bits of `v`.
pub open spec fn count_below(v: u32, n: int) -> int
    decreases n,
{
    if n <= 0 {
        0
    } else {
        count_below(v, n - 1) + if bit(v, n - 1) { 1int } else { 0int }
    }
}

/// The zero word has no bit set.
pub proof fn lemma_bit_zero()
    ensures
        forall|i: int| !bit(0u32, i),
{
    assert(forall|i: u32| i < 32 ==> !bit32(0u32, i)) by (bit_vector);
}

/// A bit of the union of two words is set when it is set in one of them.
pub proof fn lemma_bit_or(a: u32, b: u32)
    ensures
        forall|i: int| bit(a | b, i) == (bit(a, i) || bit(b, i)),
{
    assert(forall|i: u32| i < 32 ==> bit32(a | b, i) == (bit32(a, i) || bit32(b, i)))
        by (bit_vector);
}

/// A bit of the intersection of two words is set when it is set in both.
pub proof fn lemma_bit_and(a: u32, b: u32)
    ensures
        forall|i: int| bit(a & b, i) == (bit(a, i) && bit(b, i)),
{
    assert(forall|i: u32| i < 32 ==> bit32(a & b, i) == (bit32(a, i) && bit32(b, i)))
        by (bit_vector);
}

/// The word `1 << y` has bit `y` set and no other.
pub proof fn lemma_bit_single(y: u32)
    requires
        y < 32,
    ensures
        forall|i: int| bit(1u32 << y, i) == (i == y),
{
    assert(forall|i: u32| i < 32 && y < 32 ==> bit32(1u32 << y, i) == (i == y)) by (bit_vector);
}

/// Taking bit `y` out of a word keeps the bits below it and moves the bits
/// above it down by one.
pub proof fn lemma_without_bit(v: u32, y: u32)
    requires
        y < 32,
    ensures
        forall|i: int| bit(without_bit(v, y), i) == (if i < y { bit(v, i) } else { bit(v, i + 1) }),
{
    assert(forall|i: u32|
        i < 32 && y < 32 ==> bit32(without_bit(v, y), i) == (if i < y {
            bit32(v, i)
        } else {
            i < 31 && bit32(v, (i + 1) as u32)
        })) by (bit_vector);
    assert forall|i: int| bit(without_bit(v, y), i) == (if i < y { bit(v, i) } else { bit(v, i + 1) }) by {
        if 0 <= i < 32 {
            let j = i as u32;
            assert(bit32(without_bit(v, y), j) == (if j < y {
                bit32(v, j)
            } else {
                j < 31 && bit32(v, (j + 1) as u32)
            }));
        }
    }
}

/// Setting a bit below row 20 keeps a column below `2^20`.
pub proof fn lemma_set_low_bit(v: u32, y: u32)
    requires
        v < 0x10_0000,
        y < 20,
    ensures
        (v | (1u32 << y)) < 0x10_0000,
{
    assert(v < 0x10_0000 && y < 20 ==> (v | (1u32 << y)) < 0x10_0000) by (bit_vector);
}

/// Taking a bit out of a column keeps it below `2^20`.
pub proof fn lemma_without_bit_low(v: u32, y: u32)
    requires
        v < 0x10_0000,
        y < 32,
    ensures
        without_bit(v, y) < 0x10_0000,
{
    assert(v < 0x10_0000 && y < 32 ==> without_bit(v, y) < 0x10_0000) by (bit_vector);
}

/// A single bit inside the word is a positive number.
pub proof fn lemma_single_bit_positive(y: u32)
    requires
        y < 32,
    ensures
        (1u32 << y) >= 1,
{
    assert(y < 32 ==> (1u32 << y) >= 1) by (bit_vector);
}

/// Below the bit that was taken out the count of set bits is unchanged;
/// above it the count lags one position and is one less.
pub proof fn lemma_count_without_bit_upto(v: u32, y: u32, n: int)
    requires
        y < 32,
        bit(v, y as int),
        0 <= n <= 32,
    ensures
        n <= y ==> count_below(without_bit(v, y), n) == count_below(v, n),
        n > y ==> count_below(without_bit(v, y), n) == count_below(v, n + 1) - 1,
    decreases n,
{
    lemma_without_bit(v, y);
    if n > 0 {
        lemma_count_without_bit_upto(v, y, n - 1);
        if n - 1 == y {
            assert(count_below(v, n) == count_below(v, n - 1) + 1);
        }
    }
}

/// Taking a set bit out of a column lowers its count of set bits by one.
pub proof fn lemma_count_without_bit(v: u32, y: u32)
    requires
        y < 32,
        bit(v, y as int),
    ensures
        count_below(without_bit(v, y), 32) == count_below(v, 32) - 1,
{
    lemma_count_without_bit_upto(v, y, 32);
    assert(count_below(v, 33) == count_below(v, 32) + if bit(v, 32) { 1int } else { 0int });
}

/// A column below `2^20` has no bit set from row 20 upwards.
pub proof fn lemma_low_column(v: u32)
    requires
        v < 0x10_0000,
    ensures
        forall|i: int| 20 <= i ==> !bit(v, i),
{
    assert(forall|i: u32| v < 0x10_0000 && 20 <= i < 32 ==> !bit32(v, i)) by (bit_vector);
}

/// Every bit of the all-ones word is set.
pub proof fn lemma_bit_ones()
    ensures
        forall|i: int| 0 <= i < 32 ==> bit(!0u32, i),
{
    assert(forall|i: u32| i < 32 ==> bit32(!0u32, i)) by (bit_vector);
}

/// Shifting a word right by `d` moves bit `i + d` to bit `i`.
pub proof fn lemma_bit_shr(v: u32, d: u32)
    requires
        d < 32,
    ensures
        forall|i: int| 0 <= i ==> bit(v >> d, i) == bit(v, i + d),
{
    assert(forall|i: u32|
        i < 32 && d < 32 ==> bit32(v >> d, i) == (i + d < 32 && bit32(v, (i + d) as u32)))
        by (bit_vector);
    assert forall|i: int| 0 <= i implies bit(v >> d, i) == bit(v, i + d) by {
        if i < 32 {
            let j = i as u32;
            assert(bit32(v >> d, j) == (j + d < 32 && bit32(v, (j + d) as u32)));
        }
    }
}

/// Shifting a word left by `d` and filling with ones moves bit `i - d` to
/// bit `i` and sets the `d` lowest bits.
pub proof fn lemma_bit_shl_fill(v: u32, d: u32)
    requires
        d < 32,
    ensures
        forall|i: int| bit(!((!v) << d), i) == (0 <= i < 32 && (i < d || bit(v, i - d))),
{
    assert(forall|i: u32|
        i < 32 && d < 32 ==> bit32(!((!v) << d), i) == (i < d || bit32(v, (i - d) as u32)))
        by (bit_vector);
    assert forall|i: int| bit(!((!v) << d), i) == (0 <= i < 32 && (i < d || bit(v, i - d))) by {
        if 0 <= i < 32 {
            let j = i as u32;
            assert(bit32(!((!v) << d), j) == (j < d || bit32(v, (j - d) as u32)));
        }
    }
}

/// Shifting a word left by `d` moves bit `i - d` to bit `i` and clears the
/// `d` lowest bits.
pub proof fn lemma_bit_shl(v: u32, d: u32)
    requires
        d < 32,
    ensures
        forall|i: int| bit(v << d, i) == (d <= i < 32 && bit(v, i - d)),
{
    assert(forall|i: u32|
        i < 32 && d < 32 ==> bit32(v << d, i) == (i >= d && bit32(v, (i - d) as u32)))
        by (bit_vector);
    assert forall|i: int| bit(v << d, i) == (d <= i < 32 && bit(v, i - d)) by {
        if 0 <= i < 32 {
            let j = i as u32;
            assert(bit32(v << d, j) == (j >= d && bit32(v, (j - d) as u32)));
        }
    }
}

/// Masking a column to twenty rows keeps the bits below row 20 and makes
/// the column a column of a well-formed board.
pub proof fn lemma_bit_low20(v: u32)
    ensures
        (v & 0xf_ffff) < 0x10_0000,
        forall|i: int| bit(v & 0xf_ffff, i) == (i < 20 && bit(v, i)),
{
    let m: u32 = v & 0xf_ffff;
    assert(m < 0x10_0000) by (bit_vector)
        requires
            m == v & 0xf_ffff,
    ;
    assert(forall|i: u32| i < 32 ==> bit32(m, i) == (i < 20 && bit32(v, i))) by (bit_vector)
        requires
            m == v & 0xf_ffff,
    ;
    assert forall|i: int| bit(m, i) == (i < 20 && bit(v, i)) by {
        if 0 <= i < 32 {
            let j = i as u32;
            assert(bit32(m, j) == (j < 20 && bit32(v, j)));
        }
    }
}

/// The three-bit field `i` of a packed key list, above its five-bit length.
pub open spec fn key_field(list: u64, i: u64) -> u64 {
    (list >> ((i * 3 + 5) as u64)) & 7
}

/// The five-bit length stored at the bottom of a packed key list.
pub open spec fn len_field(list: u64) -> u64 {
    list & 31
}

/// Writing code `c` into the empty field `n` of a list of length `n` and
/// adding one to the length neither carries nor disturbs another field.
pub proof fn lemma_push_field(list: u64, n: u64, c: u64)
    requires
        len_field(list) == n,
        n < 19,
        c < 8,
        key_field(list, n) == 0,
    ensures
        list < 0x4000_0000_0000_0000 ==> list + (c << ((n * 3 + 5) as u64)) + 1
            < 0x4000_0000_0000_0000,
        list + (c << ((n * 3 + 5) as u64)) + 1 <= u64::MAX,
        len_field((list + (c << ((n * 3 + 5) as u64)) + 1) as u64) == n + 1,
        key_field((list + (c << ((n * 3 + 5) as u64)) + 1) as u64, n) == c,
        forall|j: u64|
            j < 19 && j != n ==> #[trigger] key_field(
                (list + (c << ((n * 3 + 5) as u64)) + 1) as u64,
                j,
            ) == key_field(list, j),
{
    assert(len_field(list) == n && n < 19 && c < 8 && key_field(list, n) == 0 ==> {
        &&& list < 0x4000_0000_0000_0000 ==> list + (c << ((n * 3 + 5) as u64)) + 1
            < 0x4000_0000_0000_0000
        &&& list + (c << ((n * 3 + 5) as u64)) + 1 <= 0xffff_ffff_ffff_ffff
        &&& len_field((list + (c << ((n * 3 + 5) as u64)) + 1) as u64) == n + 1
        &&& key_field((list + (c << ((n * 3 + 5) as u64)) + 1) as u64, n) == c
    }) by (bit_vector);
    assert(forall|j: u64|
        len_field(list) == n && n < 19 && c < 8 && key_field(list, n) == 0 && j < 19 && j != n
            ==> key_field((list + (c << ((n * 3 + 5) as u64)) + 1) as u64, j) == key_field(
            list,
            j,
        )) by (bit_vector);
}

/// A stored length fits in five bits.
pub proof fn lemma_len_field_bound(list: u64)
    ensures
        len_field(list) < 32,
{
    assert(list & 31 < 32) by (bit_vector);
}

/// The empty list has length zero and every field empty.
pub proof fn lemma_empty_list()
    ensures
        len_field(0) == 0,
        forall|j: u64| j < 19 ==> #[trigger] key_field(0, j) == 0,
{
    assert(len_field(0) == 0) by (bit_vector);
    assert(forall|j: u64| j < 19 ==> key_field(0, j) == 0) by (bit_vector);
}

} // verus!
