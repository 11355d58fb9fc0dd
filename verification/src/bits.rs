//! Facts about nibbles packed into machine words.

use vstd::prelude::*;

verus! {

/// The nibble of a sixteen-bit word that starts at bit `4 * j`.
pub open spec fn nib16(x: u16, j: u16) -> u16 {
    (x >> ((4 * j) as u16)) & 0xf
}

/// Four nibbles packed into sixteen bits, the first one most significant.
pub open spec fn pack16(a: u16, b: u16, c: u16, d: u16) -> u16 {
    (a << 12) | (b << 8) | (c << 4) | d
}

/// The nibble of a 64-bit word that starts at bit `4 * j`.
pub open spec fn nib64(x: u64, j: u64) -> u64 {
    (x >> ((4 * j) as u64)) & 0xf
}

/// Every nibble of a sixteen-bit word is below sixteen, and a shift by no
/// bit leaves the word as it is.
pub proof fn lemma_nib16_bound(x: u16, j: u16)
    ensures
        nib16(x, j) <= 15,
        x >> 0 == x,
{
    assert(nib16(x, j) <= 15 && x >> 0 == x) by (bit_vector);
}

/// Every nibble of a 64-bit word is below sixteen, every nibble of zero is
/// zero, and a shift by no bit leaves the word as it is.
pub proof fn lemma_nib64_bound(x: u64, j: u64)
    ensures
        nib64(x, j) <= 15,
        nib64(0, j) == 0,
        x >> 0 == x,
{
    assert(nib64(x, j) <= 15 && nib64(0, j) == 0 && x >> 0 == x) by (bit_vector);
}

/// Every nibble of zero is zero.
pub proof fn lemma_nib16_zero()
    ensures
        forall|j: u16| j < 4 ==> #[trigger] nib16(0, j) == 0,
{
    assert(forall|j: u16| j < 4 ==> #[trigger] nib16(0, j) == 0) by (bit_vector);
}

/// Packing four nibbles and reading them back gives the same nibbles.
pub proof fn lemma_pack16_nibs(a: u16, b: u16, c: u16, d: u16)
    requires
        a <= 15,
        b <= 15,
        c <= 15,
        d <= 15,
    ensures
        nib16(pack16(a, b, c, d), 3) == a,
        nib16(pack16(a, b, c, d), 2) == b,
        nib16(pack16(a, b, c, d), 1) == c,
        nib16(pack16(a, b, c, d), 0) == d,
{
    assert(nib16(pack16(a, b, c, d), 3) == a && nib16(pack16(a, b, c, d), 2) == b && nib16(
        pack16(a, b, c, d),
        1,
    ) == c && nib16(pack16(a, b, c, d), 0) == d) by (bit_vector)
        requires
            a <= 15,
            b <= 15,
            c <= 15,
            d <= 15,
    ;
}

/// A sixteen-bit word is the packing of its four nibbles.
pub proof fn lemma_pack16_of_nibs(x: u16)
    ensures
        pack16(nib16(x, 3), nib16(x, 2), nib16(x, 1), nib16(x, 0)) == x,
{
    assert(pack16(nib16(x, 3), nib16(x, 2), nib16(x, 1), nib16(x, 0)) == x) by (bit_vector);
}

/// The sixteen bits of `x` that hold the row `r`, the top row being the most
/// significant.
pub open spec fn row_bits(x: u64, r: u64) -> u16 {
    ((x >> ((48 - 16 * r) as u64)) & 0xffff) as u16
}

/// Four sixteen-bit rows joined into one word, the first one most
/// significant.
pub open spec fn join_rows(a: u16, b: u16, c: u16, d: u16) -> u64 {
    ((a as u64) << 48) | ((b as u64) << 32) | ((c as u64) << 16) | (d as u64)
}

/// The nibble `c` of the row `r` of a word is its nibble `4 * r + c`, both
/// counted from the most significant end.
pub proof fn lemma_row_nibs(x: u64, r: u64, c: u64)
    requires
        r < 4,
        c < 4,
    ensures
        nib16(row_bits(x, r), (3 - c) as u16) as u64 == nib64(x, (15 - 4 * r - c) as u64),
{
    assert(nib16(row_bits(x, r), (3 - c) as u16) as u64 == nib64(x, (15 - 4 * r - c) as u64))
        by (bit_vector)
        requires
            r < 4,
            c < 4,
    ;
}

/// Joining four rows and cutting them out again gives the same rows.
pub proof fn lemma_join_rows(a: u16, b: u16, c: u16, d: u16)
    ensures
        row_bits(join_rows(a, b, c, d), 0) == a,
        row_bits(join_rows(a, b, c, d), 1) == b,
        row_bits(join_rows(a, b, c, d), 2) == c,
        row_bits(join_rows(a, b, c, d), 3) == d,
{
    assert(row_bits(join_rows(a, b, c, d), 0) == a && row_bits(join_rows(a, b, c, d), 1) == b
        && row_bits(join_rows(a, b, c, d), 2) == c && row_bits(join_rows(a, b, c, d), 3) == d)
        by (bit_vector);
}

/// A word is the join of its four rows.
pub proof fn lemma_join_of_rows(x: u64)
    ensures
        join_rows(row_bits(x, 0), row_bits(x, 1), row_bits(x, 2), row_bits(x, 3)) == x,
{
    assert(join_rows(row_bits(x, 0), row_bits(x, 1), row_bits(x, 2), row_bits(x, 3)) == x)
        by (bit_vector);
}

/// The word whose nibble at row `r` and column `c` is the nibble of `x` at
/// row `c` and column `r`: two rounds of swapping blocks across the diagonal.
pub open spec fn transpose_bits(x: u64) -> u64 {
    let a1 = x & 0xF0F0_0F0F_F0F0_0F0F;
    let a2 = x & 0x0000_F0F0_0000_F0F0;
    let a3 = x & 0x0F0F_0000_0F0F_0000;
    let a = a1 | (a2 << 12) | (a3 >> 12);
    let b1 = a & 0xFF00_FF00_00FF_00FF;
    let b2 = a & 0x00FF_00FF_0000_0000;
    let b3 = a & 0x0000_0000_FF00_FF00;
    b1 | (b2 >> 24) | (b3 << 24)
}

/// `transpose_bits` moves the nibble at row `c`, column `r` to row `r`,
/// column `c`.
pub proof fn lemma_transpose_nibs(x: u64, r: u64, c: u64)
    requires
        r < 4,
        c < 4,
    ensures
        nib64(transpose_bits(x), (15 - 4 * r - c) as u64) == nib64(x, (15 - 4 * c - r) as u64),
{
    assert(nib64(transpose_bits(x), (15 - 4 * r - c) as u64) == nib64(
        x,
        (15 - 4 * c - r) as u64,
    )) by (bit_vector)
        requires
            r < 4,
            c < 4,
    ;
}

/// The sixteen-bit word with the nibbles of `x` in the opposite order.
pub open spec fn reverse_bits(x: u16) -> u16 {
    (x >> 12) | ((x >> 4) & 0x00F0) | ((x << 4) & 0x0F00) | (x << 12)
}

/// `reverse_bits` moves the nibble `j` to the place `3 - j`.
pub proof fn lemma_reverse_nibs(x: u16, j: u16)
    requires
        j < 4,
    ensures
        nib16(reverse_bits(x), j) == nib16(x, (3 - j) as u16),
{
    assert(nib16(reverse_bits(x), j) == nib16(x, (3 - j) as u16)) by (bit_vector)
        requires
            j < 4,
    ;
}

/// The nibbles that a column may hold: the lowest one of each row.
pub const COLUMN_MASK: u64 = 0x000F_000F_000F_000F;

/// The column that holds, top to bottom, the nibbles that the row `x` holds
/// left to right.
pub open spec fn column_bits(x: u16) -> u64 {
    ((x as u64) | ((x as u64) << 12) | ((x as u64) << 24) | ((x as u64) << 36)) & COLUMN_MASK
}

/// Four columns side by side in one word, the first one leftmost.
pub open spec fn join_columns(a: u64, b: u64, c: u64, d: u64) -> u64 {
    (a << 12) | (b << 8) | (c << 4) | d
}

/// A column built from a row holds nothing outside the column mask, and its
/// nibble in row `r` is the nibble `r` of the row.
pub proof fn lemma_column_nibs(x: u16, r: u64)
    requires
        r < 4,
    ensures
        column_bits(x) & !COLUMN_MASK == 0,
        nib64(column_bits(x), (12 - 4 * r) as u64) == nib16(x, (3 - r) as u16) as u64,
{
    assert(column_bits(x) & !COLUMN_MASK == 0 && nib64(column_bits(x), (12 - 4 * r) as u64)
        == nib16(x, (3 - r) as u16) as u64) by (bit_vector)
        requires
            r < 4,
    ;
}

/// In the join of four columns, the nibble at row `r` and column `c` is the
/// nibble in row `r` of the column `c`.
pub proof fn lemma_join_columns(a: u64, b: u64, c: u64, d: u64, r: u64)
    requires
        a & !COLUMN_MASK == 0,
        b & !COLUMN_MASK == 0,
        c & !COLUMN_MASK == 0,
        d & !COLUMN_MASK == 0,
        r < 4,
    ensures
        nib64(join_columns(a, b, c, d), (15 - 4 * r) as u64) == nib64(a, (12 - 4 * r) as u64),
        nib64(join_columns(a, b, c, d), (14 - 4 * r) as u64) == nib64(b, (12 - 4 * r) as u64),
        nib64(join_columns(a, b, c, d), (13 - 4 * r) as u64) == nib64(c, (12 - 4 * r) as u64),
        nib64(join_columns(a, b, c, d), (12 - 4 * r) as u64) == nib64(d, (12 - 4 * r) as u64),
{
    assert(nib64(join_columns(a, b, c, d), (15 - 4 * r) as u64) == nib64(a, (12 - 4 * r) as u64)
        && nib64(join_columns(a, b, c, d), (14 - 4 * r) as u64) == nib64(b, (12 - 4 * r) as u64)
        && nib64(join_columns(a, b, c, d), (13 - 4 * r) as u64) == nib64(c, (12 - 4 * r) as u64)
        && nib64(join_columns(a, b, c, d), (12 - 4 * r) as u64) == nib64(d, (12 - 4 * r) as u64))
        by (bit_vector)
        requires
            a & !COLUMN_MASK == 0,
            b & !COLUMN_MASK == 0,
            c & !COLUMN_MASK == 0,
            d & !COLUMN_MASK == 0,
            r < 4,
    ;
}

/// The powers of two from 2 to 32768 are not zero and differ from each
/// other.
pub proof fn lemma_shift_one(j: u32, k: u32)
    requires
        j <= 15,
        k <= 15,
    ensures
        1u32 << j != 0,
        1u32 << j <= 32768,
        j != k ==> 1u32 << j != 1u32 << k,
{
    assert(1u32 << j != 0 && 1u32 << j <= 32768 && (j != k ==> 1u32 << j != 1u32 << k))
        by (bit_vector)
        requires
            j <= 15,
            k <= 15,
    ;
}

/// A word with a one in the lowest bit of each nibble of `x` that is zero,
/// and nothing else.
pub open spec fn zero_flags(x: u64) -> u64 {
    let a = x | ((x >> 2) & 0x3333333333333333);
    let b = a | (a >> 1);
    (!b) & 0x1111111111111111
}

/// The sum of the sixteen nibbles of a word.
pub open spec fn nib_sum(y: u64) -> int {
    nib64(y, 0) + nib64(y, 1) + nib64(y, 2) + nib64(y, 3) + nib64(y, 4) + nib64(y, 5) + nib64(y, 6)
        + nib64(y, 7) + nib64(y, 8) + nib64(y, 9) + nib64(y, 10) + nib64(y, 11) + nib64(y, 12)
        + nib64(y, 13) + nib64(y, 14) + nib64(y, 15)
}

/// The nibble `j` of `zero_flags(x)` is 1 where the nibble `j` of `x` is
/// zero, and 0 elsewhere.
pub proof fn lemma_zero_flags(x: u64, j: u64)
    requires
        j < 16,
    ensures
        nib64(zero_flags(x), j) == (if nib64(x, j) == 0 {
            1u64
        } else {
            0u64
        }),
{
    assert(nib64(zero_flags(x), j) == (if nib64(x, j) == 0 {
        1u64
    } else {
        0u64
    })) by (bit_vector)
        requires
            j < 16,
    ;
}

/// Adding the halves of a word of flags three times over leaves the sum of
/// its nibbles in the two lowest nibbles, and no addition overflows.
pub proof fn lemma_fold_flags(x: u64)
    ensures
        ({
            let y = zero_flags(x);
            let a = (y + (y >> 32)) as u64;
            let b = (a + (a >> 16)) as u64;
            let c = (b + (b >> 8)) as u64;
            &&& y + (y >> 32) <= u64::MAX
            &&& a + (a >> 16) <= u64::MAX
            &&& b + (b >> 8) <= u64::MAX
            &&& (c & 0xf) + ((c >> 4) & 0xf) == nib_sum(y)
            &&& (c & 0xf) + ((c >> 4) & 0xf) <= 16
        }),
{
    assert({
        let y = zero_flags(x);
        let a = (y + (y >> 32)) as u64;
        let b = (a + (a >> 16)) as u64;
        let c = (b + (b >> 8)) as u64;
        &&& y + (y >> 32) <= u64::MAX
        &&& a + (a >> 16) <= u64::MAX
        &&& b + (b >> 8) <= u64::MAX
        &&& (c & 0xf) + ((c >> 4) & 0xf) == nib_sum(y)
        &&& (c & 0xf) + ((c >> 4) & 0xf) <= 16
    }) by (bit_vector);
}

/// The flags of the word zero add up to sixteen.
pub proof fn lemma_sum_of_empty()
    ensures
        nib_sum(zero_flags(0)) == 16,
{
    assert(nib_sum(zero_flags(0)) == 16) by (bit_vector);
}

/// A nibble is zero where the word and the mask of the nibble share no bit,
/// and writing a tile over a zero nibble changes that nibble alone.
pub proof fn lemma_put_nib(x: u64, j: u64, v: u64, i: u64)
    requires
        j < 16,
        i < 16,
        v <= 15,
    ensures
        (x & (0b1111u64 << ((j * 4) as u64)) == 0) <==> nib64(x, j) == 0,
        nib64(x, j) == 0 ==> nib64(x | (v << ((j * 4) as u64)), i) == (if i == j {
            v
        } else {
            nib64(x, i)
        }),
{
    assert(((x & (0b1111u64 << ((j * 4) as u64)) == 0) <==> nib64(x, j) == 0) && (nib64(x, j) == 0
        ==> nib64(x | (v << ((j * 4) as u64)), i) == (if i == j {
        v
    } else {
        nib64(x, i)
    }))) by (bit_vector)
        requires
            j < 16,
            i < 16,
            v <= 15,
    ;
}

/// Whether the bit `v` of a sixteen-bit word is set.
pub open spec fn has_bit(b: u16, v: u16) -> bool {
    (b >> v) & 1 == 1
}

/// The number of bits that are set in a sixteen-bit word.
pub open spec fn pop16(b: u16) -> int {
    ((b >> 0) & 1) + ((b >> 1) & 1) + ((b >> 2) & 1) + ((b >> 3) & 1) + ((b >> 4) & 1) + ((b >> 5)
        & 1) + ((b >> 6) & 1) + ((b >> 7) & 1) + ((b >> 8) & 1) + ((b >> 9) & 1) + ((b >> 10) & 1)
        + ((b >> 11) & 1) + ((b >> 12) & 1) + ((b >> 13) & 1) + ((b >> 14) & 1) + ((b >> 15) & 1)
}

/// Shifting a word by one nibble more drops its lowest nibble, which is the
/// nibble `i` of the whole word, and makes what is left smaller; nothing is
/// left after sixteen nibbles.
pub proof fn lemma_shift_nibs(x: u64, i: u64)
    requires
        i < 16,
    ensures
        x >> 0 == x,
        i < 15 ==> (x >> ((4 * i) as u64)) >> 4 == x >> ((4 * (i + 1)) as u64),
        i == 15 ==> (x >> ((4 * i) as u64)) >> 4 == 0,
        (x >> ((4 * i) as u64)) != 0 ==> (x >> ((4 * i) as u64)) >> 4 < (x >> ((4 * i) as u64)),
        (x >> ((4 * i) as u64)) & 0xF == nib64(x, i),
{
    assert(x >> 0 == x && (i < 15 ==> (x >> ((4 * i) as u64)) >> 4 == x >> ((4 * (i + 1)) as u64))
        && (i == 15 ==> (x >> ((4 * i) as u64)) >> 4 == 0) && ((x >> ((4 * i) as u64)) != 0 ==> (x
        >> ((4 * i) as u64)) >> 4 < (x >> ((4 * i) as u64))) && (x >> ((4 * i) as u64)) & 0xF
        == nib64(x, i)) by (bit_vector)
        requires
            i < 16,
    ;
}

/// Where nothing is left of a word after the nibble `i`, the nibbles from
/// `i` on are zero.
pub proof fn lemma_high_nibs_zero(x: u64, i: u64, j: u64)
    requires
        i <= j < 16,
        x >> ((4 * i) as u64) == 0,
    ensures
        nib64(x, j) == 0,
{
    assert(nib64(x, j) == 0) by (bit_vector)
        requires
            i <= j < 16,
            x >> ((4 * i) as u64) == 0,
    ;
}

/// Setting the bit `t` of a word sets that bit and changes no other; the
/// word zero has no bit set.
pub proof fn lemma_set_bit(b: u16, t: u64, v: u16)
    requires
        t < 16,
        v < 16,
    ensures
        has_bit(b | (1u16 << t), v) == (has_bit(b, v) || v == t),
        !has_bit(0, v),
{
    assert(has_bit(b | (1u16 << t), v) == (has_bit(b, v) || v == t) && !has_bit(0, v))
        by (bit_vector)
        requires
            t < 16,
            v < 16,
    ;
}

/// Shifting a word right by one moves the bit `v + 1` to the place `v` and
/// leaves the highest place empty. A bit is 0 or 1.
pub proof fn lemma_drop_bit(b: u16, v: u16)
    requires
        v < 16,
    ensures
        v < 15 ==> has_bit(b >> 1, v) == has_bit(b, (v + 1) as u16),
        v == 15 ==> !has_bit(b >> 1, v),
        (b >> v) & 1 <= 1,
{
    assert((v < 15 ==> has_bit(b >> 1, v) == has_bit(b, (v + 1) as u16)) && (v == 15 ==> !has_bit(
        b >> 1,
        v,
    )) && (b >> v) & 1 <= 1) by (bit_vector)
        requires
            v < 16,
    ;
}

/// Clearing the lowest set bit of a word leaves one set bit less, and a
/// smaller word. A word has at most sixteen bits set, and zero has none.
pub proof fn lemma_clear_lowest_bit(b: u16)
    ensures
        pop16(0) == 0,
        b != 0 ==> pop16(b & ((b - 1) as u16)) + 1 == pop16(b),
        b != 0 ==> b & ((b - 1) as u16) < b,
        0 <= pop16(b) <= 16,
{
    assert(pop16(0) == 0 && (b != 0 ==> pop16(b & ((b - 1) as u16)) + 1 == pop16(b)) && (b != 0
        ==> b & ((b - 1) as u16) < b) && 0 <= pop16(b) <= 16) by (bit_vector);
}

} // verus!
