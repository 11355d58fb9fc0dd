//! Rows and columns of four tiles.

use crate::bits::{
    column_bits, lemma_column_nibs, lemma_nib16_bound, lemma_pack16_nibs, lemma_pack16_of_nibs,
    lemma_reverse_nibs, nib16, nib64, pack16, reverse_bits, COLUMN_MASK,
};
use vstd::prelude::*;

verus! {

/// Four tiles packed into sixteen bits; the leftmost tile is the most
/// significant nibble.
#[derive(Clone, Copy, Debug, PartialEq, Eq, Structural, Hash)]
pub struct Row(pub u16);

impl View for Row {
    type V = Seq<u8>;

    /// The four tiles, left to right.
    open spec fn view(&self) -> Seq<u8> {
        Seq::new(4, |i: int| nib16(self.0, (3 - i) as u16) as u8)
    }
}

impl Default for Row {
    /// The row of four empty tiles.
    fn default() -> (row: Row)
        ensures
            row == Row(0),
    {
        Row(0)
    }
}

/// Whether every tile of `tiles` fits in a nibble.
pub open spec fn tiles_fit(tiles: Seq<u8>) -> bool {
    forall|i: int| 0 <= i < tiles.len() ==> #[trigger] tiles[i] <= 15
}

impl Row {
    /// The row that holds the four tiles of `tiles`, which must fit.
    pub open spec fn spec_pack(tiles: Seq<u8>) -> Row {
        Row(pack16(tiles[0] as u16, tiles[1] as u16, tiles[2] as u16, tiles[3] as u16))
    }

    /// A row shows exactly the tiles it was packed from.
    pub proof fn lemma_view_of_pack(tiles: Seq<u8>)
        requires
            tiles.len() == 4,
            tiles_fit(tiles),
        ensures
            Row::spec_pack(tiles)@ == tiles,
    {
        lemma_pack16_nibs(tiles[0] as u16, tiles[1] as u16, tiles[2] as u16, tiles[3] as u16);
        assert(Row::spec_pack(tiles)@ =~= tiles);
    }

    /// A row is the packing of the four tiles it shows, and they all fit.
    pub proof fn lemma_pack_of_view(self)
        ensures
            Row::spec_pack(self@) == self,
            self@.len() == 4,
            tiles_fit(self@),
    {
        lemma_nib16_bound(self.0, 0);
        lemma_nib16_bound(self.0, 1);
        lemma_nib16_bound(self.0, 2);
        lemma_nib16_bound(self.0, 3);
        lemma_pack16_of_nibs(self.0);
    }

    /// Two rows that show the same tiles are the same row.
    pub proof fn lemma_view_injective(self, other: Row)
        requires
            self@ == other@,
        ensures
            self == other,
    {
        self.lemma_pack_of_view();
        other.lemma_pack_of_view();
    }

    /// Packs four tiles into a row, or rejects them when one does not fit
    /// in a nibble.
    pub fn pack(row: [u8; 4]) -> (packed: Option<Row>)
        ensures
            packed is Some <==> tiles_fit(row@),
            packed matches Some(r) ==> r@ == row@ && r == Row::spec_pack(row@),
    {
        let mut i: usize = 0;
        while i < 4
            invariant
                i <= 4,
                forall|j: int| 0 <= j < i ==> #[trigger] row@[j] <= 15,
            decreases 4 - i,
        {
            if row[i] > 0b1111 {
                return None;
            }
            i += 1;
        }
        proof {
            Row::lemma_view_of_pack(row@);
        }
        Some(
            Row(
                ((row[0] as u16) << 12) | ((row[1] as u16) << 8) | ((row[2] as u16) << 4) | (
                row[3] as u16),
            ),
        )
    }

    /// The four tiles of the row, left to right.
    pub fn unpack(self) -> (tiles: [u8; 4])
        ensures
            tiles@ == self@,
            tiles_fit(tiles@),
    {
        let row: u16 = self.0;
        proof {
            lemma_nib16_bound(row, 0);
            lemma_nib16_bound(row, 1);
            lemma_nib16_bound(row, 2);
            lemma_nib16_bound(row, 3);
        }
        let tile0: u8 = ((row >> 12) & 0xf) as u8;
        let tile1: u8 = ((row >> 8) & 0xf) as u8;
        let tile2: u8 = ((row >> 4) & 0xf) as u8;
        let tile3: u8 = (row & 0xf) as u8;
        let tiles: [u8; 4] = [tile0, tile1, tile2, tile3];
        assert(tiles@ =~= self@);
        tiles
    }

    /// The row with the same tiles in the opposite order.
    pub fn reverse(self) -> (reversed: Row)
        ensures
            reversed@ == self@.reverse(),
    {
        let reversed = Row(
            (self.0 >> 12) | ((self.0 >> 4) & 0b0000_0000_1111_0000) | ((self.0 << 4)
                & 0b0000_1111_0000_0000) | (self.0 << 12),
        );
        proof {
            assert(reversed.0 == reverse_bits(self.0));
            lemma_reverse_nibs(self.0, 0);
            lemma_reverse_nibs(self.0, 1);
            lemma_reverse_nibs(self.0, 2);
            lemma_reverse_nibs(self.0, 3);
            assert(reversed@ =~= self@.reverse());
        }
        reversed
    }
}

/// Four tiles of one column, spread over a 64-bit word: the tile of each row
/// sits in the lowest nibble of that row's sixteen bits.
#[derive(Clone, Copy, Debug)]
pub struct Column(pub u64);

impl View for Column {
    type V = Seq<u8>;

    /// The four tiles, top to bottom.
    open spec fn view(&self) -> Seq<u8> {
        Seq::new(4, |i: int| nib64(self.0, (12 - 4 * i) as u64) as u8)
    }
}

impl Default for Column {
    /// The column of four empty tiles.
    fn default() -> (column: Column)
        ensures
            column == Column(0),
    {
        Column(0)
    }
}

impl Column {
    /// Whether the word holds nothing but the four tiles of a column.
    pub open spec fn wf(self) -> bool {
        self.0 & !COLUMN_MASK == 0
    }

    /// The column that shows, top to bottom, what `row` shows left to right.
    pub open spec fn spec_from_row(row: Row) -> Column {
        Column(column_bits(row.0))
    }

    /// The column made from a row holds a column and nothing else, and
    /// shows the tiles of the row.
    pub proof fn lemma_from_row(row: Row)
        ensures
            Column::spec_from_row(row).wf(),
            Column::spec_from_row(row)@ == row@,
    {
        lemma_column_nibs(row.0, 0);
        lemma_column_nibs(row.0, 1);
        lemma_column_nibs(row.0, 2);
        lemma_column_nibs(row.0, 3);
        row.lemma_pack_of_view();
        assert(Column::spec_from_row(row)@ =~= row@);
    }

    /// The column that shows, top to bottom, what `row` shows left to right.
    pub fn from_row(row: Row) -> (column: Column)
        ensures
            column == Column::spec_from_row(row),
            column.wf(),
            column@ == row@,
    {
        proof {
            Column::lemma_from_row(row);
        }
        let col: u64 = ((row.0 as u64) | ((row.0 as u64) << 12) | ((row.0 as u64) << 24) | ((
        row.0 as u64) << 36)) & COLUMN_MASK;
        Column(col)
    }
}

} // verus!
