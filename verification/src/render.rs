//! Boards, rows and moves as text.

use crate::game_logic::{grid_cells, Grid, Move};
use crate::row::Row;
use vstd::prelude::*;
use vstd::string::StringExecFns;

verus! {

/// The character of a decimal digit.
pub open spec fn digit_char(d: int) -> char {
    if d == 0 {
        '0'
    } else if d == 1 {
        '1'
    } else if d == 2 {
        '2'
    } else if d == 3 {
        '3'
    } else if d == 4 {
        '4'
    } else if d == 5 {
        '5'
    } else if d == 6 {
        '6'
    } else if d == 7 {
        '7'
    } else if d == 8 {
        '8'
    } else {
        '9'
    }
}

/// A number in decimal digits, without leading zeros.
pub open spec fn decimal(n: nat) -> Seq<char>
    decreases n,
{
    if n < 10 {
        seq![digit_char(n as int)]
    } else {
        decimal(n / 10).push(digit_char((n % 10) as int))
    }
}

/// A text pushed to the right of a field of `width` characters, with spaces
/// before it where it is shorter.
pub open spec fn right_aligned(text: Seq<char>, width: nat) -> Seq<char> {
    if text.len() >= width {
        text
    } else {
        Seq::new((width - text.len()) as nat, |i: int| ' ') + text
    }
}

/// The cells from `k` on of a board as text: each number right-aligned in
/// six characters, and a line feed after each fourth.
pub open spec fn render_from(cells: Seq<u32>, k: int) -> Seq<char>
    decreases 16 - k,
{
    if k < 0 || k >= 16 {
        Seq::empty()
    } else {
        right_aligned(decimal(cells[k] as nat), 6) + (if k % 4 == 3 {
            seq!['\n']
        } else {
            Seq::empty()
        }) + render_from(cells, k + 1)
    }
}

/// A tile as four binary digits.
pub open spec fn tile_bits(tile: u8) -> Seq<char> {
    seq![
        digit_char((tile as int / 8) % 2),
        digit_char((tile as int / 4) % 2),
        digit_char((tile as int / 2) % 2),
        digit_char(tile as int % 2),
    ]
}

/// Four tiles in binary digits, with spaces between them and in square
/// brackets.
pub open spec fn row_bits_text(tiles: Seq<u8>) -> Seq<char> {
    seq!['['] + tile_bits(tiles[0]) + seq![' '] + tile_bits(tiles[1]) + seq![' '] + tile_bits(
        tiles[2],
    ) + seq![' '] + tile_bits(tiles[3]) + seq![']']
}

/// The text of one decimal digit.
fn digit_str(d: u32) -> (text: &'static str)
    requires
        d < 10,
    ensures
        text@ == seq![digit_char(d as int)],
{
    proof {
        reveal_strlit("0");
        reveal_strlit("1");
        reveal_strlit("2");
        reveal_strlit("3");
        reveal_strlit("4");
        reveal_strlit("5");
        reveal_strlit("6");
        reveal_strlit("7");
        reveal_strlit("8");
        reveal_strlit("9");
    }
    let text = if d == 0 {
        "0"
    } else if d == 1 {
        "1"
    } else if d == 2 {
        "2"
    } else if d == 3 {
        "3"
    } else if d == 4 {
        "4"
    } else if d == 5 {
        "5"
    } else if d == 6 {
        "6"
    } else if d == 7 {
        "7"
    } else if d == 8 {
        "8"
    } else {
        "9"
    };
    assert(text@ =~= seq![digit_char(d as int)]);
    text
}

/// Appends a number in decimal digits to a text.
fn push_decimal(text: &mut String, n: u32)
    ensures
        final(text)@ == old(text)@ + decimal(n as nat),
    decreases n,
{
    if n >= 10 {
        push_decimal(text, n / 10);
    }
    text.append(digit_str(n % 10));
    assert(text@ =~= old(text)@ + decimal(n as nat));
}

/// The number of decimal digits of a number.
fn decimal_len(n: u32) -> (len: usize)
    ensures
        len == decimal(n as nat).len(),
        1 <= len <= 10,
    decreases n,
{
    if n >= 10 {
        let len = decimal_len(n / 10);
        assert(n / 10 < 1_000_000_000 ==> decimal((n / 10) as nat).len() <= 9) by {
            lemma_decimal_len((n / 10) as nat);
        }
        len + 1
    } else {
        1
    }
}

/// A number below a billion has at most nine digits.
proof fn lemma_decimal_len(n: nat)
    ensures
        n < 10 ==> decimal(n).len() == 1,
        n < 100 ==> decimal(n).len() <= 2,
        n < 1_000 ==> decimal(n).len() <= 3,
        n < 10_000 ==> decimal(n).len() <= 4,
        n < 100_000 ==> decimal(n).len() <= 5,
        n < 1_000_000 ==> decimal(n).len() <= 6,
        n < 10_000_000 ==> decimal(n).len() <= 7,
        n < 100_000_000 ==> decimal(n).len() <= 8,
        n < 1_000_000_000 ==> decimal(n).len() <= 9,
    decreases n,
{
    if n >= 10 {
        lemma_decimal_len(n / 10);
    }
}

/// Appends a number to a text, right-aligned in a field of `width`
/// characters.
pub fn push_right_aligned(text: &mut String, n: u32, width: usize)
    ensures
        final(text)@ == old(text)@ + right_aligned(decimal(n as nat), width as nat),
{
    let len = decimal_len(n);
    let mut pad: usize = 0;
    if len < width {
        let missing = width - len;
        while pad < missing
            invariant
                len < width,
                missing == width - len,
                pad <= missing,
                text@ == old(text)@ + Seq::new(pad as nat, |i: int| ' '),
            decreases missing - pad,
        {
            proof {
                reveal_strlit(" ");
            }
            text.append(" ");
            pad += 1;
            assert(text@ =~= old(text)@ + Seq::new(pad as nat, |i: int| ' '));
        }
    }
    assert(text@ =~= old(text)@ + Seq::new(pad as nat, |i: int| ' '));
    push_decimal(text, n);
    assert(text@ =~= old(text)@ + right_aligned(decimal(n as nat), width as nat));
}

/// Appends a tile in four binary digits to a text.
fn push_tile_bits(text: &mut String, tile: u8)
    ensures
        final(text)@ == old(text)@ + tile_bits(tile),
{
    text.append(digit_str(((tile / 8) % 2) as u32));
    text.append(digit_str(((tile / 4) % 2) as u32));
    text.append(digit_str(((tile / 2) % 2) as u32));
    text.append(digit_str((tile % 2) as u32));
    assert(text@ =~= old(text)@ + tile_bits(tile));
}

impl Move {
    /// The name of the move.
    pub open spec fn spec_name(self) -> Seq<char> {
        match self {
            Move::Down => "Down"@,
            Move::Left => "Left"@,
            Move::Right => "Right"@,
            Move::Up => "Up"@,
        }
    }

    /// The name of the move: `Left`, `Right`, `Up` or `Down`.
    pub fn to_string(&self) -> (name: String)
        ensures
            name@ == self.spec_name(),
    {
        match *self {
            Move::Down => String::from_str("Down"),
            Move::Left => String::from_str("Left"),
            Move::Right => String::from_str("Right"),
            Move::Up => String::from_str("Up"),
        }
    }
}

impl Row {
    /// The tiles of the row in binary digits, four for each tile, with
    /// spaces between the tiles and in square brackets.
    pub fn to_debug_string(&self) -> (text: String)
        ensures
            text@ == row_bits_text(self@),
    {
        let unpacked = self.unpack();
        let mut text = String::new();
        proof {
            reveal_strlit("[");
            reveal_strlit(" ");
            reveal_strlit("]");
        }
        text.append("[");
        push_tile_bits(&mut text, unpacked[0]);
        text.append(" ");
        push_tile_bits(&mut text, unpacked[1]);
        text.append(" ");
        push_tile_bits(&mut text, unpacked[2]);
        text.append(" ");
        push_tile_bits(&mut text, unpacked[3]);
        text.append("]");
        assert(text@ =~= row_bits_text(self@));
        text
    }
}

impl Grid {
    /// The board as a person reads it: four lines of four numbers, each
    /// number right-aligned in six characters, each line ended by a line
    /// feed.
    pub open spec fn spec_render(self) -> Seq<char> {
        render_from(self.spec_unpack_human(), 0)
    }

    /// The four rows of the board in binary digits, each followed by a
    /// space.
    pub open spec fn spec_debug_text(self) -> Seq<char> {
        row_bits_text(self.spec_row(0)@) + seq![' '] + row_bits_text(self.spec_row(1)@) + seq![' ']
            + row_bits_text(self.spec_row(2)@) + seq![' '] + row_bits_text(self.spec_row(3)@)
            + seq![' ']
    }

    /// The board as a person reads it: four lines of four numbers, each
    /// number right-aligned in six characters, each line ended by a line
    /// feed.
    pub fn to_string(&self) -> (text: String)
        ensures
            text@ == self.spec_render(),
    {
        let human = self.unpack_human();
        let ghost cells = self.spec_unpack_human();
        let mut text = String::new();
        let mut x: usize = 0;
        assert(text@ + render_from(cells, 0) =~= self.spec_render());
        while x < 4
            invariant
                x <= 4,
                cells == self.spec_unpack_human(),
                grid_cells(human) == cells,
                text@ + render_from(cells, 4 * x) == self.spec_render(),
            decreases 4 - x,
        {
            let mut y: usize = 0;
            while y < 4
                invariant
                    x < 4,
                    y <= 4,
                    cells == self.spec_unpack_human(),
                    grid_cells(human) == cells,
                    y < 4 ==> text@ + render_from(cells, 4 * x + y) == self.spec_render(),
                    y == 4 ==> text@ + seq!['\n'] + render_from(cells, 4 * x + 4)
                        == self.spec_render(),
                decreases 4 - y,
            {
                let ghost before = text@;
                let ghost k = 4 * x + y;
                assert(cells[k] == human[x as int][y as int]);
                push_right_aligned(&mut text, human[x][y], 6);
                y += 1;
                proof {
                    let cell = right_aligned(decimal(cells[k] as nat), 6);
                    assert(text@ == before + cell);
                    if y < 4 {
                        assert(before + render_from(cells, k) =~= text@ + render_from(
                            cells,
                            k + 1,
                        ));
                    } else {
                        assert(before + render_from(cells, k) =~= text@ + seq!['\n']
                            + render_from(cells, k + 1));
                    }
                }
            }
            proof {
                reveal_strlit("\n");
            }
            text.append("\n");
            x += 1;
        }
        assert(text@ + render_from(cells, 16) =~= text@);
        text
    }

    /// The four rows of the board in binary digits, as `Row` writes them,
    /// each followed by a space.
    pub fn to_debug_string(&self) -> (text: String)
        ensures
            text@ == self.spec_debug_text(),
    {
        let rows = self.rows();
        let mut text = String::new();
        proof {
            reveal_strlit(" ");
        }
        let row0 = rows[0].to_debug_string();
        text.append(row0.as_str());
        text.append(" ");
        let row1 = rows[1].to_debug_string();
        text.append(row1.as_str());
        text.append(" ");
        let row2 = rows[2].to_debug_string();
        text.append(row2.as_str());
        text.append(" ");
        let row3 = rows[3].to_debug_string();
        text.append(row3.as_str());
        text.append(" ");
        assert(text@ =~= self.spec_debug_text());
        text
    }
}

} // verus!
