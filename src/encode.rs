use vstd::arithmetic::power::lemma_pow0;
use vstd::arithmetic::power2::{lemma_pow2_unfold, pow2};
use vstd::bits::lemma_u32_shr_is_div;
use vstd::prelude::*;

use crate::cell::{digit, pow4, CellIndex, LEVELS};
use crate::grid::{grid_symbol, symbol_at};

verus! {

/// The character that groups a code's symbols for display.
pub const SEPARATOR: char = '-';

/// Relies on `String::push`: the character is appended at the end.
pub assume_specification[ String::push ](s: &mut String, ch: char)
    ensures
        final(s)@ == old(s)@.push(ch),
;

/// The ten symbols of a cell's code: at each level the row is the digit of
/// the latitude index and the column the digit of the longitude index.
pub open spec fn code_symbols(cell: CellIndex) -> Seq<char> {
    Seq::new(
        LEVELS as nat,
        |level: int| symbol_at(digit(cell.lat as int, level), digit(cell.lon as int, level)),
    )
}

/// `symbols` laid out for display: a separator follows the third and the
/// sixth symbol.
pub open spec fn grouped(symbols: Seq<char>) -> Seq<char>
    decreases symbols.len(),
{
    if symbols.len() == 0 {
        Seq::empty()
    } else {
        let written = grouped(symbols.drop_last()).push(symbols.last());
        if symbols.len() == 3 || symbols.len() == 6 {
            written.push(SEPARATOR)
        } else {
            written
        }
    }
}

/// The display form of a cell's code.
pub open spec fn code_of(cell: CellIndex) -> Seq<char> {
    grouped(code_symbols(cell))
}

proof fn lemma_grouped_len(symbols: Seq<char>)
    ensures
        grouped(symbols).len() == symbols.len() + (if symbols.len() >= 3 {
            1int
        } else {
            0
        }) + (if symbols.len() >= 6 {
            1int
        } else {
            0
        }),
    decreases symbols.len(),
{
    if symbols.len() > 0 {
        lemma_grouped_len(symbols.drop_last());
    }
}

proof fn lemma_pow2_even(j: nat)
    ensures
        pow2(2 * j) == pow4(j),
    decreases j,
{
    if j == 0 {
        lemma_pow0(2);
    } else {
        lemma_pow2_even((j - 1) as nat);
        lemma_pow2_unfold(2 * j);
        lemma_pow2_unfold((2 * j - 1) as nat);
    }
}

/// The two bits of `x` at `2 * j` are its base-4 digit of weight `4^j`.
proof fn lemma_shift_digit(x: u32, j: u32)
    requires
        j < 16,
    ensures
        ((x >> (2 * j) as u32) & 3) as int == (x as int / pow4(j as nat) as int) % 4,
{
    let s = (2 * j) as u32;
    lemma_u32_shr_is_div(x, s);
    lemma_pow2_even(j as nat);
    let y = x >> s;
    assert(y & 3 == y % 4) by (bit_vector);
}

/// The display code of `cell`: ten symbols in three groups of 3, 3 and 4,
/// split by separators.
pub fn encode_cell(cell: CellIndex) -> (code: String)
    requires
        cell.is_valid(),
    ensures
        code@ == code_of(cell),
        code@.len() == 12,
{
    let mut code = String::new();
    let mut level: u32 = 0;
    while level < 10
        invariant
            level <= 10,
            code@ == grouped(code_symbols(cell).take(level as int)),
        decreases 10 - level,
    {
        let shift: u32 = 18 - 2 * level;
        proof {
            lemma_shift_digit(cell.lat, (9 - level) as u32);
            lemma_shift_digit(cell.lon, (9 - level) as u32);
        }
        let row = (cell.lat >> shift) & 3;
        let col = (cell.lon >> shift) & 3;
        code.push(grid_symbol(row, col));
        if level == 2 || level == 5 {
            code.push(SEPARATOR);
        }
        level = level + 1;
        assert(code_symbols(cell).take(level as int).drop_last() =~= code_symbols(cell).take(
            level - 1,
        ));
    }
    assert(code_symbols(cell).take(10) =~= code_symbols(cell));
    proof {
        lemma_grouped_len(code_symbols(cell));
    }
    code
}

} // verus!
