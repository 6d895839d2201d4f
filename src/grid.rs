use vstd::prelude::*;

use crate::error::CodeError;

verus! {

/// The 4×4 table of symbols; row 0 is the northern quarter of a cell and
/// column 0 its western quarter.
pub open spec fn symbol_table() -> Seq<Seq<char>> {
    seq![
        seq!['F', 'C', '9', '8'],
        seq!['J', '3', '2', '7'],
        seq!['K', '4', '5', '6'],
        seq!['L', 'M', 'P', 'T'],
    ]
}

/// The symbol at `(row, col)` of the table.
pub open spec fn symbol_at(row: int, col: int) -> char
    recommends
        0 <= row < 4,
        0 <= col < 4,
{
    symbol_table()[row][col]
}

/// The symbol at `(row, col)` of the table.
pub fn grid_symbol(row: u32, col: u32) -> (c: char)
    requires
        row < 4,
        col < 4,
    ensures
        c == symbol_at(row as int, col as int),
{
    match (row, col) {
        (0, 0) => 'F',
        (0, 1) => 'C',
        (0, 2) => '9',
        (0, 3) => '8',
        (1, 0) => 'J',
        (1, 1) => '3',
        (1, 2) => '2',
        (1, 3) => '7',
        (2, 0) => 'K',
        (2, 1) => '4',
        (2, 2) => '5',
        (2, 3) => '6',
        (3, 0) => 'L',
        (3, 1) => 'M',
        (3, 2) => 'P',
        _ => 'T',
    }
}

/// Where `c` stands in the table, as `(row, col)`, or `None` when `c` is no
/// symbol.
pub open spec fn position_of(c: char) -> Option<(int, int)> {
    match c {
        'F' => Some((0, 0)),
        'C' => Some((0, 1)),
        '9' => Some((0, 2)),
        '8' => Some((0, 3)),
        'J' => Some((1, 0)),
        '3' => Some((1, 1)),
        '2' => Some((1, 2)),
        '7' => Some((1, 3)),
        'K' => Some((2, 0)),
        '4' => Some((2, 1)),
        '5' => Some((2, 2)),
        '6' => Some((2, 3)),
        'L' => Some((3, 0)),
        'M' => Some((3, 1)),
        'P' => Some((3, 2)),
        'T' => Some((3, 3)),
        _ => None,
    }
}

/// Whether `c` is one of the sixteen symbols.
pub open spec fn is_symbol(c: char) -> bool {
    position_of(c) is Some
}

/// The row of symbol `c`.
pub open spec fn row_of(c: char) -> int
    recommends
        is_symbol(c),
{
    (position_of(c)->0).0
}

/// The column of symbol `c`.
pub open spec fn col_of(c: char) -> int
    recommends
        is_symbol(c),
{
    (position_of(c)->0).1
}

/// The table holds sixteen distinct symbols, and `position_of` is its exact
/// inverse: it finds every symbol where the table holds it, and nothing else.
pub proof fn lemma_table_inverse()
    ensures
        forall|row: int, col: int|
            0 <= row < 4 && 0 <= col < 4 ==> position_of(#[trigger] symbol_at(row, col)) == Some(
                (row, col),
            ),
        forall|c: char|
            #[trigger] is_symbol(c) ==> {
                let (row, col) = position_of(c)->0;
                &&& 0 <= row < 4
                &&& 0 <= col < 4
                &&& symbol_at(row, col) == c
            },
{
    assert forall|row: int, col: int| 0 <= row < 4 && 0 <= col < 4 implies position_of(
        #[trigger] symbol_at(row, col),
    ) == Some((row, col)) by {
        assert(symbol_table()[0] == seq!['F', 'C', '9', '8']);
        assert(symbol_table()[1] == seq!['J', '3', '2', '7']);
        assert(symbol_table()[2] == seq!['K', '4', '5', '6']);
        assert(symbol_table()[3] == seq!['L', 'M', 'P', 'T']);
    }
    assert forall|c: char| #[trigger] is_symbol(c) implies {
        let (row, col) = position_of(c)->0;
        &&& 0 <= row < 4
        &&& 0 <= col < 4
        &&& symbol_at(row, col) == c
    } by {
        assert(symbol_table()[0] == seq!['F', 'C', '9', '8']);
        assert(symbol_table()[1] == seq!['J', '3', '2', '7']);
        assert(symbol_table()[2] == seq!['K', '4', '5', '6']);
        assert(symbol_table()[3] == seq!['L', 'M', 'P', 'T']);
    }
}

/// Where `ch` stands in the table, as `(row, col)`.
pub fn find_char_in_grid(ch: char) -> (r: Result<(u8, u8), CodeError>)
    ensures
        match position_of(ch) {
            Some((row, col)) => r == Ok::<(u8, u8), CodeError>((row as u8, col as u8)),
            None => r == Err::<(u8, u8), CodeError>(CodeError::InvalidCharacter(ch)),
        },
{
    match ch {
        'F' => Ok((0, 0)),
        'C' => Ok((0, 1)),
        '9' => Ok((0, 2)),
        '8' => Ok((0, 3)),
        'J' => Ok((1, 0)),
        '3' => Ok((1, 1)),
        '2' => Ok((1, 2)),
        '7' => Ok((1, 3)),
        'K' => Ok((2, 0)),
        '4' => Ok((2, 1)),
        '5' => Ok((2, 2)),
        '6' => Ok((2, 3)),
        'L' => Ok((3, 0)),
        'M' => Ok((3, 1)),
        'P' => Ok((3, 2)),
        'T' => Ok((3, 3)),
        _ => Err(CodeError::InvalidCharacter(ch)),
    }
}

} // verus!
