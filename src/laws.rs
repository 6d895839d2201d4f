use vstd::arithmetic::div_mod::{lemma_breakdown, lemma_div_denominator, lemma_fundamental_div_mod};
use vstd::prelude::*;

use crate::cell::{clamp_index, digit, pow4, CellIndex, GRID_POWER, LEVELS};
use crate::decode::{
    base4_value, decode_symbols, decoded, first_foreign, lat_index_of, leading, lon_index_of,
    strip_separators,
};
use crate::encode::{code_of, code_symbols, grouped, SEPARATOR};
use crate::error::CodeError;
use crate::geometry::{bounds_of, center_of, decoded_bounds, decoded_center};
use crate::grid::{col_of, is_symbol, lemma_table_inverse, position_of, row_of, symbol_at};

verus! {

/// The `n` base-4 digits of `a`, most significant first.
spec fn top_digits(a: int, n: nat) -> Seq<int> {
    Seq::new(n, |k: int| (a / pow4((n - 1 - k) as nat) as int) % 4)
}

proof fn lemma_pow4_positive(n: nat)
    ensures
        pow4(n) > 0,
    decreases n,
{
    if n > 0 {
        lemma_pow4_positive((n - 1) as nat);
    }
}

proof fn lemma_base4_top_digits(a: int, n: nat)
    requires
        a >= 0,
    ensures
        base4_value(top_digits(a, n)) == a % pow4(n) as int,
    decreases n,
{
    if n > 0 {
        let m = (n - 1) as nat;
        lemma_base4_top_digits(a / 4, m);
        assert forall|k: int| 0 <= k < m implies #[trigger] top_digits(a, n)[k] == top_digits(
            a / 4,
            m,
        )[k] by {
            let e = (m - 1 - k) as nat;
            lemma_pow4_positive(e);
            lemma_div_denominator(a, 4, pow4(e) as int);
            assert(pow4((n - 1 - k) as nat) == 4 * pow4(e));
        }
        assert(top_digits(a, n).drop_last() =~= top_digits(a / 4, m));
        lemma_pow4_positive(m);
        lemma_breakdown(a, 4, pow4(m) as int);
        assert(pow4(0) == 1);
        assert(a / 1 == a);
        assert(top_digits(a, n)[m as int] == (a / pow4(0) as int) % 4);
        assert(top_digits(a, n).last() == a % 4);
        assert(pow4(n) == 4 * pow4(m));
        assert(base4_value(top_digits(a, n)) == base4_value(top_digits(a / 4, m)) * 4 + a % 4);
    } else {
        assert(a % 1 == 0);
    }
}

proof fn lemma_no_separator_in_table(row: int, col: int)
    requires
        0 <= row < 4,
        0 <= col < 4,
    ensures
        symbol_at(row, col) != SEPARATOR,
        is_symbol(symbol_at(row, col)),
{
    lemma_table_inverse();
    assert(position_of(SEPARATOR) is None);
}

proof fn lemma_digit_range(index: int, level: int)
    requires
        index >= 0,
    ensures
        0 <= digit(index, level) < 4,
{
    lemma_pow4_positive((LEVELS - 1 - level) as nat);
}

proof fn lemma_strip_grouped(symbols: Seq<char>)
    requires
        forall|k: int| 0 <= k < symbols.len() ==> symbols[k] != SEPARATOR,
    ensures
        strip_separators(grouped(symbols)) == symbols,
    decreases symbols.len(),
{
    if symbols.len() > 0 {
        let prev = symbols.drop_last();
        lemma_strip_grouped(prev);
        let written = grouped(prev).push(symbols.last());
        assert(written.drop_last() =~= grouped(prev));
        assert(strip_separators(written) == strip_separators(grouped(prev)).push(symbols.last()));
        if symbols.len() == 3 || symbols.len() == 6 {
            assert(written.push(SEPARATOR).drop_last() =~= written);
            assert(strip_separators(written.push(SEPARATOR)) == strip_separators(written));
        }
        assert(prev.push(symbols.last()) =~= symbols);
    } else {
        assert(strip_separators(grouped(symbols)) =~= symbols);
    }
}

proof fn lemma_all_symbols(t: Seq<char>)
    requires
        forall|k: int| 0 <= k < t.len() ==> is_symbol(#[trigger] t[k]),
    ensures
        first_foreign(t) is None,
    decreases t.len(),
{
    if t.len() > 0 {
        lemma_all_symbols(t.drop_last());
    }
}

/// Decoding the code of a cell on the grid gives that cell back.
pub proof fn lemma_code_round_trip(cell: CellIndex)
    requires
        cell.is_valid(),
    ensures
        decoded(code_of(cell)) == Ok::<CellIndex, CodeError>(cell),
{
    let symbols = code_symbols(cell);
    assert forall|k: int| 0 <= k < symbols.len() implies symbols[k] != SEPARATOR
        && is_symbol(#[trigger] symbols[k]) by {
        lemma_digit_range(cell.lat as int, k);
        lemma_digit_range(cell.lon as int, k);
        lemma_no_separator_in_table(digit(cell.lat as int, k), digit(cell.lon as int, k));
    }
    lemma_strip_grouped(symbols);
    lemma_all_symbols(symbols);
    lemma_table_inverse();
    assert(pow4(10) == GRID_POWER) by {
        reveal_with_fuel(pow4, 11);
    }
    assert forall|k: int| 0 <= k < 10 implies #[trigger] row_of(symbols[k]) == digit(
        cell.lat as int,
        k,
    ) && col_of(symbols[k]) == digit(cell.lon as int, k) by {
        lemma_digit_range(cell.lat as int, k);
        lemma_digit_range(cell.lon as int, k);
    }
    assert(Seq::new(10, |k: int| row_of(symbols[k])) =~= top_digits(cell.lat as int, 10));
    assert(Seq::new(10, |k: int| col_of(symbols[k])) =~= top_digits(cell.lon as int, 10));
    lemma_base4_top_digits(cell.lat as int, 10);
    lemma_base4_top_digits(cell.lon as int, 10);
    assert(lat_index_of(symbols) == cell.lat);
    assert(lon_index_of(symbols) == cell.lon);
}

proof fn lemma_axis_bound(num: int, den: int)
    requires
        den > 0,
        0 <= num <= GRID_POWER * den,
    ensures
        0 <= clamp_index(num / den) < GRID_POWER,
        -den <= (2 * clamp_index(num / den) + 1) * den - 2 * num <= den,
{
    let q = num / den;
    let r = num % den;
    lemma_fundamental_div_mod(num, den);
    assert(0 <= r < den);
    assert(0 <= q <= GRID_POWER) by (nonlinear_arith)
        requires
            num == den * q + r,
            0 <= r < den,
            0 <= num <= GRID_POWER * den,
            den > 0,
    ;
    if q == GRID_POWER {
        assert(r == 0) by (nonlinear_arith)
            requires
                num == den * q + r,
                0 <= r < den,
                num <= GRID_POWER * den,
                q == GRID_POWER,
        ;
        assert((2 * (GRID_POWER - 1) + 1) * den - 2 * num == -den) by (nonlinear_arith)
            requires
                num == den * q + r,
                r == 0,
                q == GRID_POWER,
        ;
    } else {
        assert((2 * q + 1) * den - 2 * num == den - 2 * r) by (nonlinear_arith)
            requires
                num == den * q + r,
        ;
    }
}

/// A position inside the grid, lying `lat_num / den` cells south of the
/// northern edge and `lon_num / den` cells east of the western edge, falls in
/// a cell whose code decodes back to that cell, and whose center lies within
/// half a cell of the position on each axis (the center is in half-cell
/// units, hence the factor 2 on the position).
pub proof fn lemma_round_trip_bound(lat_num: int, lon_num: int, den: int)
    requires
        den > 0,
        0 <= lat_num <= GRID_POWER * den,
        0 <= lon_num <= GRID_POWER * den,
    ensures
        ({
            let cell = CellIndex {
                lat: clamp_index(lat_num / den) as u32,
                lon: clamp_index(lon_num / den) as u32,
            };
            &&& cell.is_valid()
            &&& decoded(code_of(cell)) == Ok::<CellIndex, CodeError>(cell)
            &&& -den <= center_of(cell).lat * den - 2 * lat_num <= den
            &&& -den <= center_of(cell).lon * den - 2 * lon_num <= den
        }),
{
    lemma_axis_bound(lat_num, den);
    lemma_axis_bound(lon_num, den);
    let cell = CellIndex {
        lat: clamp_index(lat_num / den) as u32,
        lon: clamp_index(lon_num / den) as u32,
    };
    lemma_code_round_trip(cell);
}

/// Each corner of the grid falls in a cell of the grid (a position on the
/// far edge is clamped to the last cell), whose code decodes back to it and
/// whose center lies half a cell from the corner on each axis.
pub proof fn lemma_corner_cells(lat_at_far_edge: bool, lon_at_far_edge: bool)
    ensures
        ({
            let lat_scaled: int = if lat_at_far_edge {
                GRID_POWER as int
            } else {
                0
            };
            let lon_scaled: int = if lon_at_far_edge {
                GRID_POWER as int
            } else {
                0
            };
            let cell = CellIndex {
                lat: clamp_index(lat_scaled) as u32,
                lon: clamp_index(lon_scaled) as u32,
            };
            &&& cell.is_valid()
            &&& decoded(code_of(cell)) == Ok::<CellIndex, CodeError>(cell)
            &&& center_of(cell).lat - 2 * lat_scaled == if lat_at_far_edge {
                -1int
            } else {
                1
            }
            &&& center_of(cell).lon - 2 * lon_scaled == if lon_at_far_edge {
                -1int
            } else {
                1
            }
        }),
{
    let lat_scaled: int = if lat_at_far_edge {
        GRID_POWER as int
    } else {
        0
    };
    let lon_scaled: int = if lon_at_far_edge {
        GRID_POWER as int
    } else {
        0
    };
    lemma_round_trip_bound(lat_scaled, lon_scaled, 1);
    assert(lat_scaled / 1 == lat_scaled);
    assert(lon_scaled / 1 == lon_scaled);
}

proof fn lemma_strip_idempotent(s: Seq<char>)
    ensures
        strip_separators(strip_separators(s)) == strip_separators(s),
    decreases s.len(),
{
    if s.len() > 0 {
        lemma_strip_idempotent(s.drop_last());
        let inner = strip_separators(s.drop_last());
        if s.last() != SEPARATOR {
            assert(inner.push(s.last()).drop_last() =~= inner);
        }
    }
}

/// Removing the separators from a string does not change what it decodes
/// to.
pub proof fn lemma_separator_insensitive(s: Seq<char>)
    ensures
        decoded(strip_separators(s)) == decoded(s),
{
    lemma_strip_idempotent(s);
}

proof fn lemma_first_foreign_at(t: Seq<char>, k: int)
    requires
        0 <= k < t.len(),
        !is_symbol(t[k]),
        forall|j: int| 0 <= j < k ==> is_symbol(#[trigger] t[j]),
    ensures
        first_foreign(t) == Some(t[k]),
    decreases t.len(),
{
    if k < t.len() - 1 {
        lemma_first_foreign_at(t.drop_last(), k);
    } else {
        lemma_all_symbols(t.drop_last());
    }
}

/// A string whose separator-free form holds a character that is no symbol
/// among its first ten, with only symbols before it, is refused, and that
/// character is named.
pub proof fn lemma_foreign_character(s: Seq<char>, k: int)
    requires
        0 <= k < LEVELS,
        k < strip_separators(s).len(),
        !is_symbol(strip_separators(s)[k]),
        forall|j: int| 0 <= j < k ==> is_symbol(#[trigger] strip_separators(s)[j]),
    ensures
        decoded(s) == Err::<CellIndex, CodeError>(
            CodeError::InvalidCharacter(strip_separators(s)[k]),
        ),
{
    let t = strip_separators(s);
    lemma_first_foreign_at(leading(t), k);
}

/// A string whose separator-free form holds only symbols, but not ten of
/// them, is refused for its length: the count when there are fewer, eleven
/// when there are more.
pub proof fn lemma_length_reported(s: Seq<char>)
    requires
        strip_separators(s).len() != LEVELS,
        forall|j: int|
            0 <= j < strip_separators(s).len() ==> is_symbol(#[trigger] strip_separators(s)[j]),
    ensures
        decoded(s) == Err::<CellIndex, CodeError>(
            CodeError::InvalidLength(
                if strip_separators(s).len() < LEVELS {
                    strip_separators(s).len() as usize
                } else {
                    11
                },
            ),
        ),
{
    let t = strip_separators(s);
    lemma_all_symbols(leading(t));
}

proof fn lemma_base4_bound(digits: Seq<int>)
    requires
        forall|k: int| 0 <= k < digits.len() ==> 0 <= #[trigger] digits[k] < 4,
    ensures
        0 <= base4_value(digits) < pow4(digits.len()),
    decreases digits.len(),
{
    if digits.len() > 0 {
        lemma_base4_bound(digits.drop_last());
    }
}

proof fn lemma_no_foreign(t: Seq<char>)
    requires
        first_foreign(t) is None,
    ensures
        forall|k: int| 0 <= k < t.len() ==> is_symbol(#[trigger] t[k]),
    decreases t.len(),
{
    if t.len() > 0 {
        lemma_no_foreign(t.drop_last());
        assert forall|k: int| 0 <= k < t.len() implies is_symbol(#[trigger] t[k]) by {
            if k < t.len() - 1 {
                assert(t[k] == t.drop_last()[k]);
            }
        }
    }
}

/// A cell that a string decodes to lies on the grid.
pub proof fn lemma_decoded_on_grid(s: Seq<char>)
    ensures
        decoded(s) matches Ok(cell) ==> cell.is_valid(),
{
    let t = strip_separators(s);
    if decoded(s) is Ok {
        lemma_table_inverse();
        assert(leading(t) =~= t);
        lemma_no_foreign(t);
        lemma_base4_bound(Seq::new(t.len(), |k: int| row_of(t[k])));
        lemma_base4_bound(Seq::new(t.len(), |k: int| col_of(t[k])));
        assert(pow4(10) == GRID_POWER) by {
            reveal_with_fuel(pow4, 11);
        }
    }
}

/// A string names a center exactly when it names an extent, and the center
/// is then the midpoint of that extent.
pub proof fn lemma_center_is_midpoint(s: Seq<char>)
    ensures
        decoded_center(s) is Ok <==> decoded_bounds(s) is Ok,
        decoded_center(s) matches Ok(p) ==> ({
            let b = decoded_bounds(s)->Ok_0;
            &&& 2 * p.lat == b.north + b.south
            &&& 2 * p.lon == b.west + b.east
        }),
{
    lemma_decoded_on_grid(s);
}

} // verus!
