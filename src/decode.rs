use vstd::prelude::*;

use crate::cell::{pow4, CellIndex, GRID_POWER, LEVELS};
use crate::encode::SEPARATOR;
use crate::error::CodeError;
use crate::grid::{col_of, find_char_in_grid, is_symbol, row_of};

verus! {

/// `s` with every separator removed.
pub open spec fn strip_separators(s: Seq<char>) -> Seq<char>
    decreases s.len(),
{
    if s.len() == 0 {
        Seq::empty()
    } else if s.last() == SEPARATOR {
        strip_separators(s.drop_last())
    } else {
        strip_separators(s.drop_last()).push(s.last())
    }
}

/// The first character of `t` that is no symbol, if any.
pub open spec fn first_foreign(t: Seq<char>) -> Option<char>
    decreases t.len(),
{
    if t.len() == 0 {
        None
    } else {
        match first_foreign(t.drop_last()) {
            Some(c) => Some(c),
            None => if is_symbol(t.last()) {
                None
            } else {
                Some(t.last())
            },
        }
    }
}

/// The first `LEVELS` characters of `t`, or all of `t` if it is shorter.
pub open spec fn leading(t: Seq<char>) -> Seq<char> {
    if t.len() <= LEVELS {
        t
    } else {
        t.take(LEVELS as int)
    }
}

/// The number whose base-4 digits, most significant first, are `digits`.
pub open spec fn base4_value(digits: Seq<int>) -> int
    decreases digits.len(),
{
    if digits.len() == 0 {
        0
    } else {
        base4_value(digits.drop_last()) * 4 + digits.last()
    }
}

/// The latitude index spelt by the rows of the symbols `t`.
pub open spec fn lat_index_of(t: Seq<char>) -> int {
    base4_value(Seq::new(t.len(), |k: int| row_of(t[k])))
}

/// The longitude index spelt by the columns of the symbols `t`.
pub open spec fn lon_index_of(t: Seq<char>) -> int {
    base4_value(Seq::new(t.len(), |k: int| col_of(t[k])))
}

/// What decoding the characters `t`, separators already removed, yields.
/// Among the first ten characters, the first that is no symbol is reported;
/// then fewer than ten symbols are reported with their count, and more than
/// ten as eleven.
pub open spec fn decode_symbols(t: Seq<char>) -> Result<CellIndex, CodeError> {
    match first_foreign(leading(t)) {
        Some(c) => Err(CodeError::InvalidCharacter(c)),
        None => if t.len() < LEVELS {
            Err(CodeError::InvalidLength(t.len() as usize))
        } else if t.len() > LEVELS {
            Err(CodeError::InvalidLength(11))
        } else {
            Ok(CellIndex { lat: lat_index_of(t) as u32, lon: lon_index_of(t) as u32 })
        },
    }
}

/// What decoding the string `s` yields: separators may stand anywhere and
/// are ignored.
pub open spec fn decoded(s: Seq<char>) -> Result<CellIndex, CodeError> {
    decode_symbols(strip_separators(s))
}

proof fn lemma_strip_concat(a: Seq<char>, b: Seq<char>)
    ensures
        strip_separators(a + b) == strip_separators(a) + strip_separators(b),
    decreases b.len(),
{
    if b.len() == 0 {
        assert(a + b =~= a);
        assert(strip_separators(a) + strip_separators(b) =~= strip_separators(a));
    } else {
        lemma_strip_concat(a, b.drop_last());
        assert((a + b).drop_last() =~= a + b.drop_last());
        assert((a + b).last() == b.last());
        if b.last() != SEPARATOR {
            assert(strip_separators(a) + strip_separators(b) =~= (strip_separators(a)
                + strip_separators(b.drop_last())).push(b.last()));
        }
    }
}

proof fn lemma_first_foreign_prefix(p: Seq<char>, q: Seq<char>)
    requires
        first_foreign(p) is Some,
    ensures
        first_foreign(p + q) == first_foreign(p),
    decreases q.len(),
{
    if q.len() == 0 {
        assert(p + q =~= p);
    } else {
        lemma_first_foreign_prefix(p, q.drop_last());
        assert((p + q).drop_last() =~= p + q.drop_last());
    }
}

proof fn lemma_index_push(t: Seq<char>, c: char)
    ensures
        lat_index_of(t.push(c)) == lat_index_of(t) * 4 + row_of(c),
        lon_index_of(t.push(c)) == lon_index_of(t) * 4 + col_of(c),
{
    let u = t.push(c);
    assert(Seq::new(u.len(), |k: int| row_of(u[k])).drop_last() =~= Seq::new(
        t.len(),
        |k: int| row_of(t[k]),
    ));
    assert(Seq::new(u.len(), |k: int| col_of(u[k])).drop_last() =~= Seq::new(
        t.len(),
        |k: int| col_of(t[k]),
    ));
}

proof fn lemma_pow4_monotone(a: nat, b: nat)
    requires
        a <= b,
    ensures
        pow4(a) <= pow4(b),
    decreases b,
{
    if a < b {
        lemma_pow4_monotone(a, (b - 1) as nat);
    }
}

proof fn lemma_pow4_bound(n: nat)
    requires
        n < 10,
    ensures
        pow4(n) <= 0x4_0000,
{
    lemma_pow4_monotone(n, 9);
    assert(pow4(9) == 0x4_0000) by {
        reveal_with_fuel(pow4, 10);
    }
}

proof fn lemma_shift_in(index: u32, digit: u32)
    requires
        index < 0x4_0000,
        digit < 4,
    ensures
        (index << 2) | digit == index * 4 + digit,
{
    assert((index << 2) | digit == index * 4 + digit) by (bit_vector)
        requires
            index < 0x4_0000,
            digit < 4,
    ;
}

/// Once `seen`, a prefix of `s` whose last character is the first foreign
/// one, has given at most ten non-separators, that character is reported.
proof fn lemma_foreign_reported(s: Seq<char>, seen: Seq<char>, count: nat)
    requires
        seen.len() > 0,
        seen.last() != SEPARATOR,
        !is_symbol(seen.last()),
        s.len() >= seen.len(),
        s.subrange(0, seen.len() as int) == seen,
        strip_separators(seen.drop_last()).len() == count,
        count < 10,
        first_foreign(strip_separators(seen.drop_last())) is None,
    ensures
        decoded(s) == Err::<CellIndex, CodeError>(CodeError::InvalidCharacter(seen.last())),
{
    let rest = s.subrange(seen.len() as int, s.len() as int);
    assert(s =~= seen + rest);
    lemma_strip_concat(seen, rest);
    let p = strip_separators(seen);
    assert(p.drop_last() =~= strip_separators(seen.drop_last()));
    assert(first_foreign(p) == Some(seen.last()));
    let t = strip_separators(s);
    assert(p.len() == count + 1);
    if t.len() > LEVELS {
        assert(leading(t) =~= p + t.subrange(p.len() as int, 10));
        lemma_first_foreign_prefix(p, t.subrange(p.len() as int, 10));
    } else {
        lemma_first_foreign_prefix(p, strip_separators(rest));
    }
}

/// Once `seen`, a prefix of `s`, has given ten symbols and then ends in an
/// eleventh non-separator, the string is reported as too long.
proof fn lemma_surplus_reported(s: Seq<char>, seen: Seq<char>)
    requires
        seen.len() > 0,
        seen.last() != SEPARATOR,
        s.len() >= seen.len(),
        s.subrange(0, seen.len() as int) == seen,
        strip_separators(seen.drop_last()).len() == 10,
        first_foreign(strip_separators(seen.drop_last())) is None,
    ensures
        decoded(s) == Err::<CellIndex, CodeError>(CodeError::InvalidLength(11)),
{
    let rest = s.subrange(seen.len() as int, s.len() as int);
    assert(s =~= seen + rest);
    lemma_strip_concat(seen, rest);
    let t = strip_separators(s);
    let p = strip_separators(seen.drop_last());
    assert(leading(t) =~= p);
}

/// The cell that `code` names; separators may stand anywhere in it.
pub fn decode_cell(code: &str) -> (r: Result<CellIndex, CodeError>)
    ensures
        r == decoded(code@),
        r matches Ok(cell) ==> cell.is_valid(),
{
    let mut chars = code.chars();
    let ghost mut seen: Seq<char> = Seq::empty();
    let mut lat: u32 = 0;
    let mut lon: u32 = 0;
    let mut count: usize = 0;
    while count < 10
        invariant
            code@ == seen + vstd::std_specs::iter::IteratorSpec::remaining(&chars),
            count == strip_separators(seen).len(),
            count <= 10,
            first_foreign(strip_separators(seen)) is None,
            lat == lat_index_of(strip_separators(seen)),
            lon == lon_index_of(strip_separators(seen)),
            lat < pow4(count as nat),
            lon < pow4(count as nat),
        decreases code@.len() - seen.len(),
    {
        match chars.next() {
            None => {
                assert(seen =~= code@);
                return Err(CodeError::InvalidLength(count));
            },
            Some(ch) => {
                let ghost before = seen;
                proof {
                    seen = seen.push(ch);
                    assert(seen.drop_last() =~= before);
                    assert(code@ =~= seen + vstd::std_specs::iter::IteratorSpec::remaining(&chars));
                    assert(code@.subrange(0, seen.len() as int) =~= seen);
                }
                if ch != SEPARATOR {
                    assert(strip_separators(seen).drop_last() =~= strip_separators(before));
                    match find_char_in_grid(ch) {
                        Err(e) => {
                            proof {
                                lemma_foreign_reported(code@, seen, count as nat);
                            }
                            return Err(e);
                        },
                        Ok((row, col)) => {
                            proof {
                                lemma_index_push(strip_separators(before), ch);
                                lemma_pow4_bound(count as nat);
                                lemma_shift_in(lat, row as u32);
                                lemma_shift_in(lon, col as u32);
                            }
                            lat = (lat << 2) | row as u32;
                            lon = (lon << 2) | col as u32;
                            count = count + 1;
                        },
                    }
                }
            },
        }
    }
    proof {
        assert(pow4(10) == GRID_POWER) by {
            reveal_with_fuel(pow4, 11);
        }
    }
    loop
        invariant
            lat < GRID_POWER,
            lon < GRID_POWER,
            code@ == seen + vstd::std_specs::iter::IteratorSpec::remaining(&chars),
            strip_separators(seen).len() == 10,
            first_foreign(strip_separators(seen)) is None,
            lat == lat_index_of(strip_separators(seen)),
            lon == lon_index_of(strip_separators(seen)),
        ensures
            lat < GRID_POWER,
            lon < GRID_POWER,
            seen == code@,
            strip_separators(seen).len() == 10,
            first_foreign(strip_separators(seen)) is None,
            lat == lat_index_of(strip_separators(seen)),
            lon == lon_index_of(strip_separators(seen)),
        decreases code@.len() - seen.len(),
    {
        match chars.next() {
            None => {
                assert(seen =~= code@);
                break;
            },
            Some(ch) => {
                let ghost before = seen;
                proof {
                    seen = seen.push(ch);
                    assert(seen.drop_last() =~= before);
                    assert(code@ =~= seen + vstd::std_specs::iter::IteratorSpec::remaining(&chars));
                    assert(code@.subrange(0, seen.len() as int) =~= seen);
                }
                if ch != SEPARATOR {
                    proof {
                        lemma_surplus_reported(code@, seen);
                    }
                    return Err(CodeError::InvalidLength(11));
                }
            },
        }
    }
    Ok(CellIndex { lat, lon })
}

} // verus!
