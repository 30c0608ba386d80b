//! Choosing one of the beatmaps of an extracted `.osz` archive by the index
//! that the player types.
use crate::number::{all_digits, digits_value, is_digit, law_integer_sign, parse_int_spec, parse_unsigned_range};
use crate::text::{chars_of, is_whitespace, trim, trim_end, trim_start, trim_range};
use vstd::prelude::*;

verus! {

/// The index that the typed line names, if it is one of `0..count`: the line
/// is trimmed and read as `str::parse::<usize>` reads it.
pub open spec fn chosen_index(line: Seq<char>, count: int) -> Option<int> {
    match parse_int_spec(trim(line), false, 0, usize::MAX as int) {
        Some(v) => if v < count {
            Some(v)
        } else {
            None
        },
        None => None,
    }
}

/// The index of the beatmap that the typed `line` chooses among `count`
/// beatmaps, or `None` when it is no index or out of range.
pub fn choose_index(line: &str, count: usize) -> (r: Option<usize>)
    ensures
        match r {
            Some(i) => chosen_index(line@, count as int) == Some(i as int),
            None => chosen_index(line@, count as int) is None,
        },
{
    let s = chars_of(line);
    let (lo, hi) = trim_range(&s, 0, s.len());
    assert(s@.subrange(0, s@.len() as int) =~= s@);
    match parse_unsigned_range(&s, lo, hi, usize::MAX as u128) {
        Some(v) => {
            if v < count as u128 {
                Some(v as usize)
            } else {
                None
            }
        },
        None => None,
    }
}

/// A line of digits chooses the beatmap with that index when there is one,
/// and nothing otherwise; whatever is chosen is one of the beatmaps.
pub proof fn law_typed_index(g: Seq<char>, line: Seq<char>, count: int)
    requires
        g.len() > 0,
        all_digits(g),
        count <= usize::MAX,
    ensures
        chosen_index(g, count) == if digits_value(g) < count {
            Some(digits_value(g))
        } else {
            None
        },
        chosen_index(line, count) matches Some(v) ==> 0 <= v < count,
{
    law_integer_sign(g, false, 0, usize::MAX as int);
    assert(is_digit(g[0]) && is_digit(g.last()));
    assert(!is_whitespace(g[0]) && !is_whitespace(g.last()));
    assert(trim_start(g) == g);
    assert(trim_end(g) == g);
}

} // verus!
