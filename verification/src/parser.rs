//! Reading a beatmap from the text of an `.osu` file.
//!
//! The text is cut at each `]` followed by a carriage return, so that the
//! pieces after the first are the bodies of the sections in file order:
//! General, Editor, Metadata, Difficulty, Events, TimingPoints, Colours and
//! HitObjects (each body but the last ends with the next header's name).
//! A section body is read as lines: trimmed, cut at line feeds, and each line
//! trimmed again. Difficulty and timing point sections drop their last line
//! (the next header) and their empty lines; every line of the hit object
//! section is a hit object.
use crate::number::{
    parse_decimal_range, parse_decimal_spec, parse_i32_range, parse_int_spec,
    parse_unsigned_range, DecimalNumber,
};
use crate::osutypes::{
    default_difficulty, zero_timing_point, CurveType, HitObjectView, OsuDifficulty, OsuHitObject,
    BeatmapView, OsuBeatmap, OsuHitObjectType, OsuHitSound, OsuTimingPoint, Point, Slider,
    SliderView,
};
use crate::text::{chars_of, pieces_of, range_eq, ranges_in, split, split_range, trim, trim_range};
use vstd::prelude::*;

verus! {

/// Why a beatmap text could not be read.
#[derive(Clone, Copy, Debug, PartialEq, Eq, Structural)]
pub enum ParseError {
    /// The text has fewer than the eight sections the game reads.
    TooFewSections,
    /// A line has fewer fields than the game reads from it.
    MissingField,
    /// A field that holds an integer is not one, or does not fit its type.
    BadInteger,
    /// A field that holds a decimal number is not one.
    BadNumber,
    /// A timing point line has more than eight fields.
    TooManyFields,
    /// A hit object's type says neither circle, slider nor spinner.
    UnknownHitObjectType,
    /// A slider's curve type is none of `B`, `C`, `L` and `P`.
    InvalidCurveType,
}

/// The lines of a section body: trimmed, cut at line feeds, each trimmed.
pub open spec fn lines(x: Seq<char>) -> Seq<Seq<char>> {
    split(trim(x), seq!['\n']).map_values(|l: Seq<char>| trim(l))
}

/// The lines that are not empty, in order.
pub open spec fn nonempty(ls: Seq<Seq<char>>) -> Seq<Seq<char>>
    decreases ls.len(),
{
    if ls.len() == 0 {
        ls
    } else {
        let r = nonempty(ls.drop_last());
        if ls.last().len() > 0 {
            r.push(ls.last())
        } else {
            r
        }
    }
}

/// The lines of a section body without its last line and its empty lines.
pub open spec fn body_lines(x: Seq<char>) -> Seq<Seq<char>> {
    nonempty(lines(x).drop_last())
}

/// The lines of `s[lo..hi]`, as index pairs into `s`.
pub fn lines_range(s: &Vec<char>, lo: usize, hi: usize) -> (r: Vec<(usize, usize)>)
    requires
        lo <= hi <= s@.len(),
    ensures
        pieces_of(s@, r@) == lines(s@.subrange(lo as int, hi as int)),
        ranges_in(r@, s@.len() as int),
        r@.len() >= 1,
{
    let (a, b) = trim_range(s, lo, hi);
    let nl = vec!['\n'];
    assert(nl@ =~= seq!['\n']);
    let pieces = split_range(s, a, b, &nl);
    let ghost raw = split(trim(s@.subrange(lo as int, hi as int)), seq!['\n']);
    assert(pieces_of(s@, pieces@) == raw);
    let mut out: Vec<(usize, usize)> = Vec::new();
    let mut i: usize = 0;
    while i < pieces.len()
        invariant
            i <= pieces@.len(),
            pieces_of(s@, pieces@) == raw,
            ranges_in(pieces@, s@.len() as int),
            out@.len() == i,
            ranges_in(out@, s@.len() as int),
            forall|k: int| 0 <= k < i ==> #[trigger] s@.subrange(out@[k].0 as int, out@[k].1 as int)
                == trim(raw[k]),
        decreases pieces@.len() - i,
    {
        let (plo, phi) = pieces[i];
        assert(ranges_in(pieces@, s@.len() as int));
        assert(pieces@[i as int].0 <= pieces@[i as int].1 <= s@.len());
        assert(raw[i as int] == s@.subrange(plo as int, phi as int));
        let t = trim_range(s, plo, phi);
        let ghost before = out@;
        out.push(t);
        assert forall|k: int| 0 <= k < out@.len() implies #[trigger] out@[k].0 <= out@[k].1
            <= s@.len() by {
            if k < before.len() {
                assert(out@[k] == before[k]);
            }
        }
        assert forall|k: int| 0 <= k < i + 1 implies #[trigger] s@.subrange(
            out@[k].0 as int,
            out@[k].1 as int,
        ) == trim(raw[k]) by {
            if k < i {
                assert(out@[k] == before[k]);
            }
        }
        i = i + 1;
    }
    assert(pieces_of(s@, out@) =~= lines(s@.subrange(lo as int, hi as int)));
    out
}

/// The lines of `s[lo..hi]` without the last one and the empty ones.
pub fn body_lines_range(s: &Vec<char>, lo: usize, hi: usize) -> (r: Vec<(usize, usize)>)
    requires
        lo <= hi <= s@.len(),
    ensures
        pieces_of(s@, r@) == body_lines(s@.subrange(lo as int, hi as int)),
        ranges_in(r@, s@.len() as int),
{
    let all = lines_range(s, lo, hi);
    let ghost ls = lines(s@.subrange(lo as int, hi as int));
    let n = all.len() - 1;
    let mut out: Vec<(usize, usize)> = Vec::new();
    let mut i: usize = 0;
    assert(ls.drop_last().take(0) =~= Seq::<Seq<char>>::empty());
    while i < n
        invariant
            n == all@.len() - 1,
            i <= n,
            pieces_of(s@, all@) == ls,
            ranges_in(all@, s@.len() as int),
            ranges_in(out@, s@.len() as int),
            pieces_of(s@, out@) == nonempty(ls.drop_last().take(i as int)),
        decreases n - i,
    {
        let (a, b) = all[i];
        assert(all@[i as int].0 <= all@[i as int].1);
        let ghost prefix = ls.drop_last().take(i + 1);
        assert(prefix.drop_last() =~= ls.drop_last().take(i as int));
        assert(prefix.last() == s@.subrange(a as int, b as int));
        if a < b {
            let ghost before = out@;
            out.push((a, b));
            assert(pieces_of(s@, out@) =~= pieces_of(s@, before).push(
                s@.subrange(a as int, b as int),
            ));
            assert forall|k: int| 0 <= k < out@.len() implies #[trigger] out@[k].0 <= out@[k].1
                <= s@.len() by {
                if k < before.len() {
                    assert(out@[k] == before[k]);
                }
            }
        }
        i = i + 1;
    }
    assert(ls.drop_last().take(n as int) =~= ls.drop_last());
    out
}

/// The difficulty settings with the one that `name` names set to `v`; a
/// name the game does not know leaves them as they are.
pub open spec fn set_difficulty(d: OsuDifficulty, name: Seq<char>, v: DecimalNumber) -> OsuDifficulty {
    if name == "HPDrainRate"@ {
        OsuDifficulty { hp_drain: v, ..d }
    } else if name == "CircleSize"@ {
        OsuDifficulty { circle_size: v, ..d }
    } else if name == "OverallDifficulty"@ {
        OsuDifficulty { overall_diff: v, ..d }
    } else if name == "ApproachRate"@ {
        OsuDifficulty { approach_rate: v, ..d }
    } else if name == "SliderMultiplier"@ {
        OsuDifficulty { slider_multiplier: v, ..d }
    } else {
        d
    }
}

/// One `Name:value` line of the Difficulty section applied to `d`.
pub open spec fn apply_difficulty_line(d: OsuDifficulty, l: Seq<char>) -> Result<
    OsuDifficulty,
    ParseError,
> {
    let items = split(l, seq![':']);
    if items.len() < 2 {
        Err(ParseError::MissingField)
    } else {
        match parse_decimal_spec(items[1]) {
            Some(v) => Ok(set_difficulty(d, items[0], v)),
            None => Err(ParseError::BadNumber),
        }
    }
}

/// The difficulty settings that the lines give, from the defaults on; the
/// first line that cannot be read gives the error.
pub open spec fn read_difficulty(ls: Seq<Seq<char>>) -> Result<OsuDifficulty, ParseError>
    decreases ls.len(),
{
    if ls.len() == 0 {
        Ok(default_difficulty())
    } else {
        match read_difficulty(ls.drop_last()) {
            Ok(d) => apply_difficulty_line(d, ls.last()),
            Err(e) => Err(e),
        }
    }
}

/// Once a line cannot be read, the lines after it do not change the error.
proof fn lemma_difficulty_error_stays(ls: Seq<Seq<char>>, k: int)
    requires
        0 <= k <= ls.len(),
        read_difficulty(ls.take(k)) is Err,
    ensures
        read_difficulty(ls) == read_difficulty(ls.take(k)),
    decreases ls.len(),
{
    if k == ls.len() {
        assert(ls.take(k) =~= ls);
    } else {
        assert(ls.drop_last().take(k) =~= ls.take(k));
        lemma_difficulty_error_stays(ls.drop_last(), k);
    }
}

/// The line `s[lo..hi]` of the Difficulty section applied to `d`.
fn apply_difficulty_line_range(
    s: &Vec<char>,
    lo: usize,
    hi: usize,
    d: OsuDifficulty,
    names: &Vec<Vec<char>>,
) -> (r: Result<OsuDifficulty, ParseError>)
    requires
        lo <= hi <= s@.len(),
        names@.len() == 5,
        names@[0]@ == "HPDrainRate"@,
        names@[1]@ == "CircleSize"@,
        names@[2]@ == "OverallDifficulty"@,
        names@[3]@ == "ApproachRate"@,
        names@[4]@ == "SliderMultiplier"@,
    ensures
        r == apply_difficulty_line(d, s@.subrange(lo as int, hi as int)),
{
    let colon = vec![':'];
    assert(colon@ =~= seq![':']);
    let items = split_range(s, lo, hi, &colon);
    let ghost it = split(s@.subrange(lo as int, hi as int), seq![':']);
    assert(pieces_of(s@, items@) == it);
    if items.len() < 2 {
        return Err(ParseError::MissingField);
    }
    let (nlo, nhi) = items[0];
    let (vlo, vhi) = items[1];
    assert(items@[0].0 <= items@[0].1 <= s@.len());
    assert(items@[1].0 <= items@[1].1 <= s@.len());
    assert(it[0] == s@.subrange(nlo as int, nhi as int));
    assert(it[1] == s@.subrange(vlo as int, vhi as int));
    let v = match parse_decimal_range(s, vlo, vhi) {
        Some(v) => v,
        None => {
            return Err(ParseError::BadNumber);
        },
    };
    if range_eq(s, nlo, nhi, &names[0]) {
        Ok(OsuDifficulty { hp_drain: v, ..d })
    } else if range_eq(s, nlo, nhi, &names[1]) {
        Ok(OsuDifficulty { circle_size: v, ..d })
    } else if range_eq(s, nlo, nhi, &names[2]) {
        Ok(OsuDifficulty { overall_diff: v, ..d })
    } else if range_eq(s, nlo, nhi, &names[3]) {
        Ok(OsuDifficulty { approach_rate: v, ..d })
    } else if range_eq(s, nlo, nhi, &names[4]) {
        Ok(OsuDifficulty { slider_multiplier: v, ..d })
    } else {
        Ok(d)
    }
}

/// The difficulty settings that the given lines of `s` give.
pub fn read_difficulty_lines(s: &Vec<char>, ls: &Vec<(usize, usize)>) -> (r: Result<
    OsuDifficulty,
    ParseError,
>)
    requires
        ranges_in(ls@, s@.len() as int),
    ensures
        r == read_difficulty(pieces_of(s@, ls@)),
{
    let ghost all = pieces_of(s@, ls@);
    let mut names: Vec<Vec<char>> = Vec::new();
    names.push(chars_of("HPDrainRate"));
    names.push(chars_of("CircleSize"));
    names.push(chars_of("OverallDifficulty"));
    names.push(chars_of("ApproachRate"));
    names.push(chars_of("SliderMultiplier"));
    let mut d = OsuDifficulty::default();
    let mut i: usize = 0;
    assert(all.take(0) =~= Seq::<Seq<char>>::empty());
    while i < ls.len()
        invariant
            i <= ls@.len(),
            all == pieces_of(s@, ls@),
            ranges_in(ls@, s@.len() as int),
            names@.len() == 5,
            names@[0]@ == "HPDrainRate"@,
            names@[1]@ == "CircleSize"@,
            names@[2]@ == "OverallDifficulty"@,
            names@[3]@ == "ApproachRate"@,
            names@[4]@ == "SliderMultiplier"@,
            read_difficulty(all.take(i as int)) == Ok::<OsuDifficulty, ParseError>(d),
        decreases ls@.len() - i,
    {
        let (lo, hi) = ls[i];
        assert(ls@[i as int].0 <= ls@[i as int].1 <= s@.len());
        assert(all.take(i + 1).drop_last() =~= all.take(i as int));
        assert(all.take(i + 1).last() == s@.subrange(lo as int, hi as int));
        match apply_difficulty_line_range(s, lo, hi, d, &names) {
            Ok(nd) => {
                d = nd;
            },
            Err(e) => {
                proof {
                    lemma_difficulty_error_stays(all, i + 1);
                }
                return Err(e);
            },
        }
        i = i + 1;
    }
    assert(all.take(ls@.len() as int) =~= all);
    Ok(d)
}

/// Field `i` (counting from 0) of a timing point line applied to `tp`:
/// field 1 is the beat length, field 6 is uninherited when it is 1, the
/// others up to 7 are integers in the order of the struct's fields.
#[verifier::opaque]
pub open spec fn apply_timing_field(tp: OsuTimingPoint, i: int, f: Seq<char>) -> Result<
    OsuTimingPoint,
    ParseError,
> {
    if i == 1 {
        match parse_decimal_spec(f) {
            Some(v) => Ok(OsuTimingPoint { beat_length: v, ..tp }),
            None => Err(ParseError::BadNumber),
        }
    } else {
        match parse_int_spec(f, true, i32::MIN as int, i32::MAX as int) {
            None => Err(ParseError::BadInteger),
            Some(v) => if i == 0 {
                Ok(OsuTimingPoint { time: v as i32, ..tp })
            } else if i == 2 {
                Ok(OsuTimingPoint { meter: v as i32, ..tp })
            } else if i == 3 {
                Ok(OsuTimingPoint { sample_set: v as i32, ..tp })
            } else if i == 4 {
                Ok(OsuTimingPoint { sample_index: v as i32, ..tp })
            } else if i == 5 {
                Ok(OsuTimingPoint { volume: v as i32, ..tp })
            } else if i == 6 {
                Ok(OsuTimingPoint { uninherited: v == 1, ..tp })
            } else if i == 7 {
                Ok(OsuTimingPoint { effects: v as i32, ..tp })
            } else {
                Err(ParseError::TooManyFields)
            },
        }
    }
}

/// The timing point that the fields give, each applied in turn to the
/// all-zero timing point.
pub open spec fn read_timing_fields(fs: Seq<Seq<char>>) -> Result<OsuTimingPoint, ParseError>
    decreases fs.len(),
{
    if fs.len() == 0 {
        Ok(zero_timing_point())
    } else {
        match read_timing_fields(fs.drop_last()) {
            Ok(tp) => apply_timing_field(tp, fs.len() - 1, fs.last()),
            Err(e) => Err(e),
        }
    }
}

/// The timing point of one line: its comma-separated fields.
pub open spec fn read_timing_line(l: Seq<char>) -> Result<OsuTimingPoint, ParseError> {
    read_timing_fields(split(l, seq![',']))
}

/// The timing points of the lines, in order; the first line that cannot be
/// read gives the error.
pub open spec fn read_timing_points(ls: Seq<Seq<char>>) -> Result<Seq<OsuTimingPoint>, ParseError>
    decreases ls.len(),
{
    if ls.len() == 0 {
        Ok(Seq::empty())
    } else {
        match read_timing_points(ls.drop_last()) {
            Ok(ps) => match read_timing_line(ls.last()) {
                Ok(p) => Ok(ps.push(p)),
                Err(e) => Err(e),
            },
            Err(e) => Err(e),
        }
    }
}

proof fn lemma_timing_fields_error_stays(fs: Seq<Seq<char>>, k: int)
    requires
        0 <= k <= fs.len(),
        read_timing_fields(fs.take(k)) is Err,
    ensures
        read_timing_fields(fs) == read_timing_fields(fs.take(k)),
    decreases fs.len(),
{
    if k == fs.len() {
        assert(fs.take(k) =~= fs);
    } else {
        assert(fs.drop_last().take(k) =~= fs.take(k));
        lemma_timing_fields_error_stays(fs.drop_last(), k);
    }
}

proof fn lemma_timing_points_error_stays(ls: Seq<Seq<char>>, k: int)
    requires
        0 <= k <= ls.len(),
        read_timing_points(ls.take(k)) is Err,
    ensures
        read_timing_points(ls) == read_timing_points(ls.take(k)),
    decreases ls.len(),
{
    if k == ls.len() {
        assert(ls.take(k) =~= ls);
    } else {
        assert(ls.drop_last().take(k) =~= ls.take(k));
        lemma_timing_points_error_stays(ls.drop_last(), k);
    }
}

/// Field `i` of a timing point line, `s[lo..hi]`, applied to `tp`.
fn apply_timing_field_range(s: &Vec<char>, lo: usize, hi: usize, tp: OsuTimingPoint, i: usize) -> (r:
    Result<OsuTimingPoint, ParseError>)
    requires
        lo <= hi <= s@.len(),
    ensures
        r == apply_timing_field(tp, i as int, s@.subrange(lo as int, hi as int)),
{
    reveal(apply_timing_field);
    if i == 1 {
        match parse_decimal_range(s, lo, hi) {
            Some(v) => Ok(OsuTimingPoint { beat_length: v, ..tp }),
            None => Err(ParseError::BadNumber),
        }
    } else {
        match parse_i32_range(s, lo, hi) {
            None => Err(ParseError::BadInteger),
            Some(v) => if i == 0 {
                Ok(OsuTimingPoint { time: v, ..tp })
            } else if i == 2 {
                Ok(OsuTimingPoint { meter: v, ..tp })
            } else if i == 3 {
                Ok(OsuTimingPoint { sample_set: v, ..tp })
            } else if i == 4 {
                Ok(OsuTimingPoint { sample_index: v, ..tp })
            } else if i == 5 {
                Ok(OsuTimingPoint { volume: v, ..tp })
            } else if i == 6 {
                Ok(OsuTimingPoint { uninherited: v == 1, ..tp })
            } else if i == 7 {
                Ok(OsuTimingPoint { effects: v, ..tp })
            } else {
                Err(ParseError::TooManyFields)
            },
        }
    }
}

/// The timing point of the line `s[lo..hi]`.
pub fn read_timing_line_range(s: &Vec<char>, lo: usize, hi: usize) -> (r: Result<
    OsuTimingPoint,
    ParseError,
>)
    requires
        lo <= hi <= s@.len(),
    ensures
        r == read_timing_line(s@.subrange(lo as int, hi as int)),
{
    let comma = vec![','];
    assert(comma@ =~= seq![',']);
    let fields = split_range(s, lo, hi, &comma);
    let ghost fs = split(s@.subrange(lo as int, hi as int), seq![',']);
    assert(pieces_of(s@, fields@) == fs);
    let mut tp = OsuTimingPoint::default();
    let mut i: usize = 0;
    assert(fs.take(0) =~= Seq::<Seq<char>>::empty());
    while i < fields.len()
        invariant
            i <= fields@.len(),
            lo <= hi <= s@.len(),
            fs == split(s@.subrange(lo as int, hi as int), seq![',']),
            pieces_of(s@, fields@) == fs,
            ranges_in(fields@, s@.len() as int),
            read_timing_fields(fs.take(i as int)) == Ok::<OsuTimingPoint, ParseError>(tp),
        decreases fields@.len() - i,
    {
        let (flo, fhi) = fields[i];
        assert(fields@[i as int].0 <= fields@[i as int].1 <= s@.len());
        assert(fs.take(i + 1).drop_last() =~= fs.take(i as int));
        assert(fs.take(i + 1).last() == s@.subrange(flo as int, fhi as int));
        match apply_timing_field_range(s, flo, fhi, tp, i) {
            Ok(t) => {
                tp = t;
            },
            Err(e) => {
                proof {
                    lemma_timing_fields_error_stays(fs, i + 1);
                }
                return Err(e);
            },
        }
        i = i + 1;
    }
    assert(fs.take(fields@.len() as int) =~= fs);
    Ok(tp)
}

/// The timing points of the given lines of `s`.
pub fn read_timing_point_lines(s: &Vec<char>, ls: &Vec<(usize, usize)>) -> (r: Result<
    Vec<OsuTimingPoint>,
    ParseError,
>)
    requires
        ranges_in(ls@, s@.len() as int),
    ensures
        match r {
            Ok(v) => read_timing_points(pieces_of(s@, ls@)) == Ok::<Seq<OsuTimingPoint>, ParseError>(v@),
            Err(e) => read_timing_points(pieces_of(s@, ls@)) == Err::<Seq<OsuTimingPoint>, ParseError>(e),
        },
{
    let ghost all = pieces_of(s@, ls@);
    let mut out: Vec<OsuTimingPoint> = Vec::new();
    let mut i: usize = 0;
    assert(all.take(0) =~= Seq::<Seq<char>>::empty());
    while i < ls.len()
        invariant
            i <= ls@.len(),
            all == pieces_of(s@, ls@),
            ranges_in(ls@, s@.len() as int),
            read_timing_points(all.take(i as int)) == Ok::<Seq<OsuTimingPoint>, ParseError>(out@),
        decreases ls@.len() - i,
    {
        let (lo, hi) = ls[i];
        assert(ls@[i as int].0 <= ls@[i as int].1 <= s@.len());
        assert(all.take(i + 1).drop_last() =~= all.take(i as int));
        assert(all.take(i + 1).last() == s@.subrange(lo as int, hi as int));
        match read_timing_line_range(s, lo, hi) {
            Ok(p) => {
                out.push(p);
            },
            Err(e) => {
                proof {
                    lemma_timing_points_error_stays(all, i + 1);
                }
                return Err(e);
            },
        }
        i = i + 1;
    }
    assert(all.take(ls@.len() as int) =~= all);
    Ok(out)
}

/// What an `i32` field holds, as `str::parse::<i32>` reads it.
pub open spec fn i32_field(f: Seq<char>) -> Option<int> {
    parse_int_spec(f, true, i32::MIN as int, i32::MAX as int)
}

/// The kind of hit object that the type bits `t` give: bit 0 a circle, else
/// bit 1 a slider, else bit 3 a spinner; bit 2 starts a new combo.
pub open spec fn hit_object_type_of(t: u8) -> Option<OsuHitObjectType> {
    let combo = (t >> 2u8) & 1u8 == 1u8;
    if t & 1u8 == 1u8 {
        Some(OsuHitObjectType::Circle(combo))
    } else if (t >> 1u8) & 1u8 == 1u8 {
        Some(OsuHitObjectType::Slider(combo))
    } else if (t >> 3u8) & 1u8 == 1u8 {
        Some(OsuHitObjectType::Spinner(combo))
    } else {
        None
    }
}

/// The curve type that a slider's letter names.
pub open spec fn curve_type_of(t: Seq<char>) -> Option<CurveType> {
    if t == seq!['B'] {
        Some(CurveType::Bezier)
    } else if t == seq!['C'] {
        Some(CurveType::Centripetal)
    } else if t == seq!['L'] {
        Some(CurveType::Linear)
    } else if t == seq!['P'] {
        Some(CurveType::PerfectCircle)
    } else {
        None
    }
}

/// A curve point `x:y`: every colon-separated part must be an `i32`, and the
/// first two are the coordinates.
pub open spec fn read_point(item: Seq<char>) -> Result<Point, ParseError> {
    let parts = split(item, seq![':']);
    if exists|k: int| 0 <= k < parts.len() && #[trigger] i32_field(parts[k]) is None {
        Err(ParseError::BadInteger)
    } else if parts.len() < 2 {
        Err(ParseError::MissingField)
    } else {
        Ok(Point { x: i32_field(parts[0]).unwrap() as i32, y: i32_field(parts[1]).unwrap() as i32 })
    }
}

/// The curve points, in order; the first that cannot be read gives the error.
pub open spec fn read_points(items: Seq<Seq<char>>) -> Result<Seq<Point>, ParseError>
    decreases items.len(),
{
    if items.len() == 0 {
        Ok(Seq::empty())
    } else {
        match read_points(items.drop_last()) {
            Ok(ps) => match read_point(items.last()) {
                Ok(p) => Ok(ps.push(p)),
                Err(e) => Err(e),
            },
            Err(e) => Err(e),
        }
    }
}

/// The slider parameters of a hit object's fields: field 5 is the curve
/// (`type|x:y|x:y...`), field 6 the number of slides, field 7 the length.
pub open spec fn read_slider(f: Seq<Seq<char>>) -> Result<SliderView, ParseError> {
    if f.len() < 6 {
        Err(ParseError::MissingField)
    } else {
        let c = split(f[5], seq!['|']);
        match curve_type_of(c[0]) {
            None => Err(ParseError::InvalidCurveType),
            Some(ct) => match read_points(c.drop_first()) {
                Err(e) => Err(e),
                Ok(pts) => if f.len() < 7 {
                    Err(ParseError::MissingField)
                } else {
                    match parse_int_spec(f[6], false, 0, u32::MAX as int) {
                        None => Err(ParseError::BadInteger),
                        Some(sl) => if f.len() < 8 {
                            Err(ParseError::MissingField)
                        } else {
                            match parse_decimal_spec(f[7]) {
                                None => Err(ParseError::BadNumber),
                                Some(len) => Ok(
                                    SliderView {
                                        curve_type: ct,
                                        curve_points: pts,
                                        slides: sl as u32,
                                        length: len,
                                    },
                                ),
                            }
                        },
                    }
                },
            },
        }
    }
}

/// A hit object line `x,y,time,type,...`: the type (field 3) is read first,
/// then the position and the time; a slider also reads its parameters.
#[verifier::opaque]
pub open spec fn read_hit_object(l: Seq<char>) -> Result<HitObjectView, ParseError> {
    let f = split(l, seq![',']);
    if f.len() < 4 {
        Err(ParseError::MissingField)
    } else {
        match parse_int_spec(f[3], false, 0, 255) {
            None => Err(ParseError::BadInteger),
            Some(tv) => match hit_object_type_of(tv as u8) {
                None => Err(ParseError::UnknownHitObjectType),
                Some(ty) => match i32_field(f[0]) {
                    None => Err(ParseError::BadInteger),
                    Some(x) => match i32_field(f[1]) {
                        None => Err(ParseError::BadInteger),
                        Some(y) => match parse_decimal_spec(f[2]) {
                            None => Err(ParseError::BadNumber),
                            Some(t) => {
                                let base = HitObjectView {
                                    pos: Point { x: x as i32, y: y as i32 },
                                    time: t,
                                    hitobjecttype: ty,
                                    hitsound: OsuHitSound::Normal,
                                    slider_params: None,
                                    spinner_params: None,
                                };
                                if ty is Slider {
                                    match read_slider(f) {
                                        Ok(sv) => Ok(HitObjectView { slider_params: Some(sv), ..base }),
                                        Err(e) => Err(e),
                                    }
                                } else {
                                    Ok(base)
                                }
                            },
                        },
                    },
                },
            },
        }
    }
}

/// The hit objects of the lines, in order; the first line that cannot be
/// read gives the error.
pub open spec fn read_hit_objects(ls: Seq<Seq<char>>) -> Result<Seq<HitObjectView>, ParseError>
    decreases ls.len(),
{
    if ls.len() == 0 {
        Ok(Seq::empty())
    } else {
        match read_hit_objects(ls.drop_last()) {
            Ok(hs) => match read_hit_object(ls.last()) {
                Ok(h) => Ok(hs.push(h)),
                Err(e) => Err(e),
            },
            Err(e) => Err(e),
        }
    }
}

proof fn lemma_points_error_stays(ls: Seq<Seq<char>>, k: int)
    requires
        0 <= k <= ls.len(),
        read_points(ls.take(k)) is Err,
    ensures
        read_points(ls) == read_points(ls.take(k)),
    decreases ls.len(),
{
    if k == ls.len() {
        assert(ls.take(k) =~= ls);
    } else {
        assert(ls.drop_last().take(k) =~= ls.take(k));
        lemma_points_error_stays(ls.drop_last(), k);
    }
}

proof fn lemma_hit_objects_error_stays(ls: Seq<Seq<char>>, k: int)
    requires
        0 <= k <= ls.len(),
        read_hit_objects(ls.take(k)) is Err,
    ensures
        read_hit_objects(ls) == read_hit_objects(ls.take(k)),
    decreases ls.len(),
{
    if k == ls.len() {
        assert(ls.take(k) =~= ls);
    } else {
        assert(ls.drop_last().take(k) =~= ls.take(k));
        lemma_hit_objects_error_stays(ls.drop_last(), k);
    }
}

/// The hit object type that the type bits give.
pub fn hit_object_type_from_bits(t: u8) -> (r: Option<OsuHitObjectType>)
    ensures
        r == hit_object_type_of(t),
{
    let combo = (t >> 2u8) & 1u8 == 1u8;
    if t & 1u8 == 1u8 {
        Some(OsuHitObjectType::Circle(combo))
    } else if (t >> 1u8) & 1u8 == 1u8 {
        Some(OsuHitObjectType::Slider(combo))
    } else if (t >> 3u8) & 1u8 == 1u8 {
        Some(OsuHitObjectType::Spinner(combo))
    } else {
        None
    }
}

/// The curve type that the letter `s[lo..hi]` names.
fn curve_type_range(s: &Vec<char>, lo: usize, hi: usize) -> (r: Option<CurveType>)
    requires
        lo <= hi <= s@.len(),
    ensures
        r == curve_type_of(s@.subrange(lo as int, hi as int)),
{
    let ghost t = s@.subrange(lo as int, hi as int);
    if hi - lo != 1 {
        assert(t.len() != 1);
        assert(t != seq!['B'] && t != seq!['C'] && t != seq!['L'] && t != seq!['P']);
        return None;
    }
    let c = s[lo];
    proof {
        assert(t[0] == c);
        assert(seq!['B'][0] == 'B');
        assert(seq!['C'][0] == 'C');
        assert(seq!['L'][0] == 'L');
        assert(seq!['P'][0] == 'P');
        if c == 'B' {
            assert(t =~= seq!['B']);
        }
        if c == 'C' {
            assert(t =~= seq!['C']);
        }
        if c == 'L' {
            assert(t =~= seq!['L']);
        }
        if c == 'P' {
            assert(t =~= seq!['P']);
        }
    }
    if c == 'B' {
        Some(CurveType::Bezier)
    } else if c == 'C' {
        Some(CurveType::Centripetal)
    } else if c == 'L' {
        Some(CurveType::Linear)
    } else if c == 'P' {
        Some(CurveType::PerfectCircle)
    } else {
        None
    }
}

/// The curve point `s[lo..hi]`.
fn read_point_range(s: &Vec<char>, lo: usize, hi: usize) -> (r: Result<Point, ParseError>)
    requires
        lo <= hi <= s@.len(),
    ensures
        r == read_point(s@.subrange(lo as int, hi as int)),
{
    let colon = vec![':'];
    assert(colon@ =~= seq![':']);
    let parts = split_range(s, lo, hi, &colon);
    let ghost ps = split(s@.subrange(lo as int, hi as int), seq![':']);
    assert(pieces_of(s@, parts@) == ps);
    let mut x: i32 = 0;
    let mut y: i32 = 0;
    let mut i: usize = 0;
    while i < parts.len()
        invariant
            i <= parts@.len(),
            lo <= hi <= s@.len(),
            ps == split(s@.subrange(lo as int, hi as int), seq![':']),
            pieces_of(s@, parts@) == ps,
            ranges_in(parts@, s@.len() as int),
            forall|k: int| 0 <= k < i ==> #[trigger] i32_field(ps[k]) is Some,
            i > 0 ==> i32_field(ps[0]) == Some(x as int),
            i > 1 ==> i32_field(ps[1]) == Some(y as int),
        decreases parts@.len() - i,
    {
        let (plo, phi) = parts[i];
        assert(parts@[i as int].0 <= parts@[i as int].1 <= s@.len());
        assert(ps[i as int] == s@.subrange(plo as int, phi as int));
        match parse_i32_range(s, plo, phi) {
            Some(v) => {
                if i == 0 {
                    x = v;
                } else if i == 1 {
                    y = v;
                }
            },
            None => {
                assert(i32_field(ps[i as int]) is None);
                return Err(ParseError::BadInteger);
            },
        }
        i = i + 1;
    }
    if parts.len() < 2 {
        return Err(ParseError::MissingField);
    }
    Ok(Point { x, y })
}

/// The curve points given by the pieces `items[1..]` of `s`.
fn read_points_range(s: &Vec<char>, items: &Vec<(usize, usize)>) -> (r: Result<Vec<Point>, ParseError>)
    requires
        ranges_in(items@, s@.len() as int),
        items@.len() >= 1,
    ensures
        match r {
            Ok(v) => read_points(pieces_of(s@, items@).drop_first()) == Ok::<Seq<Point>, ParseError>(v@),
            Err(e) => read_points(pieces_of(s@, items@).drop_first()) == Err::<Seq<Point>, ParseError>(e),
        },
{
    let ghost all = pieces_of(s@, items@).drop_first();
    let mut out: Vec<Point> = Vec::new();
    let mut i: usize = 1;
    assert(all.take(0) =~= Seq::<Seq<char>>::empty());
    while i < items.len()
        invariant
            1 <= i <= items@.len(),
            all == pieces_of(s@, items@).drop_first(),
            ranges_in(items@, s@.len() as int),
            read_points(all.take(i - 1)) == Ok::<Seq<Point>, ParseError>(out@),
        decreases items@.len() - i,
    {
        let (lo, hi) = items[i];
        assert(items@[i as int].0 <= items@[i as int].1 <= s@.len());
        assert(all.take(i as int).drop_last() =~= all.take(i - 1));
        assert(all.take(i as int).last() == s@.subrange(lo as int, hi as int));
        match read_point_range(s, lo, hi) {
            Ok(p) => {
                out.push(p);
            },
            Err(e) => {
                proof {
                    lemma_points_error_stays(all, i as int);
                }
                return Err(e);
            },
        }
        i = i + 1;
    }
    assert(all.take(items@.len() - 1) =~= all);
    Ok(out)
}

/// The slider parameters of the hit object whose fields are the pieces `f` of `s`.
fn read_slider_range(s: &Vec<char>, f: &Vec<(usize, usize)>) -> (r: Result<Slider, ParseError>)
    requires
        ranges_in(f@, s@.len() as int),
    ensures
        match r {
            Ok(v) => read_slider(pieces_of(s@, f@)) == Ok::<SliderView, ParseError>(v@),
            Err(e) => read_slider(pieces_of(s@, f@)) == Err::<SliderView, ParseError>(e),
        },
{
    let ghost fs = pieces_of(s@, f@);
    if f.len() < 6 {
        return Err(ParseError::MissingField);
    }
    let (clo, chi) = f[5];
    assert(f@[5].0 <= f@[5].1 <= s@.len());
    assert(fs[5] == s@.subrange(clo as int, chi as int));
    let bar = vec!['|'];
    assert(bar@ =~= seq!['|']);
    let c = split_range(s, clo, chi, &bar);
    let (tlo, thi) = c[0];
    assert(c@[0].0 <= c@[0].1 <= s@.len());
    let curve_type = match curve_type_range(s, tlo, thi) {
        Some(ct) => ct,
        None => {
            return Err(ParseError::InvalidCurveType);
        },
    };
    let curve_points = read_points_range(s, &c)?;
    if f.len() < 7 {
        return Err(ParseError::MissingField);
    }
    let (slo, shi) = f[6];
    assert(f@[6].0 <= f@[6].1 <= s@.len());
    assert(fs[6] == s@.subrange(slo as int, shi as int));
    let slides = match parse_unsigned_range(s, slo, shi, 0xffff_ffffu128) {
        Some(v) => v as u32,
        None => {
            return Err(ParseError::BadInteger);
        },
    };
    if f.len() < 8 {
        return Err(ParseError::MissingField);
    }
    let (llo, lhi) = f[7];
    assert(f@[7].0 <= f@[7].1 <= s@.len());
    assert(fs[7] == s@.subrange(llo as int, lhi as int));
    let length = match parse_decimal_range(s, llo, lhi) {
        Some(v) => v,
        None => {
            return Err(ParseError::BadNumber);
        },
    };
    Ok(Slider { curve_type, curve_points, slides, length })
}

/// The hit object of the line `s[lo..hi]`.
pub fn read_hit_object_range(s: &Vec<char>, lo: usize, hi: usize) -> (r: Result<
    OsuHitObject,
    ParseError,
>)
    requires
        lo <= hi <= s@.len(),
    ensures
        match r {
            Ok(h) => read_hit_object(s@.subrange(lo as int, hi as int)) == Ok::<
                HitObjectView,
                ParseError,
            >(h@),
            Err(e) => read_hit_object(s@.subrange(lo as int, hi as int)) == Err::<
                HitObjectView,
                ParseError,
            >(e),
        },
{
    reveal(read_hit_object);
    let comma = vec![','];
    assert(comma@ =~= seq![',']);
    let f = split_range(s, lo, hi, &comma);
    let ghost fs = split(s@.subrange(lo as int, hi as int), seq![',']);
    assert(pieces_of(s@, f@) == fs);
    if f.len() < 4 {
        return Err(ParseError::MissingField);
    }
    let (tlo, thi) = f[3];
    assert(f@[3].0 <= f@[3].1 <= s@.len());
    assert(fs[3] == s@.subrange(tlo as int, thi as int));
    let type_bits = match parse_unsigned_range(s, tlo, thi, 0xffu128) {
        Some(v) => v as u8,
        None => {
            return Err(ParseError::BadInteger);
        },
    };
    let hitobjecttype = match hit_object_type_from_bits(type_bits) {
        Some(t) => t,
        None => {
            return Err(ParseError::UnknownHitObjectType);
        },
    };
    let (xlo, xhi) = f[0];
    assert(f@[0].0 <= f@[0].1 <= s@.len());
    assert(fs[0] == s@.subrange(xlo as int, xhi as int));
    let x = match parse_i32_range(s, xlo, xhi) {
        Some(v) => v,
        None => {
            return Err(ParseError::BadInteger);
        },
    };
    let (ylo, yhi) = f[1];
    assert(f@[1].0 <= f@[1].1 <= s@.len());
    assert(fs[1] == s@.subrange(ylo as int, yhi as int));
    let y = match parse_i32_range(s, ylo, yhi) {
        Some(v) => v,
        None => {
            return Err(ParseError::BadInteger);
        },
    };
    let (time_lo, time_hi) = f[2];
    assert(f@[2].0 <= f@[2].1 <= s@.len());
    assert(fs[2] == s@.subrange(time_lo as int, time_hi as int));
    let time = match parse_decimal_range(s, time_lo, time_hi) {
        Some(v) => v,
        None => {
            return Err(ParseError::BadNumber);
        },
    };
    let slider_params = match hitobjecttype {
        OsuHitObjectType::Slider(_) => Some(read_slider_range(s, &f)?),
        _ => None,
    };
    Ok(
        OsuHitObject {
            pos: Point { x, y },
            time,
            hitobjecttype,
            hitsound: OsuHitSound::Normal,
            slider_params,
            spinner_params: None,
        },
    )
}

/// The hit objects of the given lines of `s`.
pub fn read_hit_object_lines(s: &Vec<char>, ls: &Vec<(usize, usize)>) -> (r: Result<
    Vec<OsuHitObject>,
    ParseError,
>)
    requires
        ranges_in(ls@, s@.len() as int),
    ensures
        match r {
            Ok(v) => read_hit_objects(pieces_of(s@, ls@)) == Ok::<Seq<HitObjectView>, ParseError>(
                v@.map_values(|h: OsuHitObject| h@),
            ),
            Err(e) => read_hit_objects(pieces_of(s@, ls@)) == Err::<Seq<HitObjectView>, ParseError>(
                e,
            ),
        },
{
    let ghost all = pieces_of(s@, ls@);
    let mut out: Vec<OsuHitObject> = Vec::new();
    let mut i: usize = 0;
    assert(all.take(0) =~= Seq::<Seq<char>>::empty());
    assert(out@.map_values(|h: OsuHitObject| h@) =~= Seq::<HitObjectView>::empty());
    while i < ls.len()
        invariant
            i <= ls@.len(),
            all == pieces_of(s@, ls@),
            ranges_in(ls@, s@.len() as int),
            read_hit_objects(all.take(i as int)) == Ok::<Seq<HitObjectView>, ParseError>(
                out@.map_values(|h: OsuHitObject| h@),
            ),
        decreases ls@.len() - i,
    {
        let (lo, hi) = ls[i];
        assert(ls@[i as int].0 <= ls@[i as int].1 <= s@.len());
        assert(all.take(i + 1).drop_last() =~= all.take(i as int));
        assert(all.take(i + 1).last() == s@.subrange(lo as int, hi as int));
        match read_hit_object_range(s, lo, hi) {
            Ok(h) => {
                let ghost before = out@;
                out.push(h);
                assert(out@.map_values(|h: OsuHitObject| h@) =~= before.map_values(
                    |h: OsuHitObject| h@,
                ).push(h@));
            },
            Err(e) => {
                proof {
                    lemma_hit_objects_error_stays(all, i + 1);
                }
                return Err(e);
            },
        }
        i = i + 1;
    }
    assert(all.take(ls@.len() as int) =~= all);
    Ok(out)
}

/// The beatmap that an `.osu` text gives: the Difficulty section (the fifth
/// piece of the text), the TimingPoints section (the seventh) and the
/// HitObjects section (the ninth) are read, in that order; the first thing
/// that cannot be read gives the error.
pub open spec fn parse_osu_spec(text: Seq<char>) -> Result<BeatmapView, ParseError> {
    let sec = split(text, seq![']', '\r']);
    if sec.len() < 9 {
        Err(ParseError::TooFewSections)
    } else {
        match read_difficulty(body_lines(sec[4])) {
            Err(e) => Err(e),
            Ok(d) => match read_timing_points(body_lines(sec[6])) {
                Err(e) => Err(e),
                Ok(tps) => match read_hit_objects(lines(sec[8])) {
                    Err(e) => Err(e),
                    Ok(hos) => Ok(BeatmapView { hit_objects: hos, difficulty: d, timing_points: tps }),
                },
            },
        }
    }
}

/// Reads the beatmap that the text of an `.osu` file gives.
pub fn parse_osu_text(text: &str) -> (r: Result<OsuBeatmap, ParseError>)
    ensures
        match r {
            Ok(b) => parse_osu_spec(text@) == Ok::<BeatmapView, ParseError>(b@),
            Err(e) => parse_osu_spec(text@) == Err::<BeatmapView, ParseError>(e),
        },
{
    let s = chars_of(text);
    let sep = vec![']', '\r'];
    assert(sep@ =~= seq![']', '\r']);
    let sec = split_range(&s, 0, s.len(), &sep);
    let ghost secs = split(text@, seq![']', '\r']);
    assert(s@.subrange(0, s@.len() as int) =~= s@);
    assert(pieces_of(s@, sec@) == secs);
    if sec.len() < 9 {
        return Err(ParseError::TooFewSections);
    }
    let (dlo, dhi) = sec[4];
    let (tlo, thi) = sec[6];
    let (hlo, hhi) = sec[8];
    assert(sec@[4].0 <= sec@[4].1 <= s@.len());
    assert(sec@[6].0 <= sec@[6].1 <= s@.len());
    assert(sec@[8].0 <= sec@[8].1 <= s@.len());
    assert(secs[4] == s@.subrange(dlo as int, dhi as int));
    assert(secs[6] == s@.subrange(tlo as int, thi as int));
    assert(secs[8] == s@.subrange(hlo as int, hhi as int));
    let difficulty_lines = body_lines_range(&s, dlo, dhi);
    let difficulty = read_difficulty_lines(&s, &difficulty_lines)?;
    let timing_lines = body_lines_range(&s, tlo, thi);
    let timing_points = read_timing_point_lines(&s, &timing_lines)?;
    let object_lines = lines_range(&s, hlo, hhi);
    let hit_objects = read_hit_object_lines(&s, &object_lines)?;
    Ok(OsuBeatmap { hit_objects, difficulty, timing_points })
}

/// A read hit object is a slider exactly when it has slider parameters, has
/// no spinner parameters, and plays the normal hit sound.
pub open spec fn hit_object_shape(h: HitObjectView) -> bool {
    &&& (h.slider_params is Some <==> h.hitobjecttype is Slider)
    &&& h.spinner_params is None
    &&& h.hitsound == OsuHitSound::Normal
}

proof fn lemma_hit_objects_shape(ls: Seq<Seq<char>>)
    ensures
        match read_hit_objects(ls) {
            Ok(hs) => hs.len() == ls.len() && forall|k: int|
                0 <= k < hs.len() ==> #[trigger] hit_object_shape(hs[k]),
            Err(_) => true,
        },
    decreases ls.len(),
{
    reveal(read_hit_object);
    if ls.len() > 0 {
        lemma_hit_objects_shape(ls.drop_last());
        match read_hit_objects(ls) {
            Ok(hs) => {
                let prev = read_hit_objects(ls.drop_last())->Ok_0;
                assert(hs == prev.push(hs.last()));
                assert forall|k: int| 0 <= k < hs.len() implies #[trigger] hit_object_shape(
                    hs[k],
                ) by {
                    if k < prev.len() {
                        assert(hs[k] == prev[k]);
                    }
                }
            },
            Err(_) => {},
        }
    }
}

proof fn lemma_timing_points_count(ls: Seq<Seq<char>>)
    ensures
        read_timing_points(ls) matches Ok(ps) ==> ps.len() == ls.len(),
    decreases ls.len(),
{
    if ls.len() > 0 {
        lemma_timing_points_count(ls.drop_last());
    }
}

/// A beatmap that is read has one hit object for each line of its HitObjects
/// section and one timing point for each line of its TimingPoints section
/// (but the last, and the empty ones), and each hit object has slider
/// parameters exactly when it is a slider, no spinner parameters, and the
/// normal hit sound.
pub proof fn law_beatmap_shape(text: Seq<char>)
    ensures
        parse_osu_spec(text) matches Ok(b) ==> {
            let sec = split(text, seq![']', '\r']);
            &&& b.hit_objects.len() == lines(sec[8]).len()
            &&& b.timing_points.len() == body_lines(sec[6]).len()
            &&& forall|k: int| 0 <= k < b.hit_objects.len() ==> #[trigger] hit_object_shape(
                b.hit_objects[k],
            )
        },
{
    let sec = split(text, seq![']', '\r']);
    if sec.len() >= 9 {
        lemma_hit_objects_shape(lines(sec[8]));
        lemma_timing_points_count(body_lines(sec[6]));
    }
}

/// Only the four lowest type bits decide what a hit object is.
pub proof fn law_type_low_bits(t: u8)
    ensures
        hit_object_type_of(t) == hit_object_type_of(t & 15u8),
{
    assert(t & 1u8 == (t & 15u8) & 1u8) by (bit_vector);
    assert((t >> 1u8) & 1u8 == ((t & 15u8) >> 1u8) & 1u8) by (bit_vector);
    assert((t >> 2u8) & 1u8 == ((t & 15u8) >> 2u8) & 1u8) by (bit_vector);
    assert((t >> 3u8) & 1u8 == ((t & 15u8) >> 3u8) & 1u8) by (bit_vector);
}

/// Each field of a timing point line that is read lands in its own place:
/// field `k` of the fields read is what the `k`-th field text reads as, and
/// the places without a field stay as in the all-zero timing point.
proof fn lemma_timing_fields_in_place(fs: Seq<Seq<char>>)
    ensures
        read_timing_fields(fs) matches Ok(p) ==> {
            &&& fs.len() <= 8
            &&& fs.len() > 0 ==> p.time as int == i32_field(fs[0]).unwrap() && i32_field(fs[0]) is Some
            &&& fs.len() == 0 ==> p.time == 0
            &&& fs.len() > 1 ==> parse_decimal_spec(fs[1]) == Some(p.beat_length)
            &&& fs.len() <= 1 ==> p.beat_length == zero_timing_point().beat_length
            &&& fs.len() > 2 ==> i32_field(fs[2]) == Some(p.meter as int)
            &&& fs.len() <= 2 ==> p.meter == 0
            &&& fs.len() > 3 ==> i32_field(fs[3]) == Some(p.sample_set as int)
            &&& fs.len() <= 3 ==> p.sample_set == 0
            &&& fs.len() > 4 ==> i32_field(fs[4]) == Some(p.sample_index as int)
            &&& fs.len() <= 4 ==> p.sample_index == 0
            &&& fs.len() > 5 ==> i32_field(fs[5]) == Some(p.volume as int)
            &&& fs.len() <= 5 ==> p.volume == 0
            &&& fs.len() > 6 ==> i32_field(fs[6]) is Some && p.uninherited == (i32_field(fs[6]) == Some(1int))
            &&& fs.len() <= 6 ==> !p.uninherited
            &&& fs.len() > 7 ==> i32_field(fs[7]) == Some(p.effects as int)
            &&& fs.len() <= 7 ==> p.effects == 0
        },
    decreases fs.len(),
{
    reveal(apply_timing_field);
    if fs.len() > 0 {
        let pre = fs.drop_last();
        lemma_timing_fields_in_place(pre);
        assert forall|k: int| 0 <= k < pre.len() implies #[trigger] pre[k] == fs[k] by {}
        assert(fs.last() == fs[fs.len() - 1]);
        if fs.len() > 1 {
            assert(pre[0] == fs[0]);
        }
        if fs.len() > 2 {
            assert(pre[1] == fs[1]);
        }
        if fs.len() > 3 {
            assert(pre[2] == fs[2]);
        }
        if fs.len() > 4 {
            assert(pre[3] == fs[3]);
        }
        if fs.len() > 5 {
            assert(pre[4] == fs[4]);
        }
        if fs.len() > 6 {
            assert(pre[5] == fs[5]);
        }
        if fs.len() > 7 {
            assert(pre[6] == fs[6]);
        }
        if fs.len() > 8 {
            assert(pre[7] == fs[7]);
        }
    }
}

/// A timing point line that is read has at most eight comma-separated
/// fields, each of which reads, and field `k` of the timing point (time,
/// beat length, meter, sample set, sample index, volume, uninherited,
/// effects) is what the `k`-th field says; fields the line leaves out are
/// zero (not uninherited).
pub proof fn law_timing_line_fields(l: Seq<char>)
    ensures
        read_timing_line(l) matches Ok(p) ==> {
            let fs = split(l, seq![',']);
            &&& fs.len() <= 8
            &&& i32_field(fs[0]) == Some(p.time as int)
            &&& fs.len() > 1 ==> parse_decimal_spec(fs[1]) == Some(p.beat_length)
            &&& fs.len() > 2 ==> i32_field(fs[2]) == Some(p.meter as int)
            &&& fs.len() > 3 ==> i32_field(fs[3]) == Some(p.sample_set as int)
            &&& fs.len() > 4 ==> i32_field(fs[4]) == Some(p.sample_index as int)
            &&& fs.len() > 5 ==> i32_field(fs[5]) == Some(p.volume as int)
            &&& fs.len() > 6 ==> i32_field(fs[6]) is Some && p.uninherited == (i32_field(fs[6]) == Some(1int))
            &&& fs.len() > 7 ==> i32_field(fs[7]) == Some(p.effects as int)
            &&& fs.len() <= 1 ==> p.beat_length == zero_timing_point().beat_length
            &&& fs.len() <= 2 ==> p.meter == 0
            &&& fs.len() <= 3 ==> p.sample_set == 0
            &&& fs.len() <= 4 ==> p.sample_index == 0
            &&& fs.len() <= 5 ==> p.volume == 0
            &&& fs.len() <= 6 ==> !p.uninherited
            &&& fs.len() <= 7 ==> p.effects == 0
        },
{
    lemma_timing_fields_in_place(split(l, seq![',']));
}

/// A curve whose points all read has one point per item, in order: the
/// `k`-th point is what the `k`-th item reads as, repeated points included.
pub proof fn law_points_one_per_item(items: Seq<Seq<char>>)
    ensures
        read_points(items) matches Ok(ps) ==> {
            &&& ps.len() == items.len()
            &&& forall|k: int| 0 <= k < items.len() ==> #[trigger] read_point(items[k]) == Ok::<Point, ParseError>(ps[k])
        },
    decreases items.len(),
{
    if items.len() > 0 {
        let pre = items.drop_last();
        law_points_one_per_item(pre);
        if read_points(items) is Ok {
            let ps = read_points(items).unwrap();
            assert forall|k: int| 0 <= k < items.len() implies #[trigger] read_point(items[k]) == Ok::<Point, ParseError>(ps[k]) by {
                if k < items.len() - 1 {
                    assert(pre[k] == items[k]);
                }
            }
        }
    }
}

/// A hit object line that is read has at least four fields, and its
/// position, time and kind are what fields 0 to 3 say; it is a slider
/// exactly when it has slider parameters, and then the curve type, the
/// curve points (one per `|`-separated item after the letter), the number
/// of slides and the length are what fields 5 to 7 say.
pub proof fn law_hit_object_fields(l: Seq<char>)
    ensures
        read_hit_object(l) matches Ok(h) ==> {
            let f = split(l, seq![',']);
            &&& f.len() >= 4
            &&& i32_field(f[0]) == Some(h.pos.x as int)
            &&& i32_field(f[1]) == Some(h.pos.y as int)
            &&& parse_decimal_spec(f[2]) == Some(h.time)
            &&& parse_int_spec(f[3], false, 0, 255) matches Some(tv) && hit_object_type_of(tv as u8) == Some(h.hitobjecttype)
            &&& h.hitsound == OsuHitSound::Normal
            &&& h.spinner_params is None
            &&& (h.hitobjecttype is Slider <==> h.slider_params is Some)
            &&& h.slider_params matches Some(sv) ==> {
                let c = split(f[5], seq!['|']);
                &&& f.len() >= 8
                &&& curve_type_of(c[0]) == Some(sv.curve_type)
                &&& read_points(c.drop_first()) == Ok::<Seq<Point>, ParseError>(sv.curve_points)
                &&& sv.curve_points.len() == c.len() - 1
                &&& parse_int_spec(f[6], false, 0, u32::MAX as int) == Some(sv.slides as int)
                &&& parse_decimal_spec(f[7]) == Some(sv.length)
            }
        },
{
    reveal(read_hit_object);
    let f = split(l, seq![',']);
    if f.len() >= 6 {
        let c = split(f[5], seq!['|']);
        law_points_one_per_item(c.drop_first());
    }
}

/// The key of a `Name:value` line of the Difficulty section.
pub open spec fn difficulty_key(l: Seq<char>) -> Seq<char> {
    split(l, seq![':'])[0]
}

/// The value that a `Name:value` line of the Difficulty section writes.
pub open spec fn difficulty_value(l: Seq<char>) -> Option<DecimalNumber> {
    parse_decimal_spec(split(l, seq![':'])[1])
}

/// The setting of `d` that `name` names, if the game knows the name.
pub open spec fn difficulty_setting(d: OsuDifficulty, name: Seq<char>) -> Option<DecimalNumber> {
    if name == "HPDrainRate"@ {
        Some(d.hp_drain)
    } else if name == "CircleSize"@ {
        Some(d.circle_size)
    } else if name == "OverallDifficulty"@ {
        Some(d.overall_diff)
    } else if name == "ApproachRate"@ {
        Some(d.approach_rate)
    } else if name == "SliderMultiplier"@ {
        Some(d.slider_multiplier)
    } else {
        None
    }
}

proof fn lemma_setting_names_differ()
    ensures
        "HPDrainRate"@.len() == 11,
        "CircleSize"@.len() == 10,
        "OverallDifficulty"@.len() == 17,
        "ApproachRate"@.len() == 12,
        "SliderMultiplier"@.len() == 16,
{
    reveal_strlit("HPDrainRate");
    reveal_strlit("CircleSize");
    reveal_strlit("OverallDifficulty");
    reveal_strlit("ApproachRate");
    reveal_strlit("SliderMultiplier");
}

proof fn lemma_difficulty_last_line(ls: Seq<Seq<char>>, name: Seq<char>, k: int)
    requires
        difficulty_setting(default_difficulty(), name) is Some,
    ensures
        read_difficulty(ls) matches Ok(d) ==> {
            &&& (0 <= k < ls.len() && difficulty_key(ls[k]) == name && (forall|j: int|
                k < j < ls.len() ==> difficulty_key(#[trigger] ls[j]) != name))
                ==> difficulty_setting(d, name) == difficulty_value(ls[k])
            &&& (forall|j: int| 0 <= j < ls.len() ==> difficulty_key(#[trigger] ls[j]) != name)
                ==> difficulty_setting(d, name) == difficulty_setting(default_difficulty(), name)
        },
    decreases ls.len(),
{
    lemma_setting_names_differ();
    if ls.len() > 0 {
        let pre = ls.drop_last();
        lemma_difficulty_last_line(pre, name, k);
        let l = ls.last();
        assert(l == ls[ls.len() - 1]);
        if read_difficulty(ls) is Ok {
            assert forall|j: int| 0 <= j < pre.len() implies #[trigger] pre[j] == ls[j] by {}
            if 0 <= k < pre.len() && difficulty_key(ls[k]) == name && (forall|j: int|
                k < j < ls.len() ==> difficulty_key(#[trigger] ls[j]) != name) {
                assert(difficulty_key(ls[ls.len() - 1]) != name);
                assert(pre[k] == ls[k]);
                assert forall|j: int| k < j < pre.len() implies difficulty_key(#[trigger] pre[j]) != name by {
                    assert(pre[j] == ls[j]);
                }
            }
            if forall|j: int| 0 <= j < ls.len() ==> difficulty_key(#[trigger] ls[j]) != name {
                assert(difficulty_key(ls[ls.len() - 1]) != name);
                assert forall|j: int| 0 <= j < pre.len() implies difficulty_key(#[trigger] pre[j]) != name by {
                    assert(pre[j] == ls[j]);
                }
            }
        }
    }
}

/// For each setting the game knows (`HPDrainRate`, `CircleSize`,
/// `OverallDifficulty`, `ApproachRate`, `SliderMultiplier`), the setting
/// read is the value of the last line with that key, whatever other lines
/// say, and the default (5, 5, 5, 8, 5) when no line has that key.
pub proof fn law_difficulty_last_line_wins(ls: Seq<Seq<char>>, name: Seq<char>, k: int)
    ensures
        read_difficulty(ls) matches Ok(d) ==> {
            &&& (name == "HPDrainRate"@ || name == "CircleSize"@ || name == "OverallDifficulty"@
                || name == "ApproachRate"@ || name == "SliderMultiplier"@) ==> {
                &&& (0 <= k < ls.len() && difficulty_key(ls[k]) == name && (forall|j: int|
                    k < j < ls.len() ==> difficulty_key(#[trigger] ls[j]) != name))
                    ==> difficulty_setting(d, name) == difficulty_value(ls[k])
                &&& (forall|j: int| 0 <= j < ls.len() ==> difficulty_key(#[trigger] ls[j]) != name)
                    ==> difficulty_setting(d, name) == difficulty_setting(default_difficulty(), name)
            }
            &&& difficulty_setting(d, "HPDrainRate"@) == Some(d.hp_drain)
            &&& difficulty_setting(d, "CircleSize"@) == Some(d.circle_size)
            &&& difficulty_setting(d, "OverallDifficulty"@) == Some(d.overall_diff)
            &&& difficulty_setting(d, "ApproachRate"@) == Some(d.approach_rate)
            &&& difficulty_setting(d, "SliderMultiplier"@) == Some(d.slider_multiplier)
        },
{
    lemma_setting_names_differ();
    if name == "HPDrainRate"@ || name == "CircleSize"@ || name == "OverallDifficulty"@
        || name == "ApproachRate"@ || name == "SliderMultiplier"@ {
        lemma_difficulty_last_line(ls, name, k);
    }
}

} // verus!
