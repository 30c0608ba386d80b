//! Character-level text handling: white space, trimming and splitting.
//!
//! A text is held as a `Vec<char>`; a piece of it is a pair of indices
//! `(lo, hi)` into that vector, so that splitting never copies characters.
use vstd::prelude::*;
use vstd::std_specs::iter::IteratorSpec;

verus! {

/// The characters with the Unicode `White_Space` property, which is what
/// `char::is_whitespace` (and so `str::trim`) goes by.
pub open spec fn is_whitespace(c: char) -> bool {
    ||| ('\u{9}' <= c && c <= '\u{D}')
    ||| c == ' '
    ||| c == '\u{85}'
    ||| c == '\u{A0}'
    ||| c == '\u{1680}'
    ||| ('\u{2000}' <= c && c <= '\u{200A}')
    ||| c == '\u{2028}'
    ||| c == '\u{2029}'
    ||| c == '\u{202F}'
    ||| c == '\u{205F}'
    ||| c == '\u{3000}'
}

/// The text with its leading white space removed.
pub open spec fn trim_start(s: Seq<char>) -> Seq<char>
    decreases s.len(),
{
    if s.len() > 0 && is_whitespace(s[0]) {
        trim_start(s.drop_first())
    } else {
        s
    }
}

/// The text with its trailing white space removed.
pub open spec fn trim_end(s: Seq<char>) -> Seq<char>
    decreases s.len(),
{
    if s.len() > 0 && is_whitespace(s.last()) {
        trim_end(s.drop_last())
    } else {
        s
    }
}

/// The text with white space removed at both ends, as `str::trim` gives it.
pub open spec fn trim(s: Seq<char>) -> Seq<char> {
    trim_end(trim_start(s))
}

/// Whether `pat` occurs in `s` at index `i`.
pub open spec fn occurs_at(s: Seq<char>, pat: Seq<char>, i: int) -> bool {
    0 <= i && i + pat.len() <= s.len() && s.subrange(i, i + pat.len()) == pat
}

/// The first index at or after `i` where `pat` occurs in `s`, or -1.
pub open spec fn find_from(s: Seq<char>, pat: Seq<char>, i: int) -> int
    decreases s.len() - i,
{
    if pat.len() == 0 || i < 0 || i + pat.len() > s.len() {
        -1
    } else if s.subrange(i, i + pat.len()) == pat {
        i
    } else {
        find_from(s, pat, i + 1)
    }
}

/// The pieces of `s[start..]` between the occurrences of `pat`, taken from
/// left to right without overlap.
pub open spec fn split_from(s: Seq<char>, pat: Seq<char>, start: int) -> Seq<Seq<char>>
    decreases s.len() - start,
{
    let m = find_from(s, pat, start);
    if 0 <= start <= m && m + pat.len() <= s.len() && pat.len() > 0 {
        seq![s.subrange(start, m)].add(split_from(s, pat, m + pat.len()))
    } else {
        seq![s.subrange(start, s.len() as int)]
    }
}

/// The pieces of `s` between the occurrences of `pat`, as `str::split` with
/// a non-empty string pattern yields them (for an empty `pat` it is just
/// `s`, which is not what `str::split` gives).
pub open spec fn split(s: Seq<char>, pat: Seq<char>) -> Seq<Seq<char>> {
    split_from(s, pat, 0)
}

/// The pieces joined again, with `sep` between each two of them.
pub open spec fn join(pieces: Seq<Seq<char>>, sep: Seq<char>) -> Seq<char>
    decreases pieces.len(),
{
    if pieces.len() == 0 {
        Seq::empty()
    } else if pieces.len() == 1 {
        pieces[0]
    } else {
        pieces[0] + sep + join(pieces.drop_first(), sep)
    }
}

/// The characters that the pieces, given as index pairs into `s`, stand for.
pub open spec fn pieces_of(s: Seq<char>, ranges: Seq<(usize, usize)>) -> Seq<Seq<char>> {
    ranges.map_values(|r: (usize, usize)| s.subrange(r.0 as int, r.1 as int))
}

/// Every piece lies inside `s`.
pub open spec fn ranges_in(ranges: Seq<(usize, usize)>, len: int) -> bool {
    forall|k: int| 0 <= k < ranges.len() ==> #[trigger] ranges[k].0 <= ranges[k].1 <= len
}

/// The characters of a string, in order.
pub fn chars_of(s: &str) -> (r: Vec<char>)
    ensures
        r@ == s@,
{
    broadcast use vstd::string::axiom_spec_iter, vstd::string::next_postcondition;

    let mut it = s.chars();
    let mut v: Vec<char> = Vec::new();
    loop
        invariant
            v@ + it.remaining() == s@,
            it.obeys_prophetic_iter_laws(),
            it.decrease() is Some,
        decreases it.decrease()->0,
    {
        match it.next() {
            Some(c) => {
                v.push(c);
            },
            None => {
                return v;
            },
        }
    }
}

/// Whether `c` is white space in the sense of `is_whitespace`.
pub fn char_is_whitespace(c: char) -> (r: bool)
    ensures
        r == is_whitespace(c),
{
    ('\u{9}' <= c && c <= '\u{D}') || c == ' ' || c == '\u{85}' || c == '\u{A0}' || c
        == '\u{1680}' || ('\u{2000}' <= c && c <= '\u{200A}') || c == '\u{2028}' || c
        == '\u{2029}' || c == '\u{202F}' || c == '\u{205F}' || c == '\u{3000}'
}

/// The piece `s[lo..hi]` with white space removed at both ends.
pub fn trim_range(s: &Vec<char>, lo: usize, hi: usize) -> (r: (usize, usize))
    requires
        lo <= hi <= s@.len(),
    ensures
        lo <= r.0 <= r.1 <= hi,
        s@.subrange(r.0 as int, r.1 as int) == trim(s@.subrange(lo as int, hi as int)),
{
    let mut a = lo;
    while a < hi && char_is_whitespace(s[a])
        invariant
            lo <= a <= hi <= s@.len(),
            trim_start(s@.subrange(lo as int, hi as int)) == trim_start(
                s@.subrange(a as int, hi as int),
            ),
        decreases hi - a,
    {
        assert(s@.subrange(a as int, hi as int).drop_first() =~= s@.subrange(
            a + 1,
            hi as int,
        ));
        a = a + 1;
    }
    assert(trim_start(s@.subrange(a as int, hi as int)) == s@.subrange(a as int, hi as int));
    let mut b = hi;
    while b > a && char_is_whitespace(s[b - 1])
        invariant
            lo <= a <= b <= hi <= s@.len(),
            trim_end(s@.subrange(a as int, hi as int)) == trim_end(
                s@.subrange(a as int, b as int),
            ),
        decreases b - a,
    {
        assert(s@.subrange(a as int, b as int).drop_last() =~= s@.subrange(
            a as int,
            b - 1,
        ));
        b = b - 1;
    }
    (a, b)
}

/// Whether the characters `pat` occur in `s` at index `i`.
fn occurs_here(s: &Vec<char>, hi: usize, i: usize, pat: &Vec<char>) -> (r: bool)
    requires
        i + pat@.len() <= hi <= s@.len(),
    ensures
        r == (s@.subrange(i as int, i + pat@.len()) == pat@),
{
    let mut k: usize = 0;
    while k < pat.len()
        invariant
            i + pat@.len() <= hi <= s@.len(),
            k <= pat@.len(),
            forall|j: int| 0 <= j < k ==> s@[i + j] == pat@[j],
        decreases pat@.len() - k,
    {
        if s[i + k] != pat[k] {
            assert(s@.subrange(i as int, i + pat@.len())[k as int] != pat@[k as int]);
            return false;
        }
        k = k + 1;
    }
    assert(s@.subrange(i as int, i + pat@.len()) =~= pat@);
    true
}

/// One step of the search: no occurrence at `i` means the first occurrence
/// from `i` is the first one from `i + 1`.
proof fn lemma_find_step(s: Seq<char>, pat: Seq<char>, i: int)
    requires
        pat.len() > 0,
        0 <= i,
        i + pat.len() <= s.len(),
        s.subrange(i, i + pat.len()) != pat,
    ensures
        find_from(s, pat, i) == find_from(s, pat, i + 1),
{
}

/// The first occurrence found from `i` lies at or after `i`, and is an occurrence.
pub proof fn lemma_find_from_bounds(s: Seq<char>, pat: Seq<char>, i: int)
    requires
        0 <= i,
    ensures
        find_from(s, pat, i) == -1 || (i <= find_from(s, pat, i) && occurs_at(
            s,
            pat,
            find_from(s, pat, i),
        )),
    decreases s.len() - i,
{
    if pat.len() == 0 || i + pat.len() > s.len() {
    } else if s.subrange(i, i + pat.len()) == pat {
    } else {
        lemma_find_from_bounds(s, pat, i + 1);
    }
}

/// The pieces of `s[lo..hi]` between the occurrences of `pat`, as index pairs.
pub fn split_range(s: &Vec<char>, lo: usize, hi: usize, pat: &Vec<char>) -> (r: Vec<(usize, usize)>)
    requires
        lo <= hi <= s@.len(),
        pat@.len() > 0,
    ensures
        pieces_of(s@, r@) == split(s@.subrange(lo as int, hi as int), pat@),
        ranges_in(r@, s@.len() as int),
        r@.len() >= 1,
{
    let ghost x = s@.subrange(lo as int, hi as int);
    let ghost p = pat@;
    let mut out: Vec<(usize, usize)> = Vec::new();
    let mut start = lo;
    let mut i = lo;
    let n = pat.len();
    while i <= hi && n <= hi - i
        invariant
            lo <= start <= i <= hi <= s@.len(),
            n == p.len(),
            n > 0,
            x == s@.subrange(lo as int, hi as int),
            p == pat@,
            pieces_of(s@, out@) + split_from(x, p, start - lo) == split(x, p),
            find_from(x, p, start - lo) == find_from(x, p, i - lo),
            ranges_in(out@, s@.len() as int),
        decreases hi - i,
    {
        assert(x.subrange(i - lo, i - lo + n) =~= s@.subrange(i as int, i + n));
        if occurs_here(s, hi, i, pat) {
            proof {
                assert(find_from(x, p, i - lo) == i - lo);
                let rest = split_from(x, p, i - lo + n);
                assert(split_from(x, p, start - lo) == seq![x.subrange(start - lo, i - lo)].add(
                    rest,
                ));
                assert(x.subrange(start - lo, i - lo) =~= s@.subrange(start as int, i as int));
            }
            let ghost before = out@;
            out.push((start, i));
            proof {
                assert forall|k: int| 0 <= k < out@.len() implies #[trigger] out@[k].0 <= out@[k].1
                    <= s@.len() by {
                    if k < before.len() {
                        assert(out@[k] == before[k]);
                    }
                }
                assert(pieces_of(s@, out@) =~= pieces_of(s@, before).push(
                    s@.subrange(start as int, i as int),
                ));
                assert(pieces_of(s@, out@) + split_from(x, p, i + n - lo) =~= pieces_of(
                    s@,
                    before,
                ) + (seq![s@.subrange(start as int, i as int)].add(
                    split_from(x, p, i + n - lo),
                )));
            }
            start = i + n;
            i = i + n;
        } else {
            proof {
                lemma_find_step(x, p, i - lo);
            }
            i = i + 1;
        }
    }
    proof {
        assert(find_from(x, p, i - lo) == -1);
        assert(split_from(x, p, start - lo) == seq![x.subrange(start - lo, x.len() as int)]);
        assert(x.subrange(start - lo, x.len() as int) =~= s@.subrange(start as int, hi as int));
    }
    let ghost before = out@;
    out.push((start, hi));
    assert forall|k: int| 0 <= k < out@.len() implies #[trigger] out@[k].0 <= out@[k].1
        <= s@.len() by {
        if k < before.len() {
            assert(out@[k] == before[k]);
        }
    }
    assert(pieces_of(s@, out@) =~= pieces_of(s@, before).push(
        s@.subrange(start as int, hi as int),
    ));
    assert(ranges_in(out@, s@.len() as int));
    out
}

/// Whether the piece `s[lo..hi]` is the same text as `word`.
pub fn range_eq(s: &Vec<char>, lo: usize, hi: usize, word: &Vec<char>) -> (r: bool)
    requires
        lo <= hi <= s@.len(),
    ensures
        r == (s@.subrange(lo as int, hi as int) == word@),
{
    if hi - lo != word.len() {
        return false;
    }
    let mut k: usize = 0;
    while k < word.len()
        invariant
            lo <= hi <= s@.len(),
            hi - lo == word@.len(),
            k <= word@.len(),
            forall|j: int| 0 <= j < k ==> s@[lo + j] == word@[j],
        decreases word@.len() - k,
    {
        if s[lo + k] != word[k] {
            assert(s@.subrange(lo as int, hi as int)[k as int] != word@[k as int]);
            return false;
        }
        k = k + 1;
    }
    assert(s@.subrange(lo as int, hi as int) =~= word@);
    true
}

/// The pieces that `split_from` gives are never none.
proof fn lemma_split_from_nonempty(s: Seq<char>, pat: Seq<char>, start: int)
    ensures
        split_from(s, pat, start).len() >= 1,
    decreases s.len() - start,
{
    let m = find_from(s, pat, start);
    if 0 <= start <= m && m + pat.len() <= s.len() && pat.len() > 0 {
        lemma_split_from_nonempty(s, pat, m + pat.len());
    }
}

proof fn lemma_join_split_from(s: Seq<char>, pat: Seq<char>, start: int)
    requires
        pat.len() > 0,
        0 <= start <= s.len(),
    ensures
        join(split_from(s, pat, start), pat) == s.subrange(start, s.len() as int),
    decreases s.len() - start,
{
    let m = find_from(s, pat, start);
    lemma_find_from_bounds(s, pat, start);
    if 0 <= start <= m && m + pat.len() <= s.len() {
        let rest = split_from(s, pat, m + pat.len());
        lemma_join_split_from(s, pat, m + pat.len());
        lemma_split_from_nonempty(s, pat, m + pat.len());
        let pieces = seq![s.subrange(start, m)].add(rest);
        assert(pieces.drop_first() =~= rest);
        assert(pieces[0] == s.subrange(start, m));
        assert(s.subrange(m, m + pat.len()) == pat);
        assert(s.subrange(start, m) + pat + s.subrange(m + pat.len(), s.len() as int) =~= s.subrange(
            start,
            s.len() as int,
        ));
    }
}

/// Splitting loses nothing: joining the pieces again with the separator
/// gives back the text.
pub proof fn law_join_split(s: Seq<char>, pat: Seq<char>)
    requires
        pat.len() > 0,
    ensures
        join(split(s, pat), pat) == s,
{
    lemma_join_split_from(s, pat, 0);
    assert(s.subrange(0, s.len() as int) =~= s);
}

proof fn lemma_trim_start_shape(s: Seq<char>)
    ensures
        trim_start(s).len() <= s.len(),
        trim_start(s) == s.subrange(s.len() - trim_start(s).len(), s.len() as int),
        trim_start(s).len() > 0 ==> !is_whitespace(trim_start(s)[0]),
    decreases s.len(),
{
    if s.len() > 0 && is_whitespace(s[0]) {
        lemma_trim_start_shape(s.drop_first());
        let t = trim_start(s.drop_first());
        assert(s.drop_first().subrange(s.len() - 1 - t.len(), s.len() - 1) =~= s.subrange(
            s.len() - t.len(),
            s.len() as int,
        ));
    } else {
        assert(s.subrange(0, s.len() as int) =~= s);
    }
}

proof fn lemma_trim_end_shape(s: Seq<char>)
    ensures
        trim_end(s).len() <= s.len(),
        trim_end(s) == s.subrange(0, trim_end(s).len() as int),
        trim_end(s).len() > 0 ==> !is_whitespace(trim_end(s).last()),
        s.len() > 0 && !is_whitespace(s[0]) ==> trim_end(s).len() > 0,
    decreases s.len(),
{
    if s.len() > 0 && is_whitespace(s.last()) {
        lemma_trim_end_shape(s.drop_last());
        let t = trim_end(s.drop_last());
        assert(s.drop_last().subrange(0, t.len() as int) =~= s.subrange(0, t.len() as int));
        if s.len() > 1 && !is_whitespace(s[0]) {
            assert(s.drop_last()[0] == s[0]);
        }
    } else {
        assert(s.subrange(0, s.len() as int) =~= s);
    }
}

/// Trimming leaves no white space at either end of the text, and takes a
/// piece of it.
pub proof fn law_trim_ends(s: Seq<char>)
    ensures
        trim(s).len() > 0 ==> !is_whitespace(trim(s)[0]) && !is_whitespace(trim(s).last()),
        exists|i: int|
            0 <= i <= s.len() - trim(s).len() && trim(s) == #[trigger] s.subrange(i, i + trim(s).len()),
{
    lemma_trim_start_shape(s);
    let a = trim_start(s);
    lemma_trim_end_shape(a);
    let t = trim_end(a);
    if t.len() > 0 {
        assert(t[0] == a[0]);
    }
    let i = s.len() - a.len();
    assert(t == s.subrange(i, i + t.len())) by {
        assert(a.subrange(0, t.len() as int) =~= s.subrange(i, i + t.len()));
    }
}

/// Trimming twice is trimming once.
pub proof fn law_trim_idempotent(s: Seq<char>)
    ensures
        trim(trim(s)) == trim(s),
{
    law_trim_ends(s);
    let t = trim(s);
    if t.len() > 0 {
        assert(trim_start(t) == t);
        assert(trim_end(t) == t);
    } else {
        assert(trim_start(t) == t);
    }
}

/// No occurrence of `pat` lies before the first one found from `i`.
proof fn lemma_find_from_first(s: Seq<char>, pat: Seq<char>, i: int, j: int)
    requires
        pat.len() > 0,
        0 <= i <= j,
        occurs_at(s, pat, j),
    ensures
        i <= find_from(s, pat, i) <= j,
    decreases s.len() - i,
{
    if s.subrange(i, i + pat.len()) != pat {
        lemma_find_from_first(s, pat, i + 1, j);
    }
}

/// A piece `s[start..end]` in which `pat` occurs gives an occurrence in `s`.
proof fn lemma_occurs_in_piece(s: Seq<char>, pat: Seq<char>, start: int, end: int, j: int)
    requires
        0 <= start <= end <= s.len(),
        occurs_at(s.subrange(start, end), pat, j),
    ensures
        occurs_at(s, pat, start + j),
        start + j + pat.len() <= end,
{
    assert(s.subrange(start, end).subrange(j, j + pat.len()) =~= s.subrange(
        start + j,
        start + j + pat.len(),
    ));
}

proof fn lemma_split_from_lacks(s: Seq<char>, pat: Seq<char>, start: int)
    requires
        pat.len() > 0,
        0 <= start <= s.len(),
    ensures
        forall|k: int, j: int|
            0 <= k < split_from(s, pat, start).len() ==> !#[trigger] occurs_at(split_from(s, pat, start)[k], pat, j),
    decreases s.len() - start,
{
    let m = find_from(s, pat, start);
    lemma_find_from_bounds(s, pat, start);
    let pieces = split_from(s, pat, start);
    if 0 <= start <= m && m + pat.len() <= s.len() {
        lemma_split_from_lacks(s, pat, m + pat.len());
        let rest = split_from(s, pat, m + pat.len());
        assert forall|k: int, j: int| 0 <= k < pieces.len() implies !#[trigger] occurs_at(pieces[k], pat, j) by {
            if k == 0 {
                if occurs_at(pieces[0], pat, j) {
                    lemma_occurs_in_piece(s, pat, start, m, j);
                    lemma_find_from_first(s, pat, start, start + j);
                }
            } else {
                assert(pieces[k] == rest[k - 1]);
            }
        }
    } else {
        assert forall|k: int, j: int| 0 <= k < pieces.len() implies !#[trigger] occurs_at(pieces[k], pat, j) by {
            if occurs_at(pieces[0], pat, j) {
                lemma_occurs_in_piece(s, pat, start, s.len() as int, j);
                lemma_find_from_first(s, pat, start, start + j);
            }
        }
    }
}

/// No piece of a split holds the separator.
pub proof fn law_split_pieces_lack_separator(s: Seq<char>, pat: Seq<char>)
    requires
        pat.len() > 0,
    ensures
        forall|k: int, j: int|
            0 <= k < split(s, pat).len() ==> !#[trigger] occurs_at(split(s, pat)[k], pat, j),
{
    lemma_split_from_lacks(s, pat, 0);
}

proof fn lemma_trim_start_removed(s: Seq<char>)
    ensures
        forall|j: int| 0 <= j < s.len() - trim_start(s).len() ==> is_whitespace(#[trigger] s[j]),
    decreases s.len(),
{
    if s.len() > 0 && is_whitespace(s[0]) {
        lemma_trim_start_removed(s.drop_first());
        assert forall|j: int| 0 <= j < s.len() - trim_start(s).len() implies is_whitespace(#[trigger] s[j]) by {
            if j > 0 {
                assert(s[j] == s.drop_first()[j - 1]);
            }
        }
    }
}

proof fn lemma_trim_end_removed(s: Seq<char>)
    ensures
        forall|j: int| trim_end(s).len() <= j < s.len() ==> is_whitespace(#[trigger] s[j]),
    decreases s.len(),
{
    if s.len() > 0 && is_whitespace(s.last()) {
        lemma_trim_end_removed(s.drop_last());
        lemma_trim_end_shape(s.drop_last());
        assert forall|j: int| trim_end(s).len() <= j < s.len() implies is_whitespace(#[trigger] s[j]) by {
            if j < s.len() - 1 {
                assert(s[j] == s.drop_last()[j]);
            }
        }
    }
}

/// Trimming removes white space only: the text is the trimmed text with
/// nothing but white space before and after it.
pub proof fn law_trim_removes_only_white_space(s: Seq<char>)
    ensures
        exists|i: int|
            0 <= i && i + trim(s).len() <= s.len() && #[trigger] s.subrange(i, i + trim(s).len())
                == trim(s) && (forall|j: int| 0 <= j < i ==> is_whitespace(#[trigger] s[j])) && (
            forall|j: int| i + trim(s).len() <= j < s.len() ==> is_whitespace(#[trigger] s[j])),
{
    lemma_trim_start_shape(s);
    lemma_trim_start_removed(s);
    let a = trim_start(s);
    lemma_trim_end_shape(a);
    lemma_trim_end_removed(a);
    let t = trim_end(a);
    let i = s.len() - a.len();
    assert(t == s.subrange(i, i + t.len())) by {
        assert(a.subrange(0, t.len() as int) =~= s.subrange(i, i + t.len()));
    }
    assert forall|j: int| i + t.len() <= j < s.len() implies is_whitespace(#[trigger] s[j]) by {
        assert(s[j] == a[j - i]);
    }
    assert(trim(s) == t);
    assert(forall|j: int| 0 <= j < i ==> is_whitespace(#[trigger] s[j]));
    assert(s.subrange(i, i + trim(s).len()) == trim(s));
}

} // verus!
