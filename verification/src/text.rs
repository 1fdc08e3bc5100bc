//! Characters, lines and fields: the lexical layer under a script.

use vstd::prelude::*;

verus! {

/// Whether `c` is white space in the sense of Unicode's `White_Space` property.
pub open spec fn is_space(c: char) -> bool {
    ||| '\u{9}' <= c <= '\u{d}'
    ||| c == ' '
    ||| c == '\u{85}'
    ||| c == '\u{a0}'
    ||| c == '\u{1680}'
    ||| '\u{2000}' <= c <= '\u{200a}'
    ||| c == '\u{2028}'
    ||| c == '\u{2029}'
    ||| c == '\u{202f}'
    ||| c == '\u{205f}'
    ||| c == '\u{3000}'
}

/// Index of the first character of `s` at or after `from` that is no white
/// space, or the length of `s` where there is none.
pub open spec fn skip_space(s: Seq<char>, from: int) -> int
    decreases s.len() - from,
{
    if 0 <= from < s.len() && is_space(s[from]) {
        skip_space(s, from + 1)
    } else {
        from
    }
}

/// Index just behind the last character of `s` before `to` that is no white
/// space, never less than `low`.
pub open spec fn skip_space_back(s: Seq<char>, low: int, to: int) -> int
    decreases to - low,
{
    if low < to <= s.len() && 0 <= low && is_space(s[to - 1]) {
        skip_space_back(s, low, to - 1)
    } else {
        to
    }
}

/// `s` without the white space at its two ends.
pub open spec fn trimmed(s: Seq<char>) -> Seq<char> {
    let start = skip_space(s, 0);
    s.subrange(start, skip_space_back(s, start, s.len() as int))
}

/// Index of the first `sep` in `s` at or after `from`, or the length of `s`
/// where there is none.
pub open spec fn find(s: Seq<char>, sep: char, from: int) -> int
    decreases s.len() - from,
{
    if 0 <= from < s.len() && s[from] != sep {
        find(s, sep, from + 1)
    } else {
        from
    }
}

/// The pieces of `s` between occurrences of `sep`, starting at `from`. A text
/// without `sep` is one piece; an empty text is one empty piece.
pub open spec fn pieces_from(s: Seq<char>, sep: char, from: int) -> Seq<Seq<char>>
    decreases s.len() - from,
{
    let stop = find(s, sep, from);
    if 0 <= from <= stop < s.len() {
        seq![s.subrange(from, stop)] + pieces_from(s, sep, stop + 1)
    } else if 0 <= from <= s.len() {
        seq![s.subrange(from, s.len() as int)]
    } else {
        seq![]
    }
}

/// The pieces of `s` between occurrences of `sep`.
pub open spec fn pieces(s: Seq<char>, sep: char) -> Seq<Seq<char>> {
    pieces_from(s, sep, 0)
}

proof fn lemma_skip_space_bounds(s: Seq<char>, from: int)
    requires
        0 <= from <= s.len(),
    ensures
        from <= skip_space(s, from) <= s.len(),
        forall|i: int| from <= i < skip_space(s, from) ==> is_space(#[trigger] s[i]),
        skip_space(s, from) < s.len() ==> !is_space(s[skip_space(s, from)]),
    decreases s.len() - from,
{
    if from < s.len() && is_space(s[from]) {
        lemma_skip_space_bounds(s, from + 1);
    }
}

proof fn lemma_skip_space_back_bounds(s: Seq<char>, low: int, to: int)
    requires
        0 <= low <= to <= s.len(),
    ensures
        low <= skip_space_back(s, low, to) <= to,
        forall|i: int| skip_space_back(s, low, to) <= i < to ==> is_space(#[trigger] s[i]),
        low < skip_space_back(s, low, to) ==> !is_space(s[skip_space_back(s, low, to) - 1]),
    decreases to - low,
{
    if low < to && is_space(s[to - 1]) {
        lemma_skip_space_back_bounds(s, low, to - 1);
    }
}

pub proof fn lemma_find_bounds(s: Seq<char>, sep: char, from: int)
    requires
        0 <= from <= s.len(),
    ensures
        from <= find(s, sep, from) <= s.len(),
        forall|i: int| from <= i < find(s, sep, from) ==> #[trigger] s[i] != sep,
        find(s, sep, from) < s.len() ==> s[find(s, sep, from)] == sep,
    decreases s.len() - from,
{
    if from < s.len() && s[from] != sep {
        lemma_find_bounds(s, sep, from + 1);
    }
}

/// Whether `c` is white space: what `char::is_whitespace` answers.
pub fn is_whitespace(c: char) -> (b: bool)
    ensures
        b == is_space(c),
{
    ('\u{9}' <= c && c <= '\u{d}') || c == ' ' || c == '\u{85}' || c == '\u{a0}' || c
        == '\u{1680}' || ('\u{2000}' <= c && c <= '\u{200a}') || c == '\u{2028}' || c
        == '\u{2029}' || c == '\u{202f}' || c == '\u{205f}' || c == '\u{3000}'
}

/// The characters of `s`, in order.
pub fn chars_of(s: &str) -> (v: Vec<char>)
    ensures
        v@ == s@,
{
    let mut v: Vec<char> = Vec::new();
    let chars = s.chars();
    for c in iter: chars
        invariant
            iter.seq() == s@,
            v@ == iter.seq().take(iter.index() as int),
    {
        v.push(c);
    }
    v
}

/// A copy of `s[from..to]`.
pub fn slice_of(s: &Vec<char>, from: usize, to: usize) -> (v: Vec<char>)
    requires
        from <= to <= s.len(),
    ensures
        v@ == s@.subrange(from as int, to as int),
{
    let mut v: Vec<char> = Vec::new();
    let mut i: usize = from;
    while i < to
        invariant
            from <= i <= to <= s.len(),
            v@ == s@.subrange(from as int, i as int),
        decreases to - i,
    {
        v.push(s[i]);
        i += 1;
    }
    v
}

/// `s` without the white space at its two ends, as `str::trim` leaves it.
pub fn trim(s: &Vec<char>) -> (v: Vec<char>)
    ensures
        v@ == trimmed(s@),
{
    let mut start: usize = 0;
    while start < s.len() && is_whitespace(s[start])
        invariant
            start <= s.len(),
            skip_space(s@, start as int) == skip_space(s@, 0),
        decreases s.len() - start,
    {
        start += 1;
    }
    let mut end: usize = s.len();
    while start < end && is_whitespace(s[end - 1])
        invariant
            start <= end <= s.len(),
            skip_space_back(s@, start as int, end as int) == skip_space_back(
                s@,
                start as int,
                s@.len() as int,
            ),
        decreases end - start,
    {
        end -= 1;
    }
    slice_of(s, start, end)
}

/// The pieces of `s` between occurrences of `sep`, as `str::split` yields them.
pub fn split(s: &Vec<char>, sep: char) -> (parts: Vec<Vec<char>>)
    ensures
        parts@.len() == pieces(s@, sep).len(),
        forall|i: int| 0 <= i < parts@.len() ==> (#[trigger] parts@[i])@ == pieces(s@, sep)[i],
{
    let mut parts: Vec<Vec<char>> = Vec::new();
    let mut from: usize = 0;
    let mut i: usize = 0;
    while i < s.len()
        invariant
            from <= i <= s.len(),
            find(s@, sep, i as int) == find(s@, sep, from as int),
            pieces(s@, sep) == parts@.map_values(|p: Vec<char>| p@) + pieces_from(
                s@,
                sep,
                from as int,
            ),
        decreases s.len() - i,
    {
        if s[i] == sep {
            let part = slice_of(s, from, i);
            proof {
                let done = parts@.map_values(|p: Vec<char>| p@);
                let next = parts@.push(part).map_values(|p: Vec<char>| p@);
                assert(next =~= done + seq![part@]);
                assert(pieces_from(s@, sep, from as int) == seq![part@] + pieces_from(
                    s@,
                    sep,
                    i + 1,
                ));
                assert(done + (seq![part@] + pieces_from(s@, sep, i + 1)) =~= done + seq![part@]
                    + pieces_from(s@, sep, i + 1));
            }
            parts.push(part);
            from = i + 1;
        }
        i += 1;
    }
    let part = slice_of(s, from, s.len());
    proof {
        let done = parts@.map_values(|p: Vec<char>| p@);
        let next = parts@.push(part).map_values(|p: Vec<char>| p@);
        assert(next =~= done + seq![part@]);
        assert(pieces_from(s@, sep, from as int) == seq![part@]);
        assert(pieces(s@, sep) == next);
        assert forall|k: int| 0 <= k < next.len() implies (#[trigger] parts@.push(part)[k])@
            == pieces(s@, sep)[k] by {
            assert(next[k] == parts@.push(part)[k]@);
        }
    }
    parts.push(part);
    parts
}


/// Searching behind a prefix is searching in what follows it.
pub proof fn lemma_find_shift(p: Seq<char>, y: Seq<char>, sep: char, j: int)
    requires
        0 <= j <= y.len(),
    ensures
        find(p + y, sep, p.len() + j) == p.len() + find(y, sep, j),
    decreases y.len() - j,
{
    if j < y.len() && y[j] != sep {
        assert((p + y)[p.len() + j] == y[j]);
        lemma_find_shift(p, y, sep, j + 1);
    } else if j < y.len() {
        assert((p + y)[p.len() + j] == y[j]);
    }
}

/// The pieces behind a prefix are the pieces of what follows it.
pub proof fn lemma_pieces_shift(p: Seq<char>, y: Seq<char>, sep: char, j: int)
    requires
        0 <= j <= y.len(),
    ensures
        pieces_from(p + y, sep, p.len() + j) == pieces_from(y, sep, j),
    decreases y.len() - j,
{
    let stop = find(y, sep, j);
    lemma_find_bounds(y, sep, j);
    lemma_find_shift(p, y, sep, j);
    if stop < y.len() {
        lemma_pieces_shift(p, y, sep, stop + 1);
        assert((p + y).subrange(p.len() + j, p.len() + stop) =~= y.subrange(j, stop));
    } else {
        assert((p + y).subrange(p.len() + j, (p + y).len() as int) =~= y.subrange(
            j,
            y.len() as int,
        ));
    }
}

/// In a text made of `a`, a separator and `b`, the pieces from a place in
/// `a` on are those of `a` from there on, then those of `b`.
pub proof fn lemma_pieces_from_join(a: Seq<char>, b: Seq<char>, sep: char, from: int)
    requires
        0 <= from <= a.len(),
    ensures
        pieces_from(a + seq![sep] + b, sep, from) == pieces_from(a, sep, from) + pieces(b, sep),
    decreases a.len() - from,
{
    let s = a + seq![sep] + b;
    let stop = find(a, sep, from);
    lemma_find_bounds(a, sep, from);
    lemma_find_prefix(a, seq![sep] + b, sep, from);
    assert(s =~= a + (seq![sep] + b));
    if stop < a.len() {
        lemma_pieces_from_join(a, b, sep, stop + 1);
        assert(s.subrange(from, stop) =~= a.subrange(from, stop));
        assert(seq![a.subrange(from, stop)] + (pieces_from(a, sep, stop + 1) + pieces(b, sep))
            =~= seq![a.subrange(from, stop)] + pieces_from(a, sep, stop + 1) + pieces(b, sep));
    } else {
        assert(s[a.len() as int] == sep);
        assert(find(s, sep, a.len() as int) == a.len());
        assert(s.subrange(from, a.len() as int) =~= a.subrange(from, a.len() as int));
        lemma_pieces_shift(a + seq![sep], b, sep, 0);
    }
}

/// A search that succeeds in a text finds the same place in any text that
/// starts with it; one that fails goes on behind it.
pub proof fn lemma_find_prefix(a: Seq<char>, t: Seq<char>, sep: char, from: int)
    requires
        0 <= from <= a.len(),
    ensures
        find(a + t, sep, from) == if find(a, sep, from) < a.len() {
            find(a, sep, from)
        } else {
            find(a + t, sep, a.len() as int)
        },
    decreases a.len() - from,
{
    if from < a.len() {
        assert((a + t)[from] == a[from]);
        if a[from] != sep {
            lemma_find_prefix(a, t, sep, from + 1);
        }
    }
}

/// Splitting two texts joined by a separator yields the pieces of the first,
/// then those of the second.
pub proof fn lemma_pieces_join(a: Seq<char>, b: Seq<char>, sep: char)
    ensures
        pieces(a + seq![sep] + b, sep) == pieces(a, sep) + pieces(b, sep),
{
    lemma_pieces_from_join(a, b, sep, 0);
}

/// A text without the separator is one piece.
pub proof fn lemma_pieces_single(a: Seq<char>, sep: char)
    requires
        !a.contains(sep),
    ensures
        pieces(a, sep) == seq![a],
{
    lemma_find_bounds(a, sep, 0);
    if find(a, sep, 0) < a.len() {
        assert(a.contains(a[find(a, sep, 0)]));
    }
    assert(a.subrange(0, a.len() as int) =~= a);
}


/// Trimming takes white space from the two ends and nothing else: what is
/// cut off is white space, and what is left neither starts nor ends with any.
pub proof fn lemma_trimmed(s: Seq<char>)
    ensures
        ({
            let start = skip_space(s, 0);
            let end = skip_space_back(s, start, s.len() as int);
            &&& 0 <= start <= end <= s.len()
            &&& trimmed(s) == s.subrange(start, end)
            &&& forall|i: int| 0 <= i < start ==> is_space(#[trigger] s[i])
            &&& forall|i: int| end <= i < s.len() ==> is_space(#[trigger] s[i])
            &&& start < end ==> !is_space(trimmed(s).first()) && !is_space(trimmed(s).last())
        }),
{
    let start = skip_space(s, 0);
    lemma_skip_space_bounds(s, 0);
    lemma_skip_space_back_bounds(s, start, s.len() as int);
}

} // verus!
