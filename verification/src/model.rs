//! The mathematical model of the text format: what the encoder emits and how
//! the decoder splits a source into lines and classifies each line.

use vstd::prelude::*;

verus! {

/// The default separator between a key and its value: `": "`.
pub open spec fn default_separator() -> Seq<char> {
    seq![':', ' ']
}

/// The default line terminator appended after each encoded line: `"\n"`.
pub open spec fn default_newline() -> Seq<char> {
    seq!['\n']
}

/// One encoded key-value line: `key + separator + value + newline`.
pub open spec fn encoded_pair(k: Seq<char>, v: Seq<char>, sep: Seq<char>, nl: Seq<char>) -> Seq<
    char,
> {
    k + sep + v + nl
}

/// The encoding of a sequence of pairs, in order.
pub open spec fn encoded_pairs(
    pairs: Seq<(Seq<char>, Seq<char>)>,
    sep: Seq<char>,
    nl: Seq<char>,
) -> Seq<char>
    decreases pairs.len(),
{
    if pairs.len() == 0 {
        Seq::empty()
    } else {
        encoded_pair(pairs[0].0, pairs[0].1, sep, nl) + encoded_pairs(pairs.drop_first(), sep, nl)
    }
}

/// The encoding of a sequence of extra lines, in order: each line followed by
/// the newline.
pub open spec fn encoded_extras(lines: Seq<Seq<char>>, nl: Seq<char>) -> Seq<char>
    decreases lines.len(),
{
    if lines.len() == 0 {
        Seq::empty()
    } else {
        lines[0] + nl + encoded_extras(lines.drop_first(), nl)
    }
}

/// The full encoder output: all pairs first, then all extra lines.
pub open spec fn encoded(
    pairs: Seq<(Seq<char>, Seq<char>)>,
    extras: Seq<Seq<char>>,
    sep: Seq<char>,
    nl: Seq<char>,
) -> Seq<char> {
    encoded_pairs(pairs, sep, nl) + encoded_extras(extras, nl)
}

/// The index of the first `'\n'` in `s`, or `s.len()` if there is none.
pub open spec fn find_newline(s: Seq<char>) -> int
    decreases s.len(),
{
    if s.len() == 0 {
        0
    } else if s[0] == '\n' {
        0
    } else {
        1 + find_newline(s.drop_first())
    }
}

/// A line as cut out of the source: a terminating `"\r\n"` contributes a
/// trailing `'\r'` that is not part of the line.
pub open spec fn strip_carriage_return(l: Seq<char>) -> Seq<char> {
    if l.len() > 0 && l.last() == '\r' {
        l.drop_last()
    } else {
        l
    }
}

/// The lines of a source text, split at `'\n'` or `"\r\n"` boundaries, with
/// the terminators removed. A final line without a terminator still counts;
/// an empty source has no lines.
pub open spec fn split_lines(s: Seq<char>) -> Seq<Seq<char>>
    decreases s.len(),
    via split_lines_decreases
{
    if s.len() == 0 {
        Seq::empty()
    } else {
        let i = find_newline(s);
        if i == s.len() {
            seq![s]
        } else {
            seq![strip_carriage_return(s.take(i))] + split_lines(s.skip(i + 1))
        }
    }
}

#[via_fn]
proof fn split_lines_decreases(s: Seq<char>) {
    lemma_find_newline(s);
}

/// `find_newline` returns a position no further than the end of the
/// sequence; it points at a `'\n'` if there is one, and nothing before it is
/// a `'\n'`.
pub proof fn lemma_find_newline(s: Seq<char>)
    ensures
        0 <= find_newline(s) <= s.len(),
        find_newline(s) < s.len() ==> s[find_newline(s)] == '\n',
        forall|j: int| 0 <= j < find_newline(s) ==> s[j] != '\n',
    decreases s.len(),
{
    if s.len() == 0 {
    } else if s[0] == '\n' {
    } else {
        let t = s.drop_first();
        lemma_find_newline(t);
        assert forall|j: int| 0 <= j < find_newline(s) implies s[j] != '\n' by {
            if j >= 1 {
                assert(t[j - 1] != '\n');
                assert(s[j] == t[j - 1]);
            }
        }
        if find_newline(s) < s.len() {
            assert(s[find_newline(s)] == t[find_newline(t)]);
        }
    }
}

/// `find_newline` is pinned down by its characterization: a position up to
/// the end of the sequence, before which nothing is a `'\n'` and which holds
/// a `'\n'` unless it is the end.
pub proof fn lemma_find_newline_is(s: Seq<char>, m: int)
    requires
        0 <= m <= s.len(),
        forall|j: int| 0 <= j < m ==> s[j] != '\n',
        m < s.len() ==> s[m] == '\n',
    ensures
        find_newline(s) == m,
{
    lemma_find_newline(s);
    let f = find_newline(s);
    if f < m {
        assert(s[f] == '\n');
        assert(s[f] != '\n');
    } else if f > m {
        assert(s[m] != '\n');
    }
}

/// The pattern `p` occurs in `s` starting at position `i`.
pub open spec fn matches_at(s: Seq<char>, p: Seq<char>, i: int) -> bool {
    &&& 0 <= i
    &&& i + p.len() <= s.len()
    &&& s.subrange(i, i + p.len() as int) == p
}

/// The position of the first occurrence of `p` in `s`, or `-1` if `p` does
/// not occur. An empty pattern occurs at position `0` of any sequence.
pub open spec fn find_sub(s: Seq<char>, p: Seq<char>) -> int
    decreases s.len(),
{
    if p.len() > s.len() {
        -1
    } else if s.take(p.len() as int) == p {
        0
    } else if s.len() == 0 {
        -1
    } else {
        let r = find_sub(s.drop_first(), p);
        if r < 0 {
            -1
        } else {
            1 + r
        }
    }
}

/// `find_sub` is exactly the first match position: it matches where it
/// points, nothing matches before it, and `-1` means nothing matches at all.
pub proof fn lemma_find_sub(s: Seq<char>, p: Seq<char>)
    ensures
        find_sub(s, p) == -1 || 0 <= find_sub(s, p) <= s.len() - p.len(),
        find_sub(s, p) >= 0 ==> matches_at(s, p, find_sub(s, p)),
        forall|j: int| 0 <= j < find_sub(s, p) ==> !matches_at(s, p, j),
        find_sub(s, p) == -1 ==> forall|j: int| !matches_at(s, p, j),
    decreases s.len(),
{
    if p.len() > s.len() {
        assert(forall|j: int| matches_at(s, p, j) ==> j + p.len() <= s.len());
    } else if s.take(p.len() as int) == p {
        assert(s.subrange(0, p.len() as int) == s.take(p.len() as int));
        assert(matches_at(s, p, 0));
    } else if s.len() == 0 {
        assert(s.take(p.len() as int) =~= p);
    } else {
        let t = s.drop_first();
        lemma_find_sub(t, p);
        assert forall|j: int| 0 <= j implies matches_at(s, p, j + 1) == matches_at(t, p, j) by {
            if 0 <= j && j + p.len() <= t.len() {
                assert(t.subrange(j, j + p.len() as int) =~= s.subrange(
                    j + 1,
                    j + 1 + p.len() as int,
                ));
            }
        }
        let r = find_sub(t, p);
        if r < 0 {
            assert forall|j: int| !matches_at(s, p, j) by {
                if j >= 1 {
                    assert(!matches_at(t, p, j - 1));
                } else if j == 0 {
                    assert(s.subrange(0, p.len() as int) == s.take(p.len() as int));
                }
            }
        } else {
            assert(matches_at(s, p, r + 1));
            assert forall|j: int| 0 <= j < r + 1 implies !matches_at(s, p, j) by {
                if j >= 1 {
                    assert(!matches_at(t, p, j - 1));
                } else {
                    assert(s.subrange(0, p.len() as int) == s.take(p.len() as int));
                }
            }
        }
    }
}

/// `find_sub` is pinned down by its characterization: the position of a
/// match before which nothing matches is the first match.
pub proof fn lemma_find_sub_is(s: Seq<char>, p: Seq<char>, m: int)
    requires
        matches_at(s, p, m),
        forall|j: int| 0 <= j < m ==> !matches_at(s, p, j),
    ensures
        find_sub(s, p) == m,
{
    lemma_find_sub(s, p);
    let f = find_sub(s, p);
    if f == -1 {
        assert(!matches_at(s, p, m));
    } else if f < m {
        assert(!matches_at(s, p, f));
    } else if f > m {
        assert(!matches_at(s, p, m));
    }
}

/// The line splits into a key part and a value part: the separator occurs in
/// it somewhere.
pub open spec fn line_splits(l: Seq<char>, sep: Seq<char>) -> bool {
    find_sub(l, sep) >= 0
}

/// The key part of a line: everything before the first occurrence of the
/// separator.
pub open spec fn line_key(l: Seq<char>, sep: Seq<char>) -> Seq<char> {
    l.take(find_sub(l, sep))
}

/// The value part of a line: everything after the first occurrence of the
/// separator, further occurrences included verbatim.
pub open spec fn line_value(l: Seq<char>, sep: Seq<char>) -> Seq<char> {
    l.skip(find_sub(l, sep) + sep.len())
}

/// A line is recognized as a key-value pair exactly when it splits on the
/// separator and its key part is in the allow-list.
pub open spec fn is_pair_line(l: Seq<char>, sep: Seq<char>, keys: Seq<Seq<char>>) -> bool {
    line_splits(l, sep) && keys.contains(line_key(l, sep))
}

/// The pairs decoded from a sequence of lines, in source order.
pub open spec fn decoded_pairs_of_lines(
    lines: Seq<Seq<char>>,
    sep: Seq<char>,
    keys: Seq<Seq<char>>,
) -> Seq<(Seq<char>, Seq<char>)>
    decreases lines.len(),
{
    if lines.len() == 0 {
        Seq::empty()
    } else {
        let rest = decoded_pairs_of_lines(lines.drop_first(), sep, keys);
        if is_pair_line(lines[0], sep, keys) {
            seq![(line_key(lines[0], sep), line_value(lines[0], sep))] + rest
        } else {
            rest
        }
    }
}

/// The extra lines decoded from a sequence of lines, in source order: every
/// line that is not recognized as a pair, kept whole.
pub open spec fn decoded_extras_of_lines(
    lines: Seq<Seq<char>>,
    sep: Seq<char>,
    keys: Seq<Seq<char>>,
) -> Seq<Seq<char>>
    decreases lines.len(),
{
    if lines.len() == 0 {
        Seq::empty()
    } else {
        let rest = decoded_extras_of_lines(lines.drop_first(), sep, keys);
        if is_pair_line(lines[0], sep, keys) {
            rest
        } else {
            seq![lines[0]] + rest
        }
    }
}

/// The pairs decoded from a source text.
pub open spec fn decoded_pairs(keys: Seq<Seq<char>>, sep: Seq<char>, source: Seq<char>) -> Seq<
    (Seq<char>, Seq<char>),
> {
    decoded_pairs_of_lines(split_lines(source), sep, keys)
}

/// The extra lines decoded from a source text.
pub open spec fn decoded_extras(keys: Seq<Seq<char>>, sep: Seq<char>, source: Seq<char>) -> Seq<
    Seq<char>,
> {
    decoded_extras_of_lines(split_lines(source), sep, keys)
}

/// The text stays on one line: it holds no line feed and no carriage
/// return, so line splitting leaves it whole.
pub open spec fn single_line_text(t: Seq<char>) -> bool {
    forall|j: int| 0 <= j < t.len() ==> t[j] != '\n' && t[j] != '\r'
}

/// Splitting `key + sep + ...` on the first occurrence of `sep` recovers the
/// key: no occurrence of `sep` starts inside the key. This is stronger than
/// `sep` not occurring in the key alone — an occurrence may also straddle
/// the boundary, as one does in `"a:" + "::"`.
pub open spec fn key_splits_first(k: Seq<char>, sep: Seq<char>) -> bool {
    forall|j: int| 0 <= j < k.len() ==> !matches_at(k + sep, sep, j)
}

/// The lookup table built from decoded pairs: one entry per distinct key,
/// where a later pair with the same key wins.
pub open spec fn kv_map(pairs: Seq<(Seq<char>, Seq<char>)>) -> Map<Seq<char>, Seq<char>>
    decreases pairs.len(),
{
    if pairs.len() == 0 {
        Map::empty()
    } else {
        kv_map(pairs.drop_last()).insert(pairs.last().0, pairs.last().1)
    }
}

} // verus!
