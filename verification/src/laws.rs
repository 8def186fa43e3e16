//! Laws of the format, stated and proved over the model: how decoding
//! treats each line, that it partitions the source, that it preserves order,
//! and that decoding inverts encoding.

use vstd::prelude::*;

use crate::model::decoded_extras;
use crate::model::decoded_extras_of_lines;
use crate::model::decoded_pairs;
use crate::model::decoded_pairs_of_lines;
use crate::model::encoded;
use crate::model::encoded_extras;
use crate::model::encoded_pair;
use crate::model::encoded_pairs;
use crate::model::find_sub;
use crate::model::is_pair_line;
use crate::model::key_splits_first;
use crate::model::lemma_find_newline_is;
use crate::model::lemma_find_sub_is;
use crate::model::line_key;
use crate::model::line_splits;
use crate::model::line_value;
use crate::model::matches_at;
use crate::model::single_line_text;
use crate::model::split_lines;
use crate::model::strip_carriage_return;

verus! {

/// Order preservation: decoding a concatenation of line sequences yields the
/// concatenation of their decodings, on the pair side and on the extra-line
/// side alike. Pairs and extra lines therefore keep the relative order of
/// the source lines they come from.
pub proof fn lemma_order_preservation(
    a: Seq<Seq<char>>,
    b: Seq<Seq<char>>,
    sep: Seq<char>,
    keys: Seq<Seq<char>>,
)
    ensures
        decoded_pairs_of_lines(a + b, sep, keys) == decoded_pairs_of_lines(a, sep, keys)
            + decoded_pairs_of_lines(b, sep, keys),
        decoded_extras_of_lines(a + b, sep, keys) == decoded_extras_of_lines(a, sep, keys)
            + decoded_extras_of_lines(b, sep, keys),
    decreases a.len(),
{
    if a.len() == 0 {
        assert(a + b =~= b);
        assert(decoded_pairs_of_lines(a, sep, keys) + decoded_pairs_of_lines(b, sep, keys)
            =~= decoded_pairs_of_lines(b, sep, keys));
        assert(decoded_extras_of_lines(a, sep, keys) + decoded_extras_of_lines(b, sep, keys)
            =~= decoded_extras_of_lines(b, sep, keys));
    } else {
        assert((a + b).drop_first() =~= a.drop_first() + b);
        lemma_order_preservation(a.drop_first(), b, sep, keys);
        let l = a[0];
        assert((a + b)[0] == l);
        if is_pair_line(l, sep, keys) {
            assert(seq![(line_key(l, sep), line_value(l, sep))] + (decoded_pairs_of_lines(
                a.drop_first(),
                sep,
                keys,
            ) + decoded_pairs_of_lines(b, sep, keys)) =~= (seq![
                (line_key(l, sep), line_value(l, sep)),
            ] + decoded_pairs_of_lines(a.drop_first(), sep, keys)) + decoded_pairs_of_lines(
                b,
                sep,
                keys,
            ));
        } else {
            assert(seq![l] + (decoded_extras_of_lines(a.drop_first(), sep, keys)
                + decoded_extras_of_lines(b, sep, keys)) =~= (seq![l] + decoded_extras_of_lines(
                a.drop_first(),
                sep,
                keys,
            )) + decoded_extras_of_lines(b, sep, keys));
        }
    }
}

/// Allow-list gating, on one line: a line that splits on the separator is
/// decoded as a pair exactly when its key part is allow-listed, and
/// otherwise — or when it does not split at all — it is kept whole as an
/// extra line.
pub proof fn lemma_allow_list_gating(l: Seq<char>, sep: Seq<char>, keys: Seq<Seq<char>>)
    ensures
        line_splits(l, sep) ==> (is_pair_line(l, sep, keys) <==> keys.contains(line_key(l, sep))),
        decoded_pairs_of_lines(seq![l], sep, keys) == if is_pair_line(l, sep, keys) {
            seq![(line_key(l, sep), line_value(l, sep))]
        } else {
            Seq::<(Seq<char>, Seq<char>)>::empty()
        },
        decoded_extras_of_lines(seq![l], sep, keys) == if is_pair_line(l, sep, keys) {
            Seq::<Seq<char>>::empty()
        } else {
            seq![l]
        },
{
    assert(seq![l].drop_first() =~= Seq::<Seq<char>>::empty());
    assert(decoded_pairs_of_lines(Seq::<Seq<char>>::empty(), sep, keys) == Seq::<
        (Seq<char>, Seq<char>),
    >::empty());
    assert(decoded_extras_of_lines(Seq::<Seq<char>>::empty(), sep, keys) == Seq::<
        Seq<char>,
    >::empty());
    if is_pair_line(l, sep, keys) {
        assert(decoded_pairs_of_lines(seq![l], sep, keys) =~= seq![
            (line_key(l, sep), line_value(l, sep)),
        ]);
        assert(decoded_extras_of_lines(seq![l], sep, keys) =~= Seq::<Seq<char>>::empty());
    } else {
        assert(decoded_pairs_of_lines(seq![l], sep, keys) =~= Seq::<
            (Seq<char>, Seq<char>),
        >::empty());
        assert(decoded_extras_of_lines(seq![l], sep, keys) =~= seq![l]);
    }
}

/// First-split: when the separator's first occurrence in a line is at
/// position `i`, the key part is everything before `i` and the value part is
/// everything after the occurrence — later occurrences stay in the value.
pub proof fn lemma_first_split(l: Seq<char>, sep: Seq<char>, i: int)
    requires
        matches_at(l, sep, i),
        forall|j: int| 0 <= j < i ==> !matches_at(l, sep, j),
    ensures
        line_splits(l, sep),
        find_sub(l, sep) == i,
        line_key(l, sep) == l.take(i),
        line_value(l, sep) == l.skip(i + sep.len()),
{
    lemma_find_sub_is(l, sep, i);
}

/// Partition, over a line sequence: every line becomes exactly one pair or
/// one extra line, so the two output lengths add up to the number of lines.
pub proof fn lemma_partition_of_lines(lines: Seq<Seq<char>>, sep: Seq<char>, keys: Seq<Seq<char>>)
    ensures
        decoded_pairs_of_lines(lines, sep, keys).len() + decoded_extras_of_lines(
            lines,
            sep,
            keys,
        ).len() == lines.len(),
    decreases lines.len(),
{
    if lines.len() == 0 {
    } else {
        lemma_partition_of_lines(lines.drop_first(), sep, keys);
    }
}

/// Partition, over a source text: the decoded pairs and extra lines together
/// account for every line of the source, each exactly once.
pub proof fn lemma_partition(keys: Seq<Seq<char>>, sep: Seq<char>, source: Seq<char>)
    ensures
        decoded_pairs(keys, sep, source).len() + decoded_extras(keys, sep, source).len()
            == split_lines(source).len(),
{
    lemma_partition_of_lines(split_lines(source), sep, keys);
}

/// A line made of single-line text, terminated by `"\n"` or `"\r\n"`, is cut
/// off whole by line splitting, whatever follows the terminator.
proof fn lemma_lines_of_terminated_line(l: Seq<char>, nl: Seq<char>, rest: Seq<char>)
    requires
        nl == seq!['\n'] || nl == seq!['\r', '\n'],
        single_line_text(l),
    ensures
        split_lines(l + nl + rest) == seq![l] + split_lines(rest),
{
    let s = l + nl + rest;
    let m = l.len() + nl.len() - 1;
    assert(s[m] == '\n');
    assert forall|j: int| 0 <= j < m implies s[j] != '\n' by {
        if j < l.len() {
            assert(s[j] == l[j]);
        } else {
            assert(s[j] == nl[j - l.len()]);
        }
    }
    lemma_find_newline_is(s, m);
    assert(s.take(m) =~= if nl == seq!['\n'] {
        l
    } else {
        l + seq!['\r']
    });
    if nl == seq!['\n'] {
        assert(strip_carriage_return(s.take(m)) == l);
    } else {
        assert((l + seq!['\r']).last() == '\r');
        assert(strip_carriage_return(l + seq!['\r']) =~= l);
    }
    assert(s.skip(m + 1) =~= rest);
    assert(split_lines(s) =~= seq![l] + split_lines(rest));
}

/// Splitting `key + sep + value` on the first separator occurrence recovers
/// the key and the value, provided no occurrence of the separator starts
/// inside the key.
proof fn lemma_split_of_encoded_line(k: Seq<char>, v: Seq<char>, sep: Seq<char>)
    requires
        key_splits_first(k, sep),
    ensures
        find_sub(k + sep + v, sep) == k.len(),
        line_splits(k + sep + v, sep),
        line_key(k + sep + v, sep) == k,
        line_value(k + sep + v, sep) == v,
{
    let l = k + sep + v;
    assert(l.subrange(k.len() as int, k.len() + sep.len() as int) =~= sep);
    assert(matches_at(l, sep, k.len() as int));
    assert forall|j: int| 0 <= j < k.len() implies !matches_at(l, sep, j) by {
        assert(!matches_at(k + sep, sep, j));
        if j + sep.len() <= (k + sep).len() {
            assert((k + sep).subrange(j, j + sep.len() as int) =~= l.subrange(
                j,
                j + sep.len() as int,
            ));
        }
    }
    lemma_find_sub_is(l, sep, k.len() as int);
    assert(line_key(l, sep) =~= k);
    assert(line_value(l, sep) =~= v);
}

/// Round trip: encoding pairs alone and decoding the result with an
/// allow-list that holds every key recovers exactly the pairs, in order, and
/// no extra lines — provided the newline is a standard line terminator, the
/// keys and values are single-line text, the separator is single-line text,
/// and no separator occurrence starts inside a key.
pub proof fn lemma_round_trip(
    pairs: Seq<(Seq<char>, Seq<char>)>,
    keys: Seq<Seq<char>>,
    sep: Seq<char>,
    nl: Seq<char>,
)
    requires
        nl == seq!['\n'] || nl == seq!['\r', '\n'],
        single_line_text(sep),
        forall|i: int| 0 <= i < pairs.len() ==> keys.contains(#[trigger] pairs[i].0),
        forall|i: int| 0 <= i < pairs.len() ==> single_line_text(#[trigger] pairs[i].0)
            && single_line_text(pairs[i].1),
        forall|i: int| 0 <= i < pairs.len() ==> key_splits_first(#[trigger] pairs[i].0, sep),
    ensures
        decoded_pairs(keys, sep, encoded(pairs, Seq::<Seq<char>>::empty(), sep, nl)) == pairs,
        decoded_extras(keys, sep, encoded(pairs, Seq::<Seq<char>>::empty(), sep, nl)) == Seq::<
            Seq<char>,
        >::empty(),
{
    assert(encoded_extras(Seq::<Seq<char>>::empty(), nl) == Seq::<char>::empty());
    assert(encoded(pairs, Seq::<Seq<char>>::empty(), sep, nl) =~= encoded_pairs(pairs, sep, nl));
    lemma_round_trip_pairs(pairs, keys, sep, nl);
}

/// The inductive core of the round trip, over the pair encoding alone.
proof fn lemma_round_trip_pairs(
    pairs: Seq<(Seq<char>, Seq<char>)>,
    keys: Seq<Seq<char>>,
    sep: Seq<char>,
    nl: Seq<char>,
)
    requires
        nl == seq!['\n'] || nl == seq!['\r', '\n'],
        single_line_text(sep),
        forall|i: int| 0 <= i < pairs.len() ==> keys.contains(#[trigger] pairs[i].0),
        forall|i: int| 0 <= i < pairs.len() ==> single_line_text(#[trigger] pairs[i].0)
            && single_line_text(pairs[i].1),
        forall|i: int| 0 <= i < pairs.len() ==> key_splits_first(#[trigger] pairs[i].0, sep),
    ensures
        decoded_pairs(keys, sep, encoded_pairs(pairs, sep, nl)) == pairs,
        decoded_extras(keys, sep, encoded_pairs(pairs, sep, nl)) == Seq::<Seq<char>>::empty(),
    decreases pairs.len(),
{
    if pairs.len() == 0 {
        assert(encoded_pairs(pairs, sep, nl) == Seq::<char>::empty());
        assert(split_lines(Seq::<char>::empty()) == Seq::<Seq<char>>::empty());
        assert(decoded_pairs(keys, sep, encoded_pairs(pairs, sep, nl)) =~= pairs);
    } else {
        let k = pairs[0].0;
        let v = pairs[0].1;
        let l = k + sep + v;
        let rest = pairs.drop_first();
        let tail = encoded_pairs(rest, sep, nl);
        assert(encoded_pairs(pairs, sep, nl) == encoded_pair(k, v, sep, nl) + tail);
        assert(encoded_pair(k, v, sep, nl) + tail =~= l + nl + tail);
        assert(single_line_text(l)) by {
            assert forall|j: int| 0 <= j < l.len() implies l[j] != '\n' && l[j] != '\r' by {
                if j < k.len() {
                    assert(l[j] == k[j]);
                } else if j < k.len() + sep.len() {
                    assert(l[j] == sep[j - k.len()]);
                } else {
                    assert(l[j] == v[j - k.len() - sep.len()]);
                }
            }
        }
        lemma_lines_of_terminated_line(l, nl, tail);
        lemma_split_of_encoded_line(k, v, sep);
        assert(is_pair_line(l, sep, keys));
        assert(forall|i: int| 0 <= i < rest.len() ==> rest[i] == pairs[i + 1]);
        lemma_round_trip_pairs(rest, keys, sep, nl);
        lemma_order_preservation(seq![l], split_lines(tail), sep, keys);
        lemma_allow_list_gating(l, sep, keys);
        assert(seq![l] + split_lines(tail) == split_lines(encoded_pairs(pairs, sep, nl)));
        assert(decoded_pairs(keys, sep, encoded_pairs(pairs, sep, nl)) =~= seq![(k, v)] + rest);
        assert((k, v) == pairs[0]);
        assert(seq![(k, v)] + rest =~= pairs);
        assert(decoded_extras(keys, sep, encoded_pairs(pairs, sep, nl)) =~= Seq::<
            Seq<char>,
        >::empty());
    }
}

/// Empty input: decoding an empty source yields no pairs and no extra lines,
/// whatever the keys and separator.
pub proof fn lemma_empty_input(keys: Seq<Seq<char>>, sep: Seq<char>)
    ensures
        decoded_pairs(keys, sep, Seq::<char>::empty()) == Seq::<(Seq<char>, Seq<char>)>::empty(),
        decoded_extras(keys, sep, Seq::<char>::empty()) == Seq::<Seq<char>>::empty(),
{
    assert(split_lines(Seq::<char>::empty()) == Seq::<Seq<char>>::empty());
}

} // verus!
