//! The encoder: renders ordered pairs and extra lines as flat text.

use vstd::prelude::*;

use crate::model::default_newline;
use crate::model::default_separator;
use crate::model::encoded;
use crate::model::encoded_extras;
use crate::model::encoded_pair;
use crate::model::encoded_pairs;

verus! {

/// Encoding distributes over concatenation of pair sequences.
pub proof fn lemma_encoded_pairs_append(
    a: Seq<(Seq<char>, Seq<char>)>,
    b: Seq<(Seq<char>, Seq<char>)>,
    sep: Seq<char>,
    nl: Seq<char>,
)
    ensures
        encoded_pairs(a + b, sep, nl) == encoded_pairs(a, sep, nl) + encoded_pairs(b, sep, nl),
    decreases a.len(),
{
    if a.len() == 0 {
        assert(a + b =~= b);
        assert(encoded_pairs(a, sep, nl) + encoded_pairs(b, sep, nl) =~= encoded_pairs(
            b,
            sep,
            nl,
        ));
    } else {
        assert((a + b).drop_first() =~= a.drop_first() + b);
        lemma_encoded_pairs_append(a.drop_first(), b, sep, nl);
        assert(encoded_pair((a + b)[0].0, (a + b)[0].1, sep, nl) + (encoded_pairs(
            a.drop_first(),
            sep,
            nl,
        ) + encoded_pairs(b, sep, nl)) =~= (encoded_pair(a[0].0, a[0].1, sep, nl) + encoded_pairs(
            a.drop_first(),
            sep,
            nl,
        )) + encoded_pairs(b, sep, nl));
    }
}

/// Encoding distributes over concatenation of extra-line sequences.
pub proof fn lemma_encoded_extras_append(a: Seq<Seq<char>>, b: Seq<Seq<char>>, nl: Seq<char>)
    ensures
        encoded_extras(a + b, nl) == encoded_extras(a, nl) + encoded_extras(b, nl),
    decreases a.len(),
{
    if a.len() == 0 {
        assert(a + b =~= b);
        assert(encoded_extras(a, nl) + encoded_extras(b, nl) =~= encoded_extras(b, nl));
    } else {
        assert((a + b).drop_first() =~= a.drop_first() + b);
        lemma_encoded_extras_append(a.drop_first(), b, nl);
        assert(((a + b)[0] + nl) + (encoded_extras(a.drop_first(), nl) + encoded_extras(b, nl))
            =~= ((a[0] + nl) + encoded_extras(a.drop_first(), nl)) + encoded_extras(b, nl));
    }
}

/// A builder for one encoding run: the separator and newline to use, the
/// pairs to emit, and the extra lines to append after them.
pub struct Serializer {
    separator: String,
    newline: String,
    pairs: Option<Vec<(String, String)>>,
    extra_lines: Option<Vec<String>>,
}

impl Serializer {
    /// The separator this run will place between each key and its value.
    pub closed spec fn spec_separator(&self) -> Seq<char> {
        self.separator@
    }

    /// The line terminator this run will append after each line.
    pub closed spec fn spec_newline(&self) -> Seq<char> {
        self.newline@
    }

    /// The pairs this run will emit; none configured means none emitted.
    pub closed spec fn spec_pairs(&self) -> Seq<(Seq<char>, Seq<char>)> {
        match self.pairs {
            Some(p) => p.deep_view(),
            None => Seq::empty(),
        }
    }

    /// The extra lines this run will emit; none configured means none
    /// emitted.
    pub closed spec fn spec_extra_lines(&self) -> Seq<Seq<char>> {
        match self.extra_lines {
            Some(l) => l.deep_view(),
            None => Seq::empty(),
        }
    }

    fn new() -> (r: Self)
        ensures
            r.spec_separator() == default_separator(),
            r.spec_newline() == default_newline(),
            r.spec_pairs() == Seq::<(Seq<char>, Seq<char>)>::empty(),
            r.spec_extra_lines() == Seq::<Seq<char>>::empty(),
    {
        proof {
            reveal_strlit(": ");
            reveal_strlit("\n");
            assert(": "@ =~= default_separator());
            assert("\n"@ =~= default_newline());
        }
        Self { separator: ": ".to_owned(), newline: "\n".to_owned(), pairs: None, extra_lines: None }
    }

    /// Replaces the separator, keeping everything else.
    pub fn separator(self, separator: &str) -> (r: Self)
        ensures
            r.spec_separator() == separator@,
            r.spec_newline() == self.spec_newline(),
            r.spec_pairs() == self.spec_pairs(),
            r.spec_extra_lines() == self.spec_extra_lines(),
    {
        Self { separator: separator.to_owned(), ..self }
    }

    /// Replaces the line terminator, keeping everything else.
    pub fn newline(self, newline: &str) -> (r: Self)
        ensures
            r.spec_separator() == self.spec_separator(),
            r.spec_newline() == newline@,
            r.spec_pairs() == self.spec_pairs(),
            r.spec_extra_lines() == self.spec_extra_lines(),
    {
        Self { newline: newline.to_owned(), ..self }
    }

    /// Supplies the pairs to emit, keeping everything else.
    pub fn pairs(self, pairs: Vec<(String, String)>) -> (r: Self)
        ensures
            r.spec_separator() == self.spec_separator(),
            r.spec_newline() == self.spec_newline(),
            r.spec_pairs() == pairs.deep_view(),
            r.spec_extra_lines() == self.spec_extra_lines(),
    {
        Self { pairs: Some(pairs), ..self }
    }

    /// Supplies the extra lines to emit, keeping everything else.
    pub fn extra_lines(self, extra_lines: Vec<String>) -> (r: Self)
        ensures
            r.spec_separator() == self.spec_separator(),
            r.spec_newline() == self.spec_newline(),
            r.spec_pairs() == self.spec_pairs(),
            r.spec_extra_lines() == extra_lines.deep_view(),
    {
        Self { extra_lines: Some(extra_lines), ..self }
    }

    /// Renders the configured pairs, then the configured extra lines, each
    /// line as `key + separator + value + newline` or `line + newline`.
    pub fn serialize(self) -> (out: String)
        ensures
            out@ == encoded(
                self.spec_pairs(),
                self.spec_extra_lines(),
                self.spec_separator(),
                self.spec_newline(),
            ),
    {
        let Serializer { separator, newline, pairs, extra_lines } = self;
        let mut out = String::new();

        match pairs {
            Some(ps) => {
                let n = ps.len();
                for idx in 0..n
                    invariant
                        n == ps.len(),
                        out@ == encoded_pairs(ps.deep_view().take(idx as int), separator@, newline@),
                {
                    out.append(ps[idx].0.as_str());
                    out.append(separator.as_str());
                    out.append(ps[idx].1.as_str());
                    out.append(newline.as_str());
                    proof {
                        let d = ps.deep_view();
                        assert(d.take(idx + 1) =~= d.take(idx as int) + seq![d[idx as int]]);
                        lemma_encoded_pairs_append(
                            d.take(idx as int),
                            seq![d[idx as int]],
                            separator@,
                            newline@,
                        );
                        assert(seq![d[idx as int]].drop_first() =~= Seq::<
                            (Seq<char>, Seq<char>),
                        >::empty());
                        assert(encoded_pairs(
                            Seq::<(Seq<char>, Seq<char>)>::empty(),
                            separator@,
                            newline@,
                        ) == Seq::<char>::empty());
                        assert(encoded_pairs(seq![d[idx as int]], separator@, newline@)
                            =~= encoded_pair(d[idx as int].0, d[idx as int].1, separator@, newline@));
                        assert(out@ =~= encoded_pairs(d.take(idx + 1), separator@, newline@));
                    }
                }
                proof {
                    assert(ps.deep_view().take(n as int) =~= ps.deep_view());
                }
            },
            None => {
            },
        }

        match extra_lines {
            Some(ls) => {
                let ghost emitted_pairs = out@;
                let n = ls.len();
                for idx in 0..n
                    invariant
                        n == ls.len(),
                        out@ == emitted_pairs + encoded_extras(
                            ls.deep_view().take(idx as int),
                            newline@,
                        ),
                {
                    out.append(ls[idx].as_str());
                    out.append(newline.as_str());
                    proof {
                        let d = ls.deep_view();
                        assert(d.take(idx + 1) =~= d.take(idx as int) + seq![d[idx as int]]);
                        lemma_encoded_extras_append(
                            d.take(idx as int),
                            seq![d[idx as int]],
                            newline@,
                        );
                        assert(seq![d[idx as int]].drop_first() =~= Seq::<Seq<char>>::empty());
                        assert(encoded_extras(Seq::<Seq<char>>::empty(), newline@) == Seq::<
                            char,
                        >::empty());
                        assert(encoded_extras(seq![d[idx as int]], newline@) =~= d[idx as int]
                            + newline@);
                        assert(out@ =~= emitted_pairs + encoded_extras(d.take(idx + 1), newline@));
                    }
                }
                proof {
                    assert(ls.deep_view().take(n as int) =~= ls.deep_view());
                }
            },
            None => {
            },
        }

        proof {
            assert(encoded_extras(Seq::<Seq<char>>::empty(), newline@) =~= Seq::<char>::empty());
            assert(encoded_pairs(Seq::<(Seq<char>, Seq<char>)>::empty(), separator@, newline@)
                =~= Seq::<char>::empty());
        }
        out
    }
}

/// Renders one key-value line, `key + separator + value + newline`: the unit
/// a streaming caller appends to its sink one write at a time.
pub fn pair_line(key: &str, value: &str, separator: &str, newline: &str) -> (out: String)
    ensures
        out@ == encoded_pair(key@, value@, separator@, newline@),
{
    let mut out = key.to_owned();
    out.append(separator);
    out.append(value);
    out.append(newline);
    out
}

/// A fresh builder with the default separator `": "` and newline `"\n"` and
/// nothing to emit yet.
pub fn serializer() -> (r: Serializer)
    ensures
        r.spec_separator() == default_separator(),
        r.spec_newline() == default_newline(),
        r.spec_pairs() == Seq::<(Seq<char>, Seq<char>)>::empty(),
        r.spec_extra_lines() == Seq::<Seq<char>>::empty(),
{
    Serializer::new()
}

/// Encodes the pairs alone, with the default separator and newline.
pub fn to_string(pairs: Vec<(String, String)>) -> (out: String)
    ensures
        out@ == encoded(
            pairs.deep_view(),
            Seq::<Seq<char>>::empty(),
            default_separator(),
            default_newline(),
        ),
{
    serializer().pairs(pairs).serialize()
}

/// Encodes the pairs followed by the extra lines, with the default separator
/// and newline.
pub fn serialize(pairs: Vec<(String, String)>, extra_lines: Vec<String>) -> (out: String)
    ensures
        out@ == encoded(
            pairs.deep_view(),
            extra_lines.deep_view(),
            default_separator(),
            default_newline(),
        ),
{
    serializer().pairs(pairs).extra_lines(extra_lines).serialize()
}

} // verus!
