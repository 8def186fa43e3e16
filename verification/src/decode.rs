//! The decoder: splits a source text into lines and classifies each line as
//! a recognized key-value pair or an extra line.

use vstd::hash_map::StringHashMap;
use vstd::prelude::*;

use crate::laws::lemma_allow_list_gating;
use crate::laws::lemma_order_preservation;
use crate::model::decoded_extras;
use crate::model::decoded_extras_of_lines;
use crate::model::decoded_pairs;
use crate::model::decoded_pairs_of_lines;
use crate::model::default_newline;
use crate::model::default_separator;
use crate::model::find_sub;
use crate::model::is_pair_line;
use crate::model::kv_map;
use crate::model::lemma_find_newline_is;
use crate::model::lemma_find_sub;
use crate::model::lemma_find_sub_is;
use crate::model::line_key;
use crate::model::line_splits;
use crate::model::line_value;
use crate::model::matches_at;
use crate::model::split_lines;
use crate::model::strip_carriage_return;

verus! {

/// Whether `p` occurs in `s` starting at character position `i`.
fn chars_match_at(s: &str, p: &str, i: usize) -> (r: bool)
    requires
        i + p@.len() <= s@.len() <= usize::MAX,
    ensures
        r == matches_at(s@, p@, i as int),
{
    let pn = p.unicode_len();
    let mut j: usize = 0;
    while j < pn
        invariant
            j <= pn,
            pn == p@.len(),
            i + pn <= s@.len() <= usize::MAX,
            forall|jj: int| 0 <= jj < j ==> s@[i + jj] == p@[jj],
        decreases pn - j,
    {
        if s.get_char(i + j) != p.get_char(j) {
            proof {
                assert(s@.subrange(i as int, i + pn) != p@) by {
                    assert(s@.subrange(i as int, i + pn)[j as int] != p@[j as int]);
                }
            }
            return false;
        }
        j += 1;
    }
    proof {
        assert(s@.subrange(i as int, i + pn) =~= p@);
    }
    true
}

/// The character position of the first occurrence of `p` in `s`, if any.
fn find_first(s: &str, p: &str) -> (r: Option<usize>)
    ensures
        match r {
            Some(i) => find_sub(s@, p@) == i as int,
            None => find_sub(s@, p@) == -1,
        },
{
    let sn = s.unicode_len();
    let pn = p.unicode_len();
    if pn > sn {
        return None;
    }
    let mut i: usize = 0;
    while i <= sn - pn
        invariant
            pn <= sn,
            sn == s@.len(),
            pn == p@.len(),
            i <= sn - pn + 1,
            forall|j: int| 0 <= j < i ==> !matches_at(s@, p@, j),
        decreases sn - i,
    {
        if chars_match_at(s, p, i) {
            proof {
                lemma_find_sub_is(s@, p@, i as int);
            }
            return Some(i);
        }
        proof {
            if pn == 0 {
                assert(s@.subrange(i as int, i as int) =~= p@);
                assert(matches_at(s@, p@, i as int));
            }
        }
        i += 1;
    }
    proof {
        lemma_find_sub(s@, p@);
        assert forall|j: int| !matches_at(s@, p@, j) by {
            if 0 <= j <= sn - pn {
                assert(!matches_at(s@, p@, j));
            }
        }
    }
    None
}

/// Whether the view of `k` is among the views of `keys`.
fn contains_str(keys: &Vec<String>, k: &String) -> (r: bool)
    ensures
        r == keys.deep_view().contains(k@),
{
    let n = keys.len();
    for i in 0..n
        invariant
            n == keys.len(),
            forall|j: int| 0 <= j < i ==> keys.deep_view()[j] != k@,
    {
        if keys[i].eq(k) {
            proof {
                assert(keys.deep_view()[i as int] == k@);
            }
            return true;
        }
    }
    false
}

/// Splits a source text into lines at `'\n'` or `"\r\n"` boundaries,
/// dropping the terminators; a final unterminated line still counts.
fn split_into_lines(source: &str) -> (r: Vec<String>)
    ensures
        r.deep_view() == split_lines(source@),
{
    let n = source.unicode_len();
    let mut out: Vec<String> = Vec::new();
    let mut start: usize = 0;
    let mut i: usize = 0;
    proof {
        assert(out.deep_view() =~= Seq::<Seq<char>>::empty());
        assert(source@.skip(0) =~= source@);
        assert(Seq::<Seq<char>>::empty() + split_lines(source@) =~= split_lines(source@));
    }
    while i < n
        invariant
            start <= i <= n,
            n == source@.len(),
            split_lines(source@) == out.deep_view() + split_lines(source@.skip(start as int)),
            forall|j: int| start <= j < i ==> source@[j] != '\n',
        decreases n - i,
    {
        if source.get_char(i) == '\n' {
            let end: usize = if i > start && source.get_char(i - 1) == '\r' {
                i - 1
            } else {
                i
            };
            let line = source.substring_char(start, end).to_owned();
            let ghost prefix = out.deep_view();
            out.push(line);
            proof {
                let s = source@;
                let t = s.skip(start as int);
                let m = i - start;
                assert forall|j: int| 0 <= j < m implies t[j] != '\n' by {
                    assert(t[j] == s[start + j]);
                }
                lemma_find_newline_is(t, m);
                assert(t.take(m) =~= s.subrange(start as int, i as int));
                assert(strip_carriage_return(s.subrange(start as int, i as int)) =~= s.subrange(
                    start as int,
                    end as int,
                ));
                assert(t.skip(m + 1) =~= s.skip(i + 1));
                assert(split_lines(t) == seq![s.subrange(start as int, end as int)] + split_lines(
                    s.skip(i + 1),
                ));
                assert(out.deep_view() =~= prefix + seq![s.subrange(start as int, end as int)]);
                assert(out.deep_view() + split_lines(s.skip(i + 1)) =~= prefix + split_lines(t));
            }
            start = i + 1;
        }
        i += 1;
    }
    if start < n {
        let line = source.substring_char(start, n).to_owned();
        let ghost prefix = out.deep_view();
        out.push(line);
        proof {
            let s = source@;
            let t = s.skip(start as int);
            assert forall|j: int| 0 <= j < t.len() implies t[j] != '\n' by {
                assert(t[j] == s[start + j]);
            }
            lemma_find_newline_is(t, t.len() as int);
            assert(t =~= s.subrange(start as int, n as int));
            assert(split_lines(t) == seq![t]);
            assert(out.deep_view() =~= prefix + seq![t]);
        }
    } else {
        proof {
            assert(source@.skip(start as int) =~= Seq::<char>::empty());
            assert(split_lines(Seq::<char>::empty()) == Seq::<Seq<char>>::empty());
            assert(out.deep_view() + Seq::<Seq<char>>::empty() =~= out.deep_view());
        }
    }
    out
}

/// A builder for one decoding run: the separator to split lines on, the
/// configured newline, and the allow-list of recognized keys.
pub struct Deserializer {
    separator: String,
    newline: String,
    keys: Vec<String>,
}

impl Deserializer {
    /// The separator this run splits each line on.
    pub closed spec fn spec_separator(&self) -> Seq<char> {
        self.separator@
    }

    /// The configured newline. Decoding recognizes the standard line
    /// terminators of the input text independently of it.
    pub closed spec fn spec_newline(&self) -> Seq<char> {
        self.newline@
    }

    /// The allow-list of keys this run recognizes.
    pub closed spec fn spec_keys(&self) -> Seq<Seq<char>> {
        self.keys.deep_view()
    }

    fn new() -> (r: Self)
        ensures
            r.spec_separator() == default_separator(),
            r.spec_newline() == default_newline(),
            r.spec_keys() == Seq::<Seq<char>>::empty(),
    {
        let keys: Vec<String> = Vec::new();
        proof {
            reveal_strlit(": ");
            reveal_strlit("\n");
            assert(": "@ =~= default_separator());
            assert("\n"@ =~= default_newline());
            assert(keys.deep_view() =~= Seq::<Seq<char>>::empty());
        }
        Self { separator: ": ".to_owned(), newline: "\n".to_owned(), keys }
    }

    /// Replaces the separator, keeping everything else.
    pub fn separator(self, separator: &str) -> (r: Self)
        ensures
            r.spec_separator() == separator@,
            r.spec_newline() == self.spec_newline(),
            r.spec_keys() == self.spec_keys(),
    {
        Self { separator: separator.to_owned(), ..self }
    }

    /// Replaces the configured newline, keeping everything else.
    pub fn newline(self, newline: &str) -> (r: Self)
        ensures
            r.spec_separator() == self.spec_separator(),
            r.spec_newline() == newline@,
            r.spec_keys() == self.spec_keys(),
    {
        Self { newline: newline.to_owned(), ..self }
    }

    /// Replaces the allow-list of keys, keeping everything else.
    pub fn keys(self, keys: Vec<String>) -> (r: Self)
        ensures
            r.spec_separator() == self.spec_separator(),
            r.spec_newline() == self.spec_newline(),
            r.spec_keys() == keys.deep_view(),
    {
        Self { keys, ..self }
    }

    /// Splits the source into lines and classifies each line in order: a
    /// line that splits on the first occurrence of the separator and whose
    /// key part is allow-listed becomes a pair; every other line is kept
    /// whole as an extra line.
    pub fn deserialize(self, source: &str) -> (r: DeserializeData)
        ensures
            r.pairs.deep_view() == decoded_pairs(self.spec_keys(), self.spec_separator(), source@),
            r.extra_lines.deep_view() == decoded_extras(
                self.spec_keys(),
                self.spec_separator(),
                source@,
            ),
    {
        let Deserializer { separator, newline: _, keys } = self;
        let lines = split_into_lines(source);
        let mut pairs: Vec<(String, String)> = Vec::new();
        let mut extra_lines: Vec<String> = Vec::new();
        let n = lines.len();
        let sep_len = separator.as_str().unicode_len();
        proof {
            assert(pairs.deep_view() =~= Seq::<(Seq<char>, Seq<char>)>::empty());
            assert(extra_lines.deep_view() =~= Seq::<Seq<char>>::empty());
            assert(lines.deep_view().take(0) =~= Seq::<Seq<char>>::empty());
        }
        for idx in 0..n
            invariant
                n == lines.len(),
                lines.deep_view() == split_lines(source@),
                sep_len == separator@.len(),
                pairs.deep_view() == decoded_pairs_of_lines(
                    lines.deep_view().take(idx as int),
                    separator@,
                    keys.deep_view(),
                ),
                extra_lines.deep_view() == decoded_extras_of_lines(
                    lines.deep_view().take(idx as int),
                    separator@,
                    keys.deep_view(),
                ),
        {
            let ghost l = lines.deep_view()[idx as int];
            let ghost prev_pairs = pairs.deep_view();
            let ghost prev_extras = extra_lines.deep_view();
            let line = &lines[idx];
            let line_len = line.as_str().unicode_len();
            match find_first(line.as_str(), separator.as_str()) {
                Some(pos) => {
                    proof {
                        lemma_find_sub(l, separator@);
                    }
                    let k = line.as_str().substring_char(0, pos).to_owned();
                    if contains_str(&keys, &k) {
                        let v = line.as_str().substring_char(pos + sep_len, line_len).to_owned();
                        pairs.push((k, v));
                        proof {
                            assert(k@ =~= line_key(l, separator@));
                            assert(v@ =~= line_value(l, separator@));
                            assert(is_pair_line(l, separator@, keys.deep_view()));
                            assert(pairs.deep_view() =~= prev_pairs + seq![
                                (line_key(l, separator@), line_value(l, separator@)),
                            ]);
                        }
                    } else {
                        extra_lines.push(line.clone());
                        proof {
                            assert(k@ =~= line_key(l, separator@));
                            assert(!is_pair_line(l, separator@, keys.deep_view()));
                            assert(extra_lines.deep_view() =~= prev_extras + seq![l]);
                        }
                    }
                },
                None => {
                    extra_lines.push(line.clone());
                    proof {
                        assert(!line_splits(l, separator@));
                        assert(extra_lines.deep_view() =~= prev_extras + seq![l]);
                    }
                },
            }
            proof {
                let d = lines.deep_view();
                assert(d.take(idx + 1) =~= d.take(idx as int) + seq![l]);
                lemma_order_preservation(
                    d.take(idx as int),
                    seq![l],
                    separator@,
                    keys.deep_view(),
                );
                lemma_allow_list_gating(l, separator@, keys.deep_view());
            }
        }
        proof {
            assert(lines.deep_view().take(n as int) =~= lines.deep_view());
        }
        DeserializeData { pairs, extra_lines }
    }
}

/// The result of one decoding run: the recognized pairs and the extra lines,
/// each in source order.
pub struct DeserializeData {
    pub pairs: Vec<(String, String)>,
    pub extra_lines: Vec<String>,
}

impl DeserializeData {
    /// A lookup table over the decoded pairs: one entry per distinct key,
    /// where the last pair with a given key wins.
    pub fn pairs_hashmap(&self) -> (m: StringHashMap<String>)
        ensures
            m@.dom() == kv_map(self.pairs.deep_view()).dom(),
            forall|k: Seq<char>| #[trigger]
                m@.contains_key(k) ==> m@[k]@ == kv_map(self.pairs.deep_view())[k],
    {
        self.pairs_hashmap_owned()
    }

    /// A lookup table over the decoded pairs, built from owned copies of the
    /// keys and values: one entry per distinct key, last pair wins.
    pub fn pairs_hashmap_owned(&self) -> (m: StringHashMap<String>)
        ensures
            m@.dom() == kv_map(self.pairs.deep_view()).dom(),
            forall|k: Seq<char>| #[trigger]
                m@.contains_key(k) ==> m@[k]@ == kv_map(self.pairs.deep_view())[k],
    {
        let mut m = StringHashMap::<String>::new();
        let n = self.pairs.len();
        for i in 0..n
            invariant
                n == self.pairs.len(),
                m@.dom() == kv_map(self.pairs.deep_view().take(i as int)).dom(),
                forall|k: Seq<char>| #[trigger]
                    m@.contains_key(k) ==> m@[k]@ == kv_map(self.pairs.deep_view().take(i as int))[k],
        {
            m.insert(self.pairs[i].0.clone(), self.pairs[i].1.clone());
            proof {
                let d = self.pairs.deep_view();
                assert(d.take(i + 1).drop_last() =~= d.take(i as int));
                assert(d.take(i + 1).last() == d[i as int]);
                assert(m@.dom() =~= kv_map(d.take(i + 1)).dom());
            }
        }
        proof {
            assert(self.pairs.deep_view().take(n as int) =~= self.pairs.deep_view());
        }
        m
    }

    /// The extra lines, copied into a fresh vector, in order.
    pub fn extra_lines_vec(&self) -> (r: Vec<String>)
        ensures
            r.deep_view() == self.extra_lines.deep_view(),
    {
        let mut r: Vec<String> = Vec::new();
        let n = self.extra_lines.len();
        proof {
            assert(r.deep_view() =~= self.extra_lines.deep_view().take(0));
        }
        for i in 0..n
            invariant
                n == self.extra_lines.len(),
                r.deep_view() == self.extra_lines.deep_view().take(i as int),
        {
            let ghost prefix = r.deep_view();
            r.push(self.extra_lines[i].clone());
            proof {
                assert(r.deep_view() =~= prefix + seq![self.extra_lines.deep_view()[i as int]]);
                assert(prefix + seq![self.extra_lines.deep_view()[i as int]]
                    =~= self.extra_lines.deep_view().take(i + 1));
            }
        }
        proof {
            assert(self.extra_lines.deep_view().take(n as int) =~= self.extra_lines.deep_view());
        }
        r
    }

    /// The extra lines as owned copies, in order.
    pub fn extra_lines_vec_owned(&self) -> (r: Vec<String>)
        ensures
            r.deep_view() == self.extra_lines.deep_view(),
    {
        self.extra_lines_vec()
    }
}

/// A fresh builder with the default separator `": "` and newline `"\n"` and
/// an empty allow-list.
pub fn deserializer() -> (r: Deserializer)
    ensures
        r.spec_separator() == default_separator(),
        r.spec_newline() == default_newline(),
        r.spec_keys() == Seq::<Seq<char>>::empty(),
{
    Deserializer::new()
}

/// Decodes a source with the default separator: the recognized pairs and the
/// extra lines, each in source order.
pub fn parse(keys: Vec<String>, source: &str) -> (r: (Vec<(String, String)>, Vec<String>))
    ensures
        r.0.deep_view() == decoded_pairs(keys.deep_view(), default_separator(), source@),
        r.1.deep_view() == decoded_extras(keys.deep_view(), default_separator(), source@),
{
    let data = Deserializer::new().keys(keys).deserialize(source);
    (data.pairs, data.extra_lines)
}

} // verus!
