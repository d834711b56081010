//! The on-device identity file: a flat `key="value"` store.
//!
//! One line per entry, key and value separated by `=`, value wrapped in
//! double quotes. Parsing is deliberately lenient: a line whose number of
//! `=` characters differs from one is silently dropped, and every double
//! quote in a value is removed, not only the wrapping pair. Later lines win
//! over earlier ones for the same key.

use crate::text::{
    count_char, find_single_eq, first_index_of, lemma_count_concat, lemma_count_zero,
    lemma_first_index_characterization, lemma_split_on_append_no_sep, lemma_split_on_len,
    lemma_split_on_push_sep, push_char, split_on, split_str, str_eq,
};
use vstd::pervasive::VecAdditionalExecFns;
use vstd::prelude::*;

verus! {

/// Keys are pairwise distinct.
pub open spec fn wf_entries(e: Seq<(Seq<char>, Seq<char>)>) -> bool {
    forall|i: int, j: int| 0 <= i < j < e.len() ==> (#[trigger] e[i]).0 != (#[trigger] e[j]).0
}

/// The mapping that a sequence of entries denotes, later entries winning.
pub open spec fn map_of_entries(e: Seq<(Seq<char>, Seq<char>)>) -> Map<Seq<char>, Seq<char>>
    decreases e.len(),
{
    if e.len() == 0 {
        Map::empty()
    } else {
        map_of_entries(e.drop_last()).insert(e.last().0, e.last().1)
    }
}

pub proof fn lemma_map_of_entries_contains(e: Seq<(Seq<char>, Seq<char>)>, k: Seq<char>)
    ensures
        map_of_entries(e).contains_key(k) <==> exists|i: int|
            0 <= i < e.len() && (#[trigger] e[i]).0 == k,
    decreases e.len(),
{
    if e.len() > 0 {
        lemma_map_of_entries_contains(e.drop_last(), k);
        if e.last().0 == k {
            assert((#[trigger] e[e.len() - 1]).0 == k);
        } else if map_of_entries(e).contains_key(k) {
            let i = choose|i: int| 0 <= i < e.drop_last().len() && (#[trigger] e.drop_last()[i]).0
                == k;
            assert((#[trigger] e[i]).0 == k);
        } else {
            assert forall|i: int| 0 <= i < e.len() implies (#[trigger] e[i]).0 != k by {
                if i < e.len() - 1 {
                    assert(e.drop_last()[i] == e[i]);
                }
            }
        }
    }
}

pub proof fn lemma_map_of_entries_value(e: Seq<(Seq<char>, Seq<char>)>, i: int)
    requires
        wf_entries(e),
        0 <= i < e.len(),
    ensures
        map_of_entries(e).contains_key(e[i].0),
        map_of_entries(e)[e[i].0] == e[i].1,
    decreases e.len(),
{
    if i == e.len() - 1 {
    } else {
        assert(e.drop_last()[i] == e[i]);
        assert(wf_entries(e.drop_last())) by {
            assert forall|p: int, q: int|
                0 <= p < q < e.drop_last().len() implies (#[trigger] e.drop_last()[p]).0 != (
            #[trigger] e.drop_last()[q]).0 by {
                assert(e.drop_last()[p] == e[p]);
                assert(e.drop_last()[q] == e[q]);
            }
        }
        lemma_map_of_entries_value(e.drop_last(), i);
        assert(e.last().0 != e[i].0);
    }
}

/// Replaces the value of `k` in place when an entry for `k` exists, else
/// appends a new entry.
pub open spec fn upsert_entries(e: Seq<(Seq<char>, Seq<char>)>, k: Seq<char>, v: Seq<char>) -> Seq<
    (Seq<char>, Seq<char>),
>
    decreases e.len(),
{
    if e.len() == 0 {
        seq![(k, v)]
    } else if e.last().0 == k {
        e.drop_last().push((k, v))
    } else if exists|i: int| 0 <= i < e.len() && (#[trigger] e[i]).0 == k {
        upsert_entries(e.drop_last(), k, v).push(e.last())
    } else {
        e.push((k, v))
    }
}

/// The identity file's contents: string keys mapped to string values.
///
/// Entries keep their order; keys are unique; inserting an existing key
/// overwrites its value in place.
#[derive(Debug)]
pub struct Metadata {
    entries: Vec<(String, String)>,
}

impl View for Metadata {
    type V = Map<Seq<char>, Seq<char>>;

    open spec fn view(&self) -> Map<Seq<char>, Seq<char>> {
        map_of_entries(self.entries_view())
    }
}

impl Metadata {
    /// The entries in storage order, as character sequences.
    pub closed spec fn entries_view(&self) -> Seq<(Seq<char>, Seq<char>)> {
        self.entries@.map_values(|p: (String, String)| (p.0@, p.1@))
    }

    pub open spec fn wf(&self) -> bool {
        wf_entries(self.entries_view())
    }

    /// An empty store.
    pub fn new() -> (r: Metadata)
        ensures
            r.wf(),
            r@ == Map::<Seq<char>, Seq<char>>::empty(),
            r.entries_view() == Seq::<(Seq<char>, Seq<char>)>::empty(),
    {
        let r = Metadata { entries: Vec::new() };
        proof {
            assert(r.entries_view() =~= Seq::<(Seq<char>, Seq<char>)>::empty());
        }
        r
    }

    /// How many entries the store holds.
    pub fn len(&self) -> (n: usize)
        ensures
            n == self.entries_view().len(),
    {
        self.entries.len()
    }

    /// Looks a key up; `None` exactly when no entry has it.
    pub fn get(&self, key: &str) -> (r: Option<&String>)
        requires
            self.wf(),
        ensures
            match r {
                Some(v) => self@.contains_key(key@) && v@ == self@[key@],
                None => !self@.contains_key(key@),
            },
    {
        let n = self.entries.len();
        let mut i: usize = 0;
        while i < n
            invariant
                self.wf(),
                n == self.entries@.len(),
                0 <= i <= n,
                forall|j: int| 0 <= j < i ==> (#[trigger] self.entries_view()[j]).0 != key@,
            decreases n - i,
        {
            if str_eq(self.entries[i].0.as_str(), key) {
                proof {
                    assert(self.entries_view()[i as int].0 == key@);
                    lemma_map_of_entries_value(self.entries_view(), i as int);
                }
                return Some(&self.entries[i].1);
            }
            proof {
                assert(self.entries_view()[i as int].0 != key@);
            }
            i += 1;
        }
        proof {
            lemma_map_of_entries_contains(self.entries_view(), key@);
        }
        None
    }

    /// Binds `key` to `value`, overwriting an existing entry in place and
    /// appending otherwise: last write wins.
    pub fn insert(&mut self, key: String, value: String)
        requires
            old(self).wf(),
        ensures
            final(self).wf(),
            final(self)@ == old(self)@.insert(key@, value@),
            final(self).entries_view() == upsert_entries(
                old(self).entries_view(),
                key@,
                value@,
            ),
    {
        let n = self.entries.len();
        let mut i: usize = 0;
        while i < n
            invariant
                self == old(self),
                old(self).wf(),
                n == self.entries@.len(),
                0 <= i <= n,
                forall|j: int| 0 <= j < i ==> (#[trigger] old(self).entries_view()[j]).0 != key@,
            decreases n - i,
        {
            let ghost olde = old(self).entries_view();
            if str_eq(self.entries[i].0.as_str(), key.as_str()) {
                proof {
                    assert(olde[i as int].0 == key@);
                }
                self.entries.set(i, (key, value));
                proof {
                    assert(self.entries_view() =~= olde.update(i as int, (key@, value@)));
                    lemma_upsert_at_index(olde, key@, value@, i as int);
                    lemma_upsert_wf(olde, key@, value@);
                    lemma_upsert_map(olde, key@, value@);
                }
                return ;
            }
            proof {
                assert(olde[i as int].0 != key@);
            }
            i += 1;
        }
        let ghost olde = old(self).entries_view();
        proof {
            assert(forall|j: int| 0 <= j < olde.len() ==> (#[trigger] olde[j]).0 != key@);
        }
        self.entries.push((key, value));
        proof {
            assert(self.entries_view() =~= olde.push((key@, value@)));
            assert(self.entries_view().drop_last() =~= olde);
            assert(self.entries_view().last() == (key@, value@));
            lemma_upsert_wf(olde, key@, value@);
            lemma_upsert_map(olde, key@, value@);
            assert(upsert_entries(olde, key@, value@) =~= olde.push((key@, value@)));
        }
    }
}

/// Every key of an upserted sequence is the new key or one of the old keys.
proof fn lemma_upsert_keys(e: Seq<(Seq<char>, Seq<char>)>, k: Seq<char>, v: Seq<char>)
    ensures
        forall|j: int|
            0 <= j < upsert_entries(e, k, v).len() ==> ((#[trigger] upsert_entries(e, k, v)[j]).0
                == k || exists|i: int| 0 <= i < e.len() && (#[trigger] e[i]).0 == upsert_entries(
                e,
                k,
                v,
            )[j].0),
    decreases e.len(),
{
    let u = upsert_entries(e, k, v);
    if e.len() == 0 {
    } else if e.last().0 == k {
        assert forall|j: int| 0 <= j < u.len() implies ((#[trigger] u[j]).0 == k || exists|i: int|
            0 <= i < e.len() && (#[trigger] e[i]).0 == u[j].0) by {
            if j < u.len() - 1 {
                assert(u[j] == e.drop_last()[j]);
                assert((#[trigger] e[j]).0 == u[j].0);
            }
        }
    } else if exists|i: int| 0 <= i < e.len() && (#[trigger] e[i]).0 == k {
        lemma_upsert_keys(e.drop_last(), k, v);
        let ud = upsert_entries(e.drop_last(), k, v);
        assert forall|j: int| 0 <= j < u.len() implies ((#[trigger] u[j]).0 == k || exists|i: int|
            0 <= i < e.len() && (#[trigger] e[i]).0 == u[j].0) by {
            if j == u.len() - 1 {
                assert(u[j] == e.last());
                assert((#[trigger] e[e.len() - 1]).0 == u[j].0);
            } else {
                assert(u[j] == ud[j]);
                if ud[j].0 != k {
                    let i = choose|i: int|
                        0 <= i < e.drop_last().len() && (#[trigger] e.drop_last()[i]).0 == ud[j].0;
                    assert((#[trigger] e[i]).0 == u[j].0);
                }
            }
        }
    } else {
        assert forall|j: int| 0 <= j < u.len() implies ((#[trigger] u[j]).0 == k || exists|i: int|
            0 <= i < e.len() && (#[trigger] e[i]).0 == u[j].0) by {
            if j < u.len() - 1 {
                assert((#[trigger] e[j]).0 == u[j].0);
            }
        }
    }
}

proof fn lemma_upsert_wf(e: Seq<(Seq<char>, Seq<char>)>, k: Seq<char>, v: Seq<char>)
    requires
        wf_entries(e),
    ensures
        wf_entries(upsert_entries(e, k, v)),
    decreases e.len(),
{
    let u = upsert_entries(e, k, v);
    if e.len() == 0 {
    } else if e.last().0 == k {
        assert forall|p: int, q: int| 0 <= p < q < u.len() implies (#[trigger] u[p]).0 != (
        #[trigger] u[q]).0 by {
            if q < u.len() - 1 {
                assert(u[p] == e[p] && u[q] == e[q]);
            } else {
                assert(u[p] == e[p]);
                assert(u[q].0 == e[e.len() - 1].0);
            }
        }
    } else if exists|i: int| 0 <= i < e.len() && (#[trigger] e[i]).0 == k {
        assert(wf_entries(e.drop_last())) by {
            assert forall|p: int, q: int|
                0 <= p < q < e.drop_last().len() implies (#[trigger] e.drop_last()[p]).0 != (
            #[trigger] e.drop_last()[q]).0 by {
                assert(e.drop_last()[p] == e[p]);
                assert(e.drop_last()[q] == e[q]);
            }
        }
        lemma_upsert_wf(e.drop_last(), k, v);
        lemma_upsert_keys(e.drop_last(), k, v);
        let ud = upsert_entries(e.drop_last(), k, v);
        assert forall|p: int, q: int| 0 <= p < q < u.len() implies (#[trigger] u[p]).0 != (
        #[trigger] u[q]).0 by {
            if q == u.len() - 1 {
                assert(u[q] == e.last());
                assert(u[p] == ud[p]);
                if ud[p].0 == k {
                } else {
                    let i = choose|i: int|
                        0 <= i < e.drop_last().len() && (#[trigger] e.drop_last()[i]).0 == ud[p].0;
                    assert(e[i] == e.drop_last()[i]);
                    assert(e[i].0 != e.last().0);
                }
            } else {
                assert(u[p] == ud[p] && u[q] == ud[q]);
            }
        }
    } else {
        assert forall|p: int, q: int| 0 <= p < q < u.len() implies (#[trigger] u[p]).0 != (
        #[trigger] u[q]).0 by {
            if q < u.len() - 1 {
                assert(u[p] == e[p] && u[q] == e[q]);
            } else {
                assert(u[p] == e[p]);
                assert((#[trigger] e[p]).0 != k);
            }
        }
    }
}

proof fn lemma_upsert_map(e: Seq<(Seq<char>, Seq<char>)>, k: Seq<char>, v: Seq<char>)
    ensures
        map_of_entries(upsert_entries(e, k, v)) == map_of_entries(e).insert(k, v),
    decreases e.len(),
{
    let u = upsert_entries(e, k, v);
    if e.len() == 0 {
        reveal_with_fuel(map_of_entries, 3);
        assert(u.drop_last() =~= Seq::<(Seq<char>, Seq<char>)>::empty());
        assert(map_of_entries(u) =~= map_of_entries(e).insert(k, v));
    } else if e.last().0 == k {
        assert(u.drop_last() =~= e.drop_last());
        assert(map_of_entries(u) == map_of_entries(e.drop_last()).insert(k, v));
        assert(map_of_entries(e).insert(k, v) =~= map_of_entries(e.drop_last()).insert(k, v));
    } else if exists|i: int| 0 <= i < e.len() && (#[trigger] e[i]).0 == k {
        lemma_upsert_map(e.drop_last(), k, v);
        let ud = upsert_entries(e.drop_last(), k, v);
        assert(u.drop_last() =~= ud);
        assert(u.last() == e.last());
        let m = map_of_entries(e.drop_last());
        assert(map_of_entries(u) == m.insert(k, v).insert(e.last().0, e.last().1));
        assert(map_of_entries(e) == m.insert(e.last().0, e.last().1));
        assert(m.insert(k, v).insert(e.last().0, e.last().1) =~= m.insert(
            e.last().0,
            e.last().1,
        ).insert(k, v));
    } else {
        assert(u.drop_last() =~= e);
        assert(map_of_entries(u) == map_of_entries(e).insert(k, v));
    }
}

/// Where the key already stands at index `i`, upserting rewrites that slot.
proof fn lemma_upsert_at_index(e: Seq<(Seq<char>, Seq<char>)>, k: Seq<char>, v: Seq<char>, i: int)
    requires
        wf_entries(e),
        0 <= i < e.len(),
        e[i].0 == k,
    ensures
        upsert_entries(e, k, v) == e.update(i, (k, v)),
    decreases e.len(),
{
    let u = upsert_entries(e, k, v);
    if i == e.len() - 1 {
        assert(u =~= e.update(i, (k, v)));
    } else {
        assert(e.last().0 != k);
        assert(wf_entries(e.drop_last())) by {
            assert forall|p: int, q: int|
                0 <= p < q < e.drop_last().len() implies (#[trigger] e.drop_last()[p]).0 != (
            #[trigger] e.drop_last()[q]).0 by {
                assert(e.drop_last()[p] == e[p]);
                assert(e.drop_last()[q] == e[q]);
            }
        }
        assert(e.drop_last()[i] == e[i]);
        assert(exists|j: int| 0 <= j < e.len() && (#[trigger] e[j]).0 == k);
        lemma_upsert_at_index(e.drop_last(), k, v, i);
        assert(u == upsert_entries(e.drop_last(), k, v).push(e.last()));
        assert(u =~= e.update(i, (k, v)));
    }
}

/// A line keeps its text, except that one trailing carriage return falls
/// away.
pub open spec fn norm_line(l: Seq<char>) -> Seq<char> {
    if l.len() > 0 && l.last() == '\r' {
        l.drop_last()
    } else {
        l
    }
}

/// A line is accepted exactly when it holds one `=` character.
pub open spec fn line_ok(l: Seq<char>) -> bool {
    count_char(l, '=') == 1
}

/// The text before the `=` of an accepted line.
pub open spec fn line_key(l: Seq<char>) -> Seq<char> {
    l.take(first_index_of(l, '='))
}

pub open spec fn keep_char(c: char) -> bool {
    c != '"'
}

/// Every double quote removed, wherever it stands.
pub open spec fn strip_quotes(v: Seq<char>) -> Seq<char> {
    v.filter(|c: char| keep_char(c))
}

/// The text after the `=` of an accepted line, with every `"` removed.
pub open spec fn line_value(l: Seq<char>) -> Seq<char> {
    strip_quotes(l.skip(first_index_of(l, '=') + 1))
}

/// Folds a sequence of raw lines into a mapping, dropping lines without
/// exactly one `=`, later lines winning.
pub open spec fn lines_to_map(lines: Seq<Seq<char>>) -> Map<Seq<char>, Seq<char>>
    decreases lines.len(),
{
    if lines.len() == 0 {
        Map::empty()
    } else {
        let m = lines_to_map(lines.drop_last());
        let l = norm_line(lines.last());
        if line_ok(l) {
            m.insert(line_key(l), line_value(l))
        } else {
            m
        }
    }
}

/// What parsing a whole identity file yields.
pub open spec fn parse_spec(s: Seq<char>) -> Map<Seq<char>, Seq<char>> {
    lines_to_map(split_on(s, '\n'))
}

/// The serialised form of one entry: `key="value"` and a newline.
pub open spec fn line_text(kv: (Seq<char>, Seq<char>)) -> Seq<char> {
    kv.0 + seq!['=', '"'] + kv.1 + seq!['"', '\n']
}

/// The serialised form of a sequence of entries, in order.
pub open spec fn serialize_spec(entries: Seq<(Seq<char>, Seq<char>)>) -> Seq<char>
    decreases entries.len(),
{
    if entries.len() == 0 {
        Seq::empty()
    } else {
        serialize_spec(entries.drop_last()) + line_text(entries.last())
    }
}

proof fn lemma_strip_quotes_push(v: Seq<char>, c: char)
    ensures
        strip_quotes(v.push(c)) == if keep_char(c) {
            strip_quotes(v).push(c)
        } else {
            strip_quotes(v)
        },
{
    reveal(Seq::filter);
    assert(v.push(c).drop_last() =~= v);
    assert(v.push(c).last() == c);
}

/// Parses one (already normalised) line.
fn parse_line(line: &str) -> (r: Option<(String, String)>)
    ensures
        match r {
            Some(kv) => line_ok(line@) && kv.0@ == line_key(line@) && kv.1@ == line_value(line@),
            None => !line_ok(line@),
        },
{
    match find_single_eq(line) {
        None => None,
        Some(k) => {
            let len = line.unicode_len();
            let keypart = line.substring_char(0, k);
            let key: String = keypart.to_owned();
            let mut value = String::new();
            let mut i: usize = k + 1;
            proof {
                assert(line@.subrange(k + 1, k + 1) =~= Seq::<char>::empty());
                reveal(Seq::filter);
            }
            while i < len
                invariant
                    len == line@.len(),
                    k < i <= len,
                    value@ == strip_quotes(line@.subrange(k + 1, i as int)),
                decreases len - i,
            {
                let c = line.get_char(i);
                proof {
                    assert(line@.subrange(k + 1, i + 1) =~= line@.subrange(k + 1, i as int).push(
                        line@[i as int],
                    ));
                    lemma_strip_quotes_push(line@.subrange(k + 1, i as int), line@[i as int]);
                }
                if c != '"' {
                    push_char(&mut value, c);
                }
                i += 1;
            }
            proof {
                assert(line@.subrange(k + 1, len as int) =~= line@.skip(k + 1));
                assert(key@ == line@.take(k as int));
            }
            Some((key, value))
        },
    }
}

/// Parses the text of an identity file: one `key="value"` pair per line,
/// a line without exactly one `=` silently dropped, every `"` stripped from
/// the value, later lines winning over earlier ones.
pub fn parse_lines(file_content: &str) -> (r: Metadata)
    ensures
        r.wf(),
        r@ == parse_spec(file_content@),
{
    let lines = split_str(file_content, '\n');
    let n = lines.len();
    let mut m = Metadata::new();
    let mut i: usize = 0;
    proof {
        assert(split_on(file_content@, '\n').take(0) =~= Seq::<Seq<char>>::empty());
    }
    while i < n
        invariant
            n == lines@.len(),
            0 <= i <= n,
            lines@.map_values(|t: String| t@) == split_on(file_content@, '\n'),
            m.wf(),
            m@ == lines_to_map(split_on(file_content@, '\n').take(i as int)),
        decreases n - i,
    {
        let ghost lviews = split_on(file_content@, '\n');
        let line = &lines[i];
        let llen = line.as_str().unicode_len();
        proof {
            assert(lviews[i as int] == line@);
        }
        let norm: &str = if llen > 0 && line.as_str().get_char(llen - 1) == '\r' {
            let cut = line.as_str().substring_char(0, llen - 1);
            proof {
                assert(cut@ =~= norm_line(line@));
            }
            cut
        } else {
            line.as_str()
        };
        proof {
            assert(norm@ == norm_line(lviews[i as int]));
            assert(lviews.take(i + 1).drop_last() =~= lviews.take(i as int));
            assert(lviews.take(i + 1).last() == lviews[i as int]);
        }
        match parse_line(norm) {
            Some(kv) => {
                m.insert(kv.0, kv.1);
            },
            None => {},
        }
        i += 1;
    }
    proof {
        assert(split_on(file_content@, '\n').take(n as int) =~= split_on(file_content@, '\n'));
    }
    m
}

/// Serialises the store: for each entry, in storage order, the line
/// `key="value"` followed by a newline.
pub fn write_lines(dict: Metadata) -> (r: String)
    ensures
        r@ == serialize_spec(dict.entries_view()),
{
    let mut out = String::new();
    let n = dict.entries.len();
    let mut i: usize = 0;
    proof {
        assert(dict.entries_view().take(0) =~= Seq::<(Seq<char>, Seq<char>)>::empty());
    }
    while i < n
        invariant
            n == dict.entries@.len(),
            0 <= i <= n,
            out@ == serialize_spec(dict.entries_view().take(i as int)),
        decreases n - i,
    {
        let ghost ev = dict.entries_view();
        out.append(dict.entries[i].0.as_str());
        out.append("=\"");
        out.append(dict.entries[i].1.as_str());
        out.append("\"\n");
        proof {
            reveal_strlit("=\"");
            reveal_strlit("\"\n");
            assert("=\""@ =~= seq!['=', '"']);
            assert("\"\n"@ =~= seq!['"', '\n']);
            assert(ev.take(i + 1).drop_last() =~= ev.take(i as int));
            assert(ev.take(i + 1).last() == ev[i as int]);
            assert(out@ =~= serialize_spec(ev.take(i as int)) + line_text(ev[i as int]));
        }
        i += 1;
    }
    proof {
        assert(dict.entries_view().take(n as int) =~= dict.entries_view());
    }
    out
}

/// An entry that the file format can carry faithfully: no `=` or newline in
/// key or value, and no `"` in the value.
pub open spec fn entry_clean(kv: (Seq<char>, Seq<char>)) -> bool {
    &&& forall|i: int| 0 <= i < kv.0.len() ==> kv.0[i] != '=' && kv.0[i] != '\n'
    &&& forall|i: int| 0 <= i < kv.1.len() ==> kv.1[i] != '=' && kv.1[i] != '\n' && kv.1[i] != '"'
}

pub open spec fn entries_clean(e: Seq<(Seq<char>, Seq<char>)>) -> bool {
    forall|i: int| 0 <= i < e.len() ==> entry_clean(#[trigger] e[i])
}

/// One serialised entry without its final newline.
pub open spec fn line_body(kv: (Seq<char>, Seq<char>)) -> Seq<char> {
    kv.0 + seq!['=', '"'] + kv.1 + seq!['"']
}

proof fn lemma_strip_quotes_concat(a: Seq<char>, b: Seq<char>)
    ensures
        strip_quotes(a + b) == strip_quotes(a) + strip_quotes(b),
    decreases b.len(),
{
    reveal(Seq::filter);
    if b.len() == 0 {
        assert(a + b =~= a);
        assert(strip_quotes(b) =~= Seq::<char>::empty());
        assert(strip_quotes(a) + strip_quotes(b) =~= strip_quotes(a));
    } else {
        lemma_strip_quotes_concat(a, b.drop_last());
        assert(a + b =~= (a + b.drop_last()).push(b.last()));
        lemma_strip_quotes_push(a + b.drop_last(), b.last());
        lemma_strip_quotes_push(b.drop_last(), b.last());
        assert(b.drop_last().push(b.last()) =~= b);
        if keep_char(b.last()) {
            assert(strip_quotes(a + b) =~= strip_quotes(a) + strip_quotes(b));
        } else {
            assert(strip_quotes(a + b) =~= strip_quotes(a) + strip_quotes(b));
        }
    }
}

proof fn lemma_strip_quotes_id(v: Seq<char>)
    requires
        forall|i: int| 0 <= i < v.len() ==> v[i] != '"',
    ensures
        strip_quotes(v) == v,
    decreases v.len(),
{
    reveal(Seq::filter);
    if v.len() == 0 {
        assert(strip_quotes(v) =~= v);
    } else {
        assert(forall|i: int| 0 <= i < v.drop_last().len() ==> v.drop_last()[i] != '"');
        lemma_strip_quotes_id(v.drop_last());
        lemma_strip_quotes_push(v.drop_last(), v.last());
        assert(v.drop_last().push(v.last()) =~= v);
    }
}

/// A clean entry's serialised line parses back to exactly that entry.
proof fn lemma_line_body_parses(kv: (Seq<char>, Seq<char>))
    requires
        entry_clean(kv),
    ensures
        norm_line(line_body(kv)) == line_body(kv),
        line_ok(line_body(kv)),
        line_key(line_body(kv)) == kv.0,
        line_value(line_body(kv)) == kv.1,
{
    let body = line_body(kv);
    let klen = kv.0.len() as int;
    assert(body.len() == klen + 3 + kv.1.len());
    assert(body.last() == '"');
    assert(norm_line(body) == body);
    assert(count_char(body, '=') == 1) by {
        lemma_count_concat(kv.0 + seq!['=', '"'] + kv.1, seq!['"'], '=');
        lemma_count_concat(kv.0 + seq!['=', '"'], kv.1, '=');
        lemma_count_concat(kv.0, seq!['=', '"'], '=');
        lemma_count_zero(kv.0, '=');
        lemma_count_zero(kv.1, '=');
        reveal_with_fuel(count_char, 4);
        assert(count_char(seq!['=', '"'], '=') == 1);
        assert(count_char(seq!['"'], '=') == 0);
    }
    assert(body[klen] == '=');
    assert(forall|j: int| 0 <= j < klen ==> body[j] == kv.0[j]);
    lemma_first_index_characterization(body, '=', klen);
    assert(line_key(body) =~= kv.0);
    assert(body.skip(klen + 1) =~= seq!['"'] + kv.1 + seq!['"']);
    lemma_strip_quotes_concat(seq!['"'] + kv.1, seq!['"']);
    lemma_strip_quotes_concat(seq!['"'], kv.1);
    lemma_strip_quotes_id(kv.1);
    assert(strip_quotes(seq!['"']) =~= Seq::<char>::empty()) by {
        reveal(Seq::filter);
        lemma_strip_quotes_push(Seq::<char>::empty(), '"');
        assert(Seq::<char>::empty().push('"') =~= seq!['"']);
    }
    assert(line_value(body) =~= kv.1);
}

/// The serialised store splits back into one segment per entry plus a final
/// empty segment after the last newline.
proof fn lemma_serialize_split(e: Seq<(Seq<char>, Seq<char>)>)
    requires
        entries_clean(e),
    ensures
        split_on(serialize_spec(e), '\n') == e.map_values(|kv: (Seq<char>, Seq<char>)| line_body(kv)).push(
            Seq::<char>::empty(),
        ),
    decreases e.len(),
{
    let f = |kv: (Seq<char>, Seq<char>)| line_body(kv);
    if e.len() == 0 {
        assert(split_on(serialize_spec(e), '\n') =~~= e.map_values(f).push(Seq::<char>::empty()));
    } else {
        let dl = e.drop_last();
        assert(entries_clean(dl)) by {
            assert(forall|i: int| 0 <= i < dl.len() ==> dl[i] == #[trigger] e[i]);
        }
        lemma_serialize_split(dl);
        let kv = e.last();
        assert(entry_clean(kv));
        let body = line_body(kv);
        assert(forall|j: int| 0 <= j < body.len() ==> body[j] != '\n') by {
            assert(forall|j: int| 0 <= j < kv.0.len() ==> body[j] == kv.0[j]);
            assert(body[kv.0.len() as int] == '=');
            assert(body[kv.0.len() + 1int] == '"');
            assert(forall|j: int|
                0 <= j < kv.1.len() ==> body[kv.0.len() + 2 + j] == kv.1[j]);
            assert(body[kv.0.len() + 2int + kv.1.len()] == '"');
            assert(body.len() == kv.0.len() + 3 + kv.1.len());
        }
        assert(serialize_spec(e) == serialize_spec(dl) + line_text(kv));
        assert(line_text(kv) =~= body.push('\n'));
        assert(serialize_spec(dl) + line_text(kv) =~= (serialize_spec(dl) + body).push('\n'));
        lemma_split_on_append_no_sep(serialize_spec(dl), body, '\n');
        lemma_split_on_push_sep(serialize_spec(dl) + body, '\n');
        lemma_split_on_len(serialize_spec(dl), '\n');
        assert((dl.map_values(f).push(Seq::<char>::empty())).last() =~= Seq::<char>::empty());
        assert(Seq::<char>::empty() + body =~= body);
        assert(split_on(serialize_spec(e), '\n') =~~= e.map_values(f).push(Seq::<char>::empty()));
    }
}

proof fn lemma_lines_to_map_of_bodies(e: Seq<(Seq<char>, Seq<char>)>)
    requires
        entries_clean(e),
    ensures
        lines_to_map(e.map_values(|kv: (Seq<char>, Seq<char>)| line_body(kv))) == map_of_entries(e),
    decreases e.len(),
{
    let f = |kv: (Seq<char>, Seq<char>)| line_body(kv);
    if e.len() == 0 {
        assert(e.map_values(f).len() == 0);
    } else {
        let dl = e.drop_last();
        assert(entries_clean(dl)) by {
            assert(forall|i: int| 0 <= i < dl.len() ==> dl[i] == #[trigger] e[i]);
        }
        lemma_lines_to_map_of_bodies(dl);
        assert(e.map_values(f).drop_last() =~= dl.map_values(f));
        assert(e.map_values(f).last() == line_body(e.last()));
        lemma_line_body_parses(e.last());
    }
}

/// Parsing the serialised form of a store yields exactly the store's
/// mapping: serialisation followed by parsing is the identity on the
/// mapping's contents (line order does not enter; the mapping is unordered),
/// for every store whose keys and values the file format can carry.
pub proof fn lemma_parse_serialize_roundtrip(dict: Metadata)
    requires
        entries_clean(dict.entries_view()),
    ensures
        parse_spec(serialize_spec(dict.entries_view())) == dict@,
{
    let e = dict.entries_view();
    let f = |kv: (Seq<char>, Seq<char>)| line_body(kv);
    lemma_serialize_split(e);
    let withempty = e.map_values(f).push(Seq::<char>::empty());
    assert(withempty.drop_last() =~= e.map_values(f));
    assert(norm_line(Seq::<char>::empty()) =~= Seq::<char>::empty());
    assert(count_char(Seq::<char>::empty(), '=') == 0);
    assert(lines_to_map(withempty) == lines_to_map(e.map_values(f)));
    lemma_lines_to_map_of_bodies(e);
}

proof fn lemma_lines_to_map_keys(lines: Seq<Seq<char>>, k: Seq<char>)
    requires
        lines_to_map(lines).contains_key(k),
    ensures
        exists|i: int|
            0 <= i < lines.len() && line_ok(norm_line(#[trigger] lines[i])) && line_key(
                norm_line(lines[i]),
            ) == k,
    decreases lines.len(),
{
    if lines.len() > 0 {
        let l = norm_line(lines.last());
        if line_ok(l) && line_key(l) == k {
            assert(line_ok(norm_line(#[trigger] lines[lines.len() - 1])));
        } else {
            lemma_lines_to_map_keys(lines.drop_last(), k);
            let i = choose|i: int|
                0 <= i < lines.drop_last().len() && line_ok(
                    norm_line(#[trigger] lines.drop_last()[i]),
                ) && line_key(norm_line(lines.drop_last()[i])) == k;
            assert(lines.drop_last()[i] == lines[i]);
            assert(line_ok(norm_line(#[trigger] lines[i])));
        }
    }
}

/// Every key of a parsed mapping stems from a line with exactly one `=`:
/// a line whose number of `=` characters differs from one contributes
/// nothing to the result.
pub proof fn lemma_parse_keys(s: Seq<char>, k: Seq<char>)
    requires
        parse_spec(s).contains_key(k),
    ensures
        exists|i: int|
            0 <= i < split_on(s, '\n').len() && line_ok(
                norm_line(#[trigger] split_on(s, '\n')[i]),
            ) && line_key(norm_line(split_on(s, '\n')[i])) == k,
{
    lemma_lines_to_map_keys(split_on(s, '\n'), k);
}

} // verus!
