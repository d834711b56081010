//! Character-sequence utilities: splitting on a separator, counting and
//! locating a character, and case-insensitive ASCII comparison.
//!
//! The spec functions here are the vocabulary in which the metadata file
//! format and the volume-label lookup are described.

use vstd::prelude::*;

verus! {

/// Appends `c` to `s`.
///
/// Relies on `String::push`: appends the given char to the end of the string.
#[verifier::external_body]
pub(crate) fn push_char(s: &mut String, c: char)
    ensures
        final(s)@ == old(s)@.push(c),
{
    s.push(c);
}

/// Compares two string slices for equality of their character sequences.
pub fn str_eq(a: &str, b: &str) -> (r: bool)
    ensures
        r == (a@ == b@),
{
    let alen = a.unicode_len();
    let blen = b.unicode_len();
    if alen != blen {
        return false;
    }
    let mut i: usize = 0;
    while i < alen
        invariant
            alen == a@.len(),
            blen == b@.len(),
            alen == blen,
            0 <= i <= alen,
            forall|j: int| 0 <= j < i ==> a@[j] == b@[j],
        decreases alen - i,
    {
        if a.get_char(i) != b.get_char(i) {
            return false;
        }
        i += 1;
    }
    assert(a@ =~= b@);
    true
}

/// ASCII case folding on one character: an upper-case ASCII letter maps to
/// its lower-case counterpart, every other character to itself.
pub open spec fn char_fold(c: char) -> u32 {
    if 65 <= c as u32 && c as u32 <= 90 {
        (c as u32 + 32) as u32
    } else {
        c as u32
    }
}

/// Equality of two character sequences up to ASCII case.
pub open spec fn seq_eq_ignore_ascii_case(a: Seq<char>, b: Seq<char>) -> bool {
    &&& a.len() == b.len()
    &&& forall|i: int| 0 <= i < a.len() ==> char_fold(a[i]) == char_fold(b[i])
}

/// Compares two string slices for equality up to ASCII case.
pub fn eq_ignore_ascii_case(a: &str, b: &str) -> (r: bool)
    ensures
        r == seq_eq_ignore_ascii_case(a@, b@),
{
    let alen = a.unicode_len();
    let blen = b.unicode_len();
    if alen != blen {
        return false;
    }
    let mut i: usize = 0;
    while i < alen
        invariant
            alen == a@.len(),
            blen == b@.len(),
            alen == blen,
            0 <= i <= alen,
            forall|j: int| 0 <= j < i ==> char_fold(a@[j]) == char_fold(b@[j]),
        decreases alen - i,
    {
        let ca = a.get_char(i) as u32;
        let cb = b.get_char(i) as u32;
        let fa = if 65 <= ca && ca <= 90 { ca + 32 } else { ca };
        let fb = if 65 <= cb && cb <= 90 { cb + 32 } else { cb };
        if fa != fb {
            return false;
        }
        i += 1;
    }
    true
}

/// Splits `s` at every occurrence of `sep`. The separators themselves are
/// dropped; a string with `n` separators yields `n + 1` segments, so the
/// result is never empty and empty segments are kept.
pub open spec fn split_on(s: Seq<char>, sep: char) -> Seq<Seq<char>>
    decreases s.len(),
{
    if s.len() == 0 {
        seq![Seq::<char>::empty()]
    } else if s[0] == sep {
        seq![Seq::<char>::empty()] + split_on(s.drop_first(), sep)
    } else {
        let rest = split_on(s.drop_first(), sep);
        seq![seq![s[0]] + rest[0]] + rest.drop_first()
    }
}

pub proof fn lemma_split_on_len(s: Seq<char>, sep: char)
    ensures
        split_on(s, sep).len() >= 1,
    decreases s.len(),
{
    if s.len() > 0 {
        lemma_split_on_len(s.drop_first(), sep);
    }
}

/// Appending a non-separator character extends the last segment.
pub proof fn lemma_split_on_push(s: Seq<char>, sep: char, c: char)
    requires
        c != sep,
    ensures
        split_on(s.push(c), sep) == split_on(s, sep).update(
            split_on(s, sep).len() - 1,
            split_on(s, sep).last().push(c),
        ),
    decreases s.len(),
{
    lemma_split_on_len(s, sep);
    let before = split_on(s, sep);
    let after = split_on(s.push(c), sep);
    if s.len() == 0 {
        assert(s.push(c).drop_first() =~= Seq::<char>::empty());
        assert(after =~~= before.update(before.len() - 1, before.last().push(c)));
    } else {
        assert(s.push(c).drop_first() =~= s.drop_first().push(c));
        assert(s.push(c)[0] == s[0]);
        lemma_split_on_push(s.drop_first(), sep, c);
        lemma_split_on_len(s.drop_first(), sep);
        let rest = split_on(s.drop_first(), sep);
        let rest2 = split_on(s.drop_first().push(c), sep);
        if s[0] == sep {
            assert(after == seq![Seq::<char>::empty()] + split_on(s.push(c).drop_first(), sep));
            assert(split_on(s.push(c).drop_first(), sep) == split_on(s.drop_first().push(c), sep));
            assert(split_on(s.drop_first().push(c), sep) == rest.update(
                rest.len() - 1,
                rest.last().push(c),
            ));
            assert(before == seq![Seq::<char>::empty()] + rest);
            assert(before.last() == rest.last());
            assert(after =~~= before.update(before.len() - 1, before.last().push(c)));
        } else {
            if rest.len() == 1 {
                assert(rest2[0] == rest[0].push(c));
                assert((seq![s[0]] + rest[0]).push(c) =~= seq![s[0]] + rest[0].push(c));
                assert(after =~~= before.update(before.len() - 1, before.last().push(c)));
            } else {
                assert(rest2[0] == rest[0]);
                assert(rest2.last() == rest.last().push(c));
                assert(after =~~= before.update(before.len() - 1, before.last().push(c)));
            }
        }
    }
}

/// Appending the separator closes the current segment and opens an empty one.
pub proof fn lemma_split_on_push_sep(s: Seq<char>, sep: char)
    ensures
        split_on(s.push(sep), sep) == split_on(s, sep) + seq![Seq::<char>::empty()],
    decreases s.len(),
{
    if s.len() == 0 {
        reveal_with_fuel(split_on, 3);
        assert(s.push(sep).drop_first() =~= Seq::<char>::empty());
        assert(split_on(s.push(sep), sep) =~~= split_on(s, sep) + seq![Seq::<char>::empty()]);
    } else {
        assert(s.push(sep).drop_first() =~= s.drop_first().push(sep));
        assert(s.push(sep)[0] == s[0]);
        lemma_split_on_push_sep(s.drop_first(), sep);
        lemma_split_on_len(s.drop_first(), sep);
        let rest = split_on(s.drop_first(), sep);
        let rest2 = split_on(s.drop_first().push(sep), sep);
        assert(rest2 == rest + seq![Seq::<char>::empty()]);
        assert(rest2[0] == rest[0]);
        if s[0] == sep {
            assert(split_on(s.push(sep), sep) == seq![Seq::<char>::empty()] + rest2);
            assert(split_on(s, sep) == seq![Seq::<char>::empty()] + rest);
            assert(seq![Seq::<char>::empty()] + (rest + seq![Seq::<char>::empty()]) =~~= (seq![
                Seq::<char>::empty(),
            ] + rest) + seq![Seq::<char>::empty()]);
            assert(split_on(s.push(sep), sep) =~~= split_on(s, sep) + seq![Seq::<char>::empty()]);
        } else {
            assert(split_on(s.push(sep), sep) == seq![seq![s[0]] + rest2[0]] + rest2.drop_first());
            assert(rest2.drop_first() =~~= rest.drop_first() + seq![Seq::<char>::empty()]);
            assert(split_on(s.push(sep), sep) =~~= split_on(s, sep) + seq![Seq::<char>::empty()]);
        }
    }
}

/// Appending separator-free text extends the last segment.
pub proof fn lemma_split_on_append_no_sep(s: Seq<char>, u: Seq<char>, sep: char)
    requires
        forall|j: int| 0 <= j < u.len() ==> u[j] != sep,
    ensures
        split_on(s + u, sep) == split_on(s, sep).update(
            split_on(s, sep).len() - 1,
            split_on(s, sep).last() + u,
        ),
    decreases u.len(),
{
    lemma_split_on_len(s, sep);
    let before = split_on(s, sep);
    if u.len() == 0 {
        assert(s + u =~= s);
        assert(before.last() + u =~= before.last());
        assert(before.update(before.len() - 1, before.last()) =~= before);
    } else {
        lemma_split_on_append_no_sep(s, u.drop_last(), sep);
        assert(s + u =~= (s + u.drop_last()).push(u.last()));
        lemma_split_on_push(s + u.drop_last(), sep, u.last());
        let mid = split_on(s + u.drop_last(), sep);
        assert(mid.last() == before.last() + u.drop_last());
        assert((before.last() + u.drop_last()).push(u.last()) =~= before.last() + u);
        assert(split_on(s + u, sep) =~~= before.update(before.len() - 1, before.last() + u));
    }
}

/// Splits a string at every occurrence of `sep`.
pub fn split_str(s: &str, sep: char) -> (r: Vec<String>)
    ensures
        r@.map_values(|t: String| t@) == split_on(s@, sep),
{
    let len = s.unicode_len();
    let mut parts: Vec<String> = Vec::new();
    let mut cur: String = String::new();
    let mut i: usize = 0;
    while i < len
        invariant
            len == s@.len(),
            0 <= i <= len,
            parts@.map_values(|t: String| t@).push(cur@) == split_on(s@.take(i as int), sep),
        decreases len - i,
    {
        let c = s.get_char(i);
        proof {
            assert(s@.take(i + 1) =~= s@.take(i as int).push(s@[i as int]));
        }
        if c == sep {
            proof {
                lemma_split_on_push_sep(s@.take(i as int), sep);
            }
            parts.push(cur);
            cur = String::new();
            proof {
                assert(parts@.map_values(|t: String| t@).push(cur@) =~~= split_on(
                    s@.take(i + 1),
                    sep,
                ));
            }
        } else {
            proof {
                lemma_split_on_push(s@.take(i as int), sep, c);
                lemma_split_on_len(s@.take(i as int), sep);
            }
            push_char(&mut cur, c);
            proof {
                assert(parts@.map_values(|t: String| t@).push(cur@) =~~= split_on(
                    s@.take(i + 1),
                    sep,
                ));
            }
        }
        i += 1;
    }
    proof {
        assert(s@.take(len as int) =~= s@);
    }
    parts.push(cur);
    proof {
        assert(parts@.map_values(|t: String| t@) =~~= split_on(s@, sep));
    }
    parts
}

/// How many times `c` occurs in `s`.
pub open spec fn count_char(s: Seq<char>, c: char) -> nat
    decreases s.len(),
{
    if s.len() == 0 {
        0
    } else {
        count_char(s.drop_last(), c) + if s.last() == c {
            1nat
        } else {
            0nat
        }
    }
}

/// The index of the first occurrence of `c` in `s` (meaningful only when
/// `s` contains `c`).
pub open spec fn first_index_of(s: Seq<char>, c: char) -> int
    decreases s.len(),
{
    if s.len() == 0 {
        0
    } else if s[0] == c {
        0
    } else {
        1 + first_index_of(s.drop_first(), c)
    }
}

pub proof fn lemma_first_index_characterization(s: Seq<char>, c: char, k: int)
    requires
        0 <= k < s.len(),
        s[k] == c,
        forall|j: int| 0 <= j < k ==> s[j] != c,
    ensures
        first_index_of(s, c) == k,
    decreases s.len(),
{
    if k > 0 {
        assert(s[0] != c);
        lemma_first_index_characterization(s.drop_first(), c, k - 1);
    }
}

pub proof fn lemma_count_pos(s: Seq<char>, c: char, j: int)
    requires
        0 <= j < s.len(),
        s[j] == c,
    ensures
        count_char(s, c) >= 1,
    decreases s.len(),
{
    if j < s.len() - 1 {
        assert(s.drop_last()[j] == c);
        lemma_count_pos(s.drop_last(), c, j);
    }
}

pub proof fn lemma_count_two(s: Seq<char>, c: char, j: int, k: int)
    requires
        0 <= j < k < s.len(),
        s[j] == c,
        s[k] == c,
    ensures
        count_char(s, c) >= 2,
    decreases s.len(),
{
    if k == s.len() - 1 {
        assert(s.drop_last()[j] == c);
        lemma_count_pos(s.drop_last(), c, j);
    } else {
        assert(s.drop_last()[j] == c);
        assert(s.drop_last()[k] == c);
        lemma_count_two(s.drop_last(), c, j, k);
    }
}

pub proof fn lemma_count_zero(s: Seq<char>, c: char)
    requires
        forall|j: int| 0 <= j < s.len() ==> s[j] != c,
    ensures
        count_char(s, c) == 0,
    decreases s.len(),
{
    if s.len() > 0 {
        lemma_count_zero(s.drop_last(), c);
    }
}

/// `c` occurs in `a + b` as often as in `a` and in `b` together.
pub proof fn lemma_count_concat(a: Seq<char>, b: Seq<char>, c: char)
    ensures
        count_char(a + b, c) == count_char(a, c) + count_char(b, c),
    decreases b.len(),
{
    if b.len() == 0 {
        assert(a + b =~= a);
    } else {
        assert((a + b).drop_last() =~= a + b.drop_last());
        assert((a + b).last() == b.last());
        lemma_count_concat(a, b.drop_last(), c);
    }
}

/// In a string with exactly one occurrence of `c`, the occurrence is unique.
pub proof fn lemma_count_unique(s: Seq<char>, c: char, k: int)
    requires
        count_char(s, c) == 1,
        0 <= k < s.len(),
        s[k] == c,
    ensures
        forall|j: int| 0 <= j < s.len() && j != k ==> s[j] != c,
{
    assert forall|j: int| 0 <= j < s.len() && j != k implies s[j] != c by {
        if s[j] == c {
            if j < k {
                lemma_count_two(s, c, j, k);
            } else {
                lemma_count_two(s, c, k, j);
            }
        }
    }
}

/// Scans `line` for `=`. Returns the index of the only occurrence, or
/// `None` when the count of `=` characters differs from one.
pub(crate) fn find_single_eq(line: &str) -> (r: Option<usize>)
    ensures
        match r {
            Some(k) => {
                &&& count_char(line@, '=') == 1
                &&& 0 <= k < line@.len()
                &&& line@[k as int] == '='
                &&& k as int == first_index_of(line@, '=')
                &&& forall|j: int| 0 <= j < line@.len() && j != k ==> line@[j] != '='
            },
            None => count_char(line@, '=') != 1,
        },
{
    let len = line.unicode_len();
    let mut cnt: usize = 0;
    let mut first: Option<usize> = None;
    let mut i: usize = 0;
    while i < len
        invariant
            len == line@.len(),
            0 <= i <= len,
            cnt == count_char(line@.take(i as int), '='),
            cnt <= i,
            match first {
                Some(k) => {
                    &&& 0 <= k < i
                    &&& line@[k as int] == '='
                    &&& forall|j: int| 0 <= j < k ==> line@[j] != '='
                },
                None => forall|j: int| 0 <= j < i ==> line@[j] != '=',
            },
        decreases len - i,
    {
        let c = line.get_char(i);
        proof {
            assert(line@.take(i + 1).drop_last() =~= line@.take(i as int));
            assert(line@.take(i + 1).last() == line@[i as int]);
        }
        if c == '=' {
            cnt += 1;
            if first.is_none() {
                first = Some(i);
            }
        }
        i += 1;
    }
    proof {
        assert(line@.take(len as int) =~= line@);
    }
    if cnt == 1 {
        match first {
            Some(k) => {
                proof {
                    lemma_first_index_characterization(line@, '=', k as int);
                    lemma_count_unique(line@, '=', k as int);
                }
                Some(k)
            },
            None => {
                proof {
                    lemma_count_zero(line@, '=');
                }
                assert(false);
                None
            },
        }
    } else {
        None
    }
}

} // verus!
