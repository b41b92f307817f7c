//! The key-value parser: raw `KEY=VALUE` text, one pair per line, into
//! an `AttrMap`. The input is trimmed of leading and trailing
//! whitespace; a line yields an entry exactly when it holds a single
//! `=` with non-empty text on both sides; other lines are dropped
//! silently; a repeated key keeps its last value.

use vstd::prelude::*;
use crate::text::{is_space_char, is_space};
use crate::attrs::{AttrMap, lemma_sorted_unique};

verus! {

/// Number of occurrences of `c` in `s`.
pub open spec fn count_char(s: Seq<char>, c: char) -> int
    decreases s.len(),
{
    if s.len() == 0 {
        0
    } else {
        count_char(s.drop_last(), c) + if s.last() == c { 1int } else { 0int }
    }
}

pub proof fn lemma_count_nonneg(s: Seq<char>, c: char)
    ensures
        count_char(s, c) >= 0,
    decreases s.len(),
{
    if s.len() > 0 {
        lemma_count_nonneg(s.drop_last(), c);
    }
}

pub proof fn lemma_count_ge_one(s: Seq<char>, c: char, i: int)
    requires
        0 <= i < s.len(),
        s[i] == c,
    ensures
        count_char(s, c) >= 1,
    decreases s.len(),
{
    lemma_count_nonneg(s.drop_last(), c);
    if i < s.len() - 1 {
        lemma_count_ge_one(s.drop_last(), c, i);
    }
}

pub proof fn lemma_count_ge_two(s: Seq<char>, c: char, x: int, y: int)
    requires
        0 <= x < y < s.len(),
        s[x] == c,
        s[y] == c,
    ensures
        count_char(s, c) >= 2,
    decreases s.len(),
{
    if y == s.len() - 1 {
        lemma_count_ge_one(s.drop_last(), c, x);
    } else {
        lemma_count_ge_two(s.drop_last(), c, x, y);
    }
}

/// The entry a single line yields, if any: the text splits at its only
/// `=` into a non-empty key and a non-empty value.
pub open spec fn line_entry(l: Seq<char>) -> Option<(Seq<char>, Seq<char>)> {
    if count_char(l, '=') == 1 {
        let i = choose|i: int| 0 <= i < l.len() && l[i] == '=';
        if 0 < i && i + 1 < l.len() {
            Some((l.take(i), l.skip(i + 1)))
        } else {
            None
        }
    } else {
        None
    }
}

/// A line without exactly one `=` never yields an entry.
pub proof fn lemma_malformed_line_dropped(l: Seq<char>)
    requires
        count_char(l, '=') != 1,
    ensures
        line_entry(l) is None,
{
}

/// What one line does to the mapping built so far.
pub open spec fn apply_line(m: Map<Seq<char>, Seq<char>>, l: Seq<char>) -> Map<Seq<char>, Seq<char>> {
    match line_entry(l) {
        Some(e) => m.insert(e.0, e.1),
        None => m,
    }
}

/// A line without exactly one `=` leaves the mapping unchanged.
pub proof fn lemma_malformed_line_no_effect(m: Map<Seq<char>, Seq<char>>, l: Seq<char>)
    requires
        count_char(l, '=') != 1,
    ensures
        apply_line(m, l) == m,
{
}

/// The mapping after folding every line, front to back, over `m`.
pub open spec fn parse_acc(m: Map<Seq<char>, Seq<char>>, ls: Seq<Seq<char>>) -> Map<Seq<char>, Seq<char>>
    decreases ls.len(),
{
    if ls.len() == 0 {
        m
    } else {
        parse_acc(apply_line(m, ls[0]), ls.drop_first())
    }
}

/// Index of the first occurrence of `c` in `s`, or `s.len()`.
pub open spec fn first_idx(s: Seq<char>, c: char) -> nat
    decreases s.len(),
{
    if s.len() == 0 {
        0
    } else if s[0] == c {
        0
    } else {
        1 + first_idx(s.skip(1), c)
    }
}

pub proof fn lemma_first_idx(s: Seq<char>, c: char)
    ensures
        first_idx(s, c) <= s.len(),
        first_idx(s, c) < s.len() ==> s[first_idx(s, c) as int] == c,
        forall|j: int| 0 <= j < first_idx(s, c) ==> s[j] != c,
    decreases s.len(),
{
    if s.len() > 0 && s[0] != c {
        lemma_first_idx(s.skip(1), c);
        assert forall|j: int| 0 <= j < first_idx(s, c) implies s[j] != c by {
            if j > 0 {
                assert(s[j] == s.skip(1)[j - 1]);
            }
        }
        if first_idx(s, c) < s.len() {
            assert(s[first_idx(s, c) as int] == s.skip(1)[first_idx(s.skip(1), c) as int]);
        }
    }
}

/// A line with one trailing carriage return, left over from a CRLF
/// ending, loses it.
pub open spec fn strip_cr(l: Seq<char>) -> Seq<char> {
    if l.len() > 0 && l.last() == '\r' {
        l.drop_last()
    } else {
        l
    }
}

/// The lines of `s`: pieces between `\n` characters, each with a
/// trailing carriage return removed.
pub open spec fn split_lines(s: Seq<char>) -> Seq<Seq<char>>
    decreases s.len(),
{
    if s.len() == 0 {
        Seq::empty()
    } else {
        let i = first_idx(s, '\n');
        if i >= s.len() {
            seq![strip_cr(s)]
        } else {
            seq![strip_cr(s.take(i as int))] + split_lines(s.skip(i as int + 1))
        }
    }
}

/// `s` without trailing whitespace.
pub open spec fn trim_end(s: Seq<char>) -> Seq<char>
    decreases s.len(),
{
    if s.len() == 0 {
        s
    } else if is_space_char(s.last()) {
        trim_end(s.drop_last())
    } else {
        s
    }
}

/// `s` without leading whitespace.
pub open spec fn trim_start(s: Seq<char>) -> Seq<char>
    decreases s.len(),
{
    if s.len() == 0 {
        s
    } else if is_space_char(s[0]) {
        trim_start(s.skip(1))
    } else {
        s
    }
}

/// `s` without leading and trailing whitespace.
pub open spec fn trim_spec(s: Seq<char>) -> Seq<char> {
    trim_start(trim_end(s))
}

proof fn lemma_trim_end_at(s: Seq<char>, e: int)
    requires
        0 <= e <= s.len(),
        forall|j: int| e <= j < s.len() ==> is_space_char(s[j]),
        e > 0 ==> !is_space_char(s[e - 1]),
    ensures
        trim_end(s) == s.take(e),
    decreases s.len(),
{
    if s.len() == 0 {
        assert(s.take(e) =~= s);
    } else if e == s.len() {
        assert(s.take(e) =~= s);
    } else {
        assert(is_space_char(s.last()));
        lemma_trim_end_at(s.drop_last(), e);
        assert(s.drop_last().take(e) =~= s.take(e));
    }
}

proof fn lemma_trim_start_at(s: Seq<char>, b: int)
    requires
        0 <= b <= s.len(),
        forall|j: int| 0 <= j < b ==> is_space_char(s[j]),
        b < s.len() ==> !is_space_char(s[b]),
    ensures
        trim_start(s) == s.skip(b),
    decreases b,
{
    if b == 0 {
        assert(s.skip(0) =~= s);
    } else {
        assert(is_space_char(s[0]));
        lemma_trim_start_at(s.skip(1), b - 1);
        assert(s.skip(1).skip(b - 1) =~= s.skip(b));
    }
}

/// Parsing the same text twice yields identical mappings: any two
/// well-formed attribute maps that hold the parse of one text are the
/// same, entries and order included.
pub proof fn lemma_parse_idempotent(m1: &AttrMap, m2: &AttrMap, text: Seq<char>)
    requires
        m1.wf(),
        m2.wf(),
        m1.map_view() == parse_spec(text),
        m2.map_view() == parse_spec(text),
    ensures
        m1.entries_view() == m2.entries_view(),
{
    lemma_sorted_unique(m1.entries_view(), m2.entries_view());
}

/// The mapping the whole text describes.
pub open spec fn parse_spec(text: Seq<char>) -> Map<Seq<char>, Seq<char>> {
    parse_acc(Map::empty(), split_lines(trim_spec(text)))
}

/// Parses newline-delimited `KEY=VALUE` text into an attribute
/// mapping.
#[verifier::rlimit(60)]
pub fn parse_uevent(uevent: &str) -> (m: AttrMap)
    ensures
        m.wf(),
        m.map_view() == parse_spec(uevent@),
{
    let n: usize = uevent.unicode_len();
    let mut e: usize = n;
    while e > 0 && is_space(uevent.get_char(e - 1))
        invariant
            0 <= e <= n,
            n == uevent@.len(),
            forall|j: int| e <= j < n ==> is_space_char(uevent@[j]),
        decreases e,
    {
        e = e - 1;
    }
    let mut b: usize = 0;
    while b < e && is_space(uevent.get_char(b))
        invariant
            0 <= b <= e <= n,
            n == uevent@.len(),
            forall|j: int| 0 <= j < b ==> is_space_char(uevent@[j]),
        decreases e - b,
    {
        b = b + 1;
    }
    let ghost t = trim_spec(uevent@);
    proof {
        lemma_trim_end_at(uevent@, e as int);
        assert(forall|j: int| 0 <= j < b ==> uevent@.take(e as int)[j] == uevent@[j]);
        lemma_trim_start_at(uevent@.take(e as int), b as int);
        assert(t =~= uevent@.subrange(b as int, e as int));
    }
    let mut m = AttrMap::new();
    let mut pos: usize = b;
    while pos < e
        invariant
            b <= pos <= e <= n,
            n == uevent@.len(),
            m.wf(),
            t == trim_spec(uevent@),
            t =~= uevent@.subrange(b as int, e as int),
            parse_acc(Map::empty(), split_lines(t))
                == parse_acc(m.map_view(), split_lines(uevent@.subrange(pos as int, e as int))),
        decreases e - pos,
    {
        let ghost rest = uevent@.subrange(pos as int, e as int);
        // find the end of the current line
        let mut j: usize = pos;
        while j < e && uevent.get_char(j) != '\n'
            invariant
                pos <= j <= e <= n,
                n == uevent@.len(),
                forall|k: int| pos <= k < j ==> uevent@[k] != '\n',
            decreases e - j,
        {
            j = j + 1;
        }
        proof {
            lemma_first_idx(rest, '\n');
            let fi = first_idx(rest, '\n');
            assert(forall|k: int| 0 <= k < j - pos ==> rest[k] == uevent@[pos + k]);
            if fi < j - pos {
                assert(rest[fi as int] == '\n');
                assert(false);
            }
            if fi > j - pos {
                if j < e {
                    assert(rest[j - pos] == uevent@[j as int]);
                    assert(uevent@[j as int] == '\n');
                    assert(rest[j - pos] != '\n');
                    assert(false);
                } else {
                    assert(j - pos == rest.len());
                    assert(false);
                }
            }
            assert(fi == j - pos);
        }
        // drop one carriage return left from a CRLF ending
        let line_end: usize = if j > pos && uevent.get_char(j - 1) == '\r' {
            j - 1
        } else {
            j
        };
        let ghost line = if j - pos == rest.len() {
            strip_cr(rest)
        } else {
            strip_cr(rest.take(j - pos))
        };
        proof {
            if j - pos == rest.len() {
                assert(line =~= uevent@.subrange(pos as int, line_end as int));
            } else {
                assert(rest.take(j - pos) =~= uevent@.subrange(pos as int, j as int));
                assert(line =~= uevent@.subrange(pos as int, line_end as int));
            }
        }
        // scan the line for '=' characters
        let mut cnt: usize = 0;
        let mut fi: usize = 0;
        let mut k: usize = pos;
        while k < line_end
            invariant
                pos <= k <= line_end <= n,
                n == uevent@.len(),
                line =~= uevent@.subrange(pos as int, line_end as int),
                cnt == count_char(line.take(k - pos), '='),
                cnt <= k - pos,
                cnt > 0 ==> pos <= fi < k && uevent@[fi as int] == '='
                    && forall|x: int| pos <= x < fi ==> uevent@[x] != '=',
                cnt == 0 ==> forall|x: int| pos <= x < k ==> uevent@[x] != '=',
            decreases line_end - k,
        {
            proof {
                assert(line.take(k - pos + 1).drop_last() =~= line.take(k - pos));
                assert(line.take(k - pos + 1).last() == uevent@[k as int]);
                lemma_count_nonneg(line.take(k - pos), '=');
            }
            if uevent.get_char(k) == '=' {
                if cnt == 0 {
                    fi = k;
                }
                cnt = cnt + 1;
            }
            k = k + 1;
        }
        proof {
            assert(line.take(line_end - pos) =~= line);
        }
        if cnt == 1 && fi > pos && fi + 1 < line_end {
            let key = uevent.substring_char(pos, fi).to_owned();
            let value = uevent.substring_char(fi + 1, line_end).to_owned();
            proof {
                let li = choose|i: int| 0 <= i < line.len() && line[i] == '=';
                assert(line[fi - pos] == '=');
                if li != fi - pos {
                    if li < fi - pos {
                        lemma_count_ge_two(line, '=', li, fi - pos);
                    } else {
                        lemma_count_ge_two(line, '=', fi - pos, li);
                    }
                }
                assert(li == fi - pos);
                assert(line.take(li) =~= key@);
                assert(line.skip(li + 1) =~= value@);
                assert(line_entry(line) == Some((key@, value@)));
            }
            m.insert(key, value);
        } else {
            proof {
                if cnt == 1 {
                    let li = choose|i: int| 0 <= i < line.len() && line[i] == '=';
                    assert(line[fi - pos] == '=');
                    if li != fi - pos {
                        if li < fi - pos {
                            lemma_count_ge_two(line, '=', li, fi - pos);
                        } else {
                            lemma_count_ge_two(line, '=', fi - pos, li);
                        }
                    }
                    assert(li == fi - pos);
                    assert(line_entry(line) is None);
                } else {
                    assert(line_entry(line) is None);
                }
            }
        }
        let next_pos: usize = if j < e {
            j + 1
        } else {
            e
        };
        proof {
            let tail = uevent@.subrange(next_pos as int, e as int);
            if j < e {
                assert(rest.skip(j - pos + 1) =~= tail);
                assert(split_lines(rest) =~= seq![line] + split_lines(tail));
            } else {
                assert(j - pos == rest.len());
                assert(split_lines(rest) =~= seq![line]);
                assert(tail =~= Seq::<char>::empty());
                assert(split_lines(tail) =~= Seq::<Seq<char>>::empty());
                assert(split_lines(rest) =~= seq![line] + split_lines(tail));
            }
            let ls = seq![line] + split_lines(tail);
            assert(ls[0] == line);
            assert(ls.drop_first() =~= split_lines(tail));
        }
        pos = next_pos;
    }
    proof {
        assert(uevent@.subrange(pos as int, e as int) =~= Seq::<char>::empty());
    }
    m
}

} // verus!
