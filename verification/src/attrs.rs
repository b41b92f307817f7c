//! The attribute mapping: string keys to string values, kept sorted by
//! key in lexicographic order with unique keys, so that iteration order
//! is the report's row order. Inserting an existing key replaces its
//! value (last occurrence wins).

use vstd::prelude::*;
use crate::text::{lex_lt, str_lt, str_eq, lemma_lex_lt_connected, lemma_lex_lt_trans,
    lemma_lex_lt_neq, lemma_lex_lt_irrefl};

verus! {

/// The keys of `s` are strictly ascending.
pub open spec fn sorted_keys(s: Seq<(Seq<char>, Seq<char>)>) -> bool {
    forall|i: int, j: int| 0 <= i < j < s.len() ==> lex_lt(s[i].0, s[j].0)
}

/// The mapping described by an entry sequence; a later entry for a key
/// overrides an earlier one.
pub open spec fn map_of(s: Seq<(Seq<char>, Seq<char>)>) -> Map<Seq<char>, Seq<char>>
    decreases s.len(),
{
    if s.len() == 0 {
        Map::empty()
    } else {
        map_of(s.drop_last()).insert(s.last().0, s.last().1)
    }
}

/// A key is in the mapping exactly when some entry carries it.
pub proof fn lemma_map_of_contains(s: Seq<(Seq<char>, Seq<char>)>, k: Seq<char>)
    ensures
        map_of(s).contains_key(k) <==> exists|i: int| 0 <= i < s.len() && s[i].0 == k,
    decreases s.len(),
{
    if s.len() > 0 {
        lemma_map_of_contains(s.drop_last(), k);
        if s.last().0 == k {
            assert(s[s.len() - 1].0 == k);
        } else if map_of(s).contains_key(k) {
            let i = choose|i: int| 0 <= i < s.drop_last().len() && s.drop_last()[i].0 == k;
            assert(s[i].0 == k);
        } else if exists|i: int| 0 <= i < s.len() && s[i].0 == k {
            let i = choose|i: int| 0 <= i < s.len() && s[i].0 == k;
            assert(s.drop_last()[i].0 == k);
        }
    }
}

/// An entry whose key has no later duplicate decides the mapping's
/// value at that key.
pub proof fn lemma_map_of_index(s: Seq<(Seq<char>, Seq<char>)>, i: int)
    requires
        0 <= i < s.len(),
        forall|j: int| i < j < s.len() ==> s[j].0 != s[i].0,
    ensures
        map_of(s).contains_key(s[i].0),
        map_of(s)[s[i].0] == s[i].1,
    decreases s.len(),
{
    if i < s.len() - 1 {
        assert(s.drop_last()[i] == s[i]);
        lemma_map_of_index(s.drop_last(), i);
    }
}

/// Replacing the value of the entry at `i` (the only entry with its
/// key) updates the mapping at that key.
pub proof fn lemma_map_of_update(s: Seq<(Seq<char>, Seq<char>)>, i: int, k: Seq<char>, v: Seq<char>)
    requires
        0 <= i < s.len(),
        s[i].0 == k,
        forall|j: int| 0 <= j < s.len() && j != i ==> s[j].0 != k,
    ensures
        map_of(s.update(i, (k, v))) == map_of(s).insert(k, v),
    decreases s.len(),
{
    let su = s.update(i, (k, v));
    if i == s.len() - 1 {
        assert(su.drop_last() =~= s.drop_last());
        assert(map_of(s).insert(k, v) =~= map_of(s.drop_last()).insert(k, v));
    } else {
        assert(su.drop_last() =~= s.drop_last().update(i, (k, v)));
        assert(forall|j: int| 0 <= j < s.drop_last().len() && j != i ==> s.drop_last()[j] == s[j]);
        lemma_map_of_update(s.drop_last(), i, k, v);
        assert(su.last() == s.last());
        assert(s.last().0 != k);
        assert(map_of(s.drop_last()).insert(k, v).insert(s.last().0, s.last().1)
            =~= map_of(s.drop_last()).insert(s.last().0, s.last().1).insert(k, v));
        assert(map_of(su) == map_of(su.drop_last()).insert(su.last().0, su.last().1));
    }
}

/// Inserting an entry with a fresh key at any position adds it to the
/// mapping.
pub proof fn lemma_map_of_insert_at(s: Seq<(Seq<char>, Seq<char>)>, i: int, k: Seq<char>, v: Seq<char>)
    requires
        0 <= i <= s.len(),
        forall|j: int| 0 <= j < s.len() ==> s[j].0 != k,
    ensures
        map_of(s.insert(i, (k, v))) == map_of(s).insert(k, v),
    decreases s.len(),
{
    let si = s.insert(i, (k, v));
    if i == s.len() {
        assert(si.drop_last() =~= s);
        assert(si.last() == (k, v));
    } else {
        assert(si.drop_last() =~= s.drop_last().insert(i, (k, v)));
        assert(forall|j: int| 0 <= j < s.drop_last().len() ==> s.drop_last()[j] == s[j]);
        lemma_map_of_insert_at(s.drop_last(), i, k, v);
        assert(si.last() == s.last());
        assert(s.last().0 != k);
        assert(map_of(s.drop_last()).insert(k, v).insert(s.last().0, s.last().1)
            =~= map_of(s.drop_last()).insert(s.last().0, s.last().1).insert(k, v));
        assert(map_of(si) == map_of(si.drop_last()).insert(si.last().0, si.last().1));
    }
}

/// Length of the longest key among the entries.
pub open spec fn max_key_len(s: Seq<(Seq<char>, Seq<char>)>) -> int
    decreases s.len(),
{
    if s.len() == 0 {
        0
    } else {
        let r = max_key_len(s.drop_last());
        if s.last().0.len() > r {
            s.last().0.len() as int
        } else {
            r
        }
    }
}

pub proof fn lemma_max_key_len_ge(s: Seq<(Seq<char>, Seq<char>)>, i: int)
    requires
        0 <= i < s.len(),
    ensures
        max_key_len(s) >= s[i].0.len(),
    decreases s.len(),
{
    if i < s.len() - 1 {
        lemma_max_key_len_ge(s.drop_last(), i);
    }
}

/// An ordered mapping from attribute keys to attribute values.
pub struct AttrMap {
    entries: Vec<(String, String)>,
}

impl AttrMap {
    /// The entries as character sequences, in storage order.
    pub closed spec fn entries_view(&self) -> Seq<(Seq<char>, Seq<char>)> {
        Seq::new(self.entries@.len(), |i: int| (self.entries@[i].0@, self.entries@[i].1@))
    }

    /// Keys strictly ascending: the well-formedness every operation
    /// keeps.
    pub open spec fn wf(&self) -> bool {
        sorted_keys(self.entries_view())
    }

    /// The mapping the entries describe.
    pub open spec fn map_view(&self) -> Map<Seq<char>, Seq<char>> {
        map_of(self.entries_view())
    }

    pub fn new() -> (m: AttrMap)
        ensures
            m.wf(),
            m.entries_view() =~= Seq::<(Seq<char>, Seq<char>)>::empty(),
            m.map_view() =~= Map::<Seq<char>, Seq<char>>::empty(),
    {
        let m = AttrMap { entries: Vec::new() };
        proof {
            assert(m.entries_view() =~= Seq::<(Seq<char>, Seq<char>)>::empty());
        }
        m
    }

    pub fn len(&self) -> (n: usize)
        ensures
            n == self.entries_view().len(),
    {
        self.entries.len()
    }

    pub fn key_at(&self, i: usize) -> (k: &String)
        requires
            i < self.entries_view().len(),
        ensures
            k@ == self.entries_view()[i as int].0,
    {
        &self.entries[i].0
    }

    pub fn value_at(&self, i: usize) -> (v: &String)
        requires
            i < self.entries_view().len(),
        ensures
            v@ == self.entries_view()[i as int].1,
    {
        &self.entries[i].1
    }

    /// Every stored entry is the mapping's entry for its key.
    pub proof fn lemma_entry_in_map(&self, i: int)
        requires
            self.wf(),
            0 <= i < self.entries_view().len(),
        ensures
            self.map_view().contains_key(self.entries_view()[i].0),
            self.map_view()[self.entries_view()[i].0] == self.entries_view()[i].1,
    {
        let s = self.entries_view();
        assert forall|j: int| i < j < s.len() implies s[j].0 != s[i].0 by {
            lemma_lex_lt_neq(s[i].0, s[j].0);
        }
        lemma_map_of_index(s, i);
    }

    /// Every mapping key is carried by some stored entry.
    pub proof fn lemma_map_key_has_entry(&self, k: Seq<char>)
        requires
            self.wf(),
            self.map_view().contains_key(k),
        ensures
            exists|i: int|
                0 <= i < self.entries_view().len() && self.entries_view()[i].0 == k
                    && self.entries_view()[i].1 == self.map_view()[k],
    {
        let s = self.entries_view();
        lemma_map_of_contains(s, k);
        let i = choose|i: int| 0 <= i < s.len() && s[i].0 == k;
        self.lemma_entry_in_map(i);
    }

    /// Looks a key up.
    pub fn get(&self, key: &str) -> (r: Option<String>)
        requires
            self.wf(),
        ensures
            match r {
                Some(v) => self.map_view().contains_key(key@) && v@ == self.map_view()[key@],
                None => !self.map_view().contains_key(key@),
            },
    {
        let n = self.entries.len();
        let mut i: usize = 0;
        while i < n
            invariant
                0 <= i <= n,
                n == self.entries_view().len(),
                self.wf(),
                forall|j: int| 0 <= j < i ==> self.entries_view()[j].0 != key@,
            decreases n - i,
        {
            if str_eq(self.entries[i].0.as_str(), key) {
                proof {
                    self.lemma_entry_in_map(i as int);
                }
                return Some(self.entries[i].1.clone());
            }
            i = i + 1;
        }
        proof {
            lemma_map_of_contains(self.entries_view(), key@);
        }
        None
    }

    /// Whether the key is present.
    pub fn contains(&self, key: &str) -> (r: bool)
        requires
            self.wf(),
        ensures
            r == self.map_view().contains_key(key@),
    {
        match self.get(key) {
            Some(_) => true,
            None => false,
        }
    }

    /// Inserts an entry; an entry already carrying the key is replaced.
    pub fn insert(&mut self, key: String, value: String)
        requires
            old(self).wf(),
        ensures
            final(self).wf(),
            final(self).map_view() == old(self).map_view().insert(key@, value@),
    {
        let ghost s = self.entries_view();
        let n = self.entries.len();
        let mut i: usize = 0;
        while i < n && str_lt(self.entries[i].0.as_str(), key.as_str())
            invariant
                0 <= i <= n,
                n == self.entries_view().len(),
                self.wf(),
                self == old(self),
                forall|j: int| 0 <= j < i ==> lex_lt(self.entries_view()[j].0, key@),
            decreases n - i,
        {
            i = i + 1;
        }
        // here: all entries below i are strictly below key, and if i < n
        // the entry at i is not below key
        if i < n && str_eq(self.entries[i].0.as_str(), key.as_str()) {
            proof {
                assert forall|j: int| 0 <= j < s.len() && j != i implies s[j].0 != key@ by {
                    if j < i {
                        lemma_lex_lt_neq(s[j].0, key@);
                    } else {
                        lemma_lex_lt_neq(s[i as int].0, s[j].0);
                    }
                }
                lemma_map_of_update(s, i as int, key@, value@);
            }
            self.entries.remove(i);
            self.entries.insert(i, (key, value));
            proof {
                assert(self.entries_view() =~= s.update(i as int, (key@, value@)));
                let sv = self.entries_view();
                assert(forall|j: int| 0 <= j < sv.len() ==> sv[j].0 == s[j].0);
                assert(sorted_keys(sv));
            }
        } else {
            proof {
                if i < n {
                    lemma_lex_lt_connected_not_eq(s[i as int].0, key@);
                }
                assert forall|j: int| i <= j < s.len() implies lex_lt(key@, s[j].0) by {
                    if j > i {
                        lemma_lex_lt_trans(key@, s[i as int].0, s[j].0);
                    }
                }
                assert forall|j: int| 0 <= j < s.len() implies s[j].0 != key@ by {
                    if j < i {
                        lemma_lex_lt_neq(s[j].0, key@);
                    } else {
                        lemma_lex_lt_neq(key@, s[j].0);
                    }
                }
                lemma_map_of_insert_at(s, i as int, key@, value@);
            }
            self.entries.insert(i, (key, value));
            proof {
                assert(self.entries_view() =~= s.insert(i as int, (key@, value@)));
                let sv = self.entries_view();
                assert forall|p: int, q: int| 0 <= p < q < sv.len() implies lex_lt(sv[p].0, sv[q].0) by {
                    if q < i {
                        assert(sv[p] == s[p] && sv[q] == s[q]);
                    } else if q == i {
                        assert(sv[p] == s[p] && sv[q] == (key@, value@));
                    } else {
                        assert(sv[q] == s[q - 1]);
                        if p < i {
                            assert(sv[p] == s[p]);
                            lemma_lex_lt_trans(s[p].0, key@, s[q - 1].0);
                        } else if p == i {
                            assert(sv[p] == (key@, value@));
                        } else {
                            assert(sv[p] == s[p - 1]);
                        }
                    }
                }
            }
        }
    }
}

/// With no earlier duplicate of the last key, dropping the last entry
/// removes exactly that key from the mapping.
proof fn lemma_map_of_drop_last(s: Seq<(Seq<char>, Seq<char>)>)
    requires
        s.len() > 0,
        forall|j: int| 0 <= j < s.len() - 1 ==> s[j].0 != s.last().0,
    ensures
        map_of(s.drop_last()) == map_of(s).remove(s.last().0),
{
    lemma_map_of_contains(s.drop_last(), s.last().0);
    assert(!map_of(s.drop_last()).contains_key(s.last().0));
    assert(map_of(s.drop_last()) =~= map_of(s).remove(s.last().0));
}

/// A sorted entry sequence is determined by its mapping: two sorted
/// sequences describing the same mapping are the same sequence.
pub proof fn lemma_sorted_unique(a: Seq<(Seq<char>, Seq<char>)>, b: Seq<(Seq<char>, Seq<char>)>)
    requires
        sorted_keys(a),
        sorted_keys(b),
        map_of(a) == map_of(b),
    ensures
        a == b,
    decreases a.len(),
{
    if a.len() == 0 && b.len() == 0 {
        assert(a =~= b);
    } else if a.len() == 0 {
        lemma_map_of_contains(a, b.last().0);
        lemma_map_of_contains(b, b.last().0);
        assert(b[b.len() - 1].0 == b.last().0);
        assert(false);
    } else if b.len() == 0 {
        lemma_map_of_contains(b, a.last().0);
        lemma_map_of_contains(a, a.last().0);
        assert(a[a.len() - 1].0 == a.last().0);
        assert(false);
    } else {
        let ka = a.last().0;
        let kb = b.last().0;
        assert(a[a.len() - 1].0 == ka);
        assert(b[b.len() - 1].0 == kb);
        lemma_map_of_contains(a, ka);
        lemma_map_of_contains(b, ka);
        lemma_map_of_contains(a, kb);
        lemma_map_of_contains(b, kb);
        let ia = choose|i: int| 0 <= i < a.len() && a[i].0 == kb;
        let ib = choose|i: int| 0 <= i < b.len() && b[i].0 == ka;
        if ka != kb {
            assert(ia < a.len() - 1);
            assert(ib < b.len() - 1);
            lemma_lex_lt_trans(ka, kb, ka);
            lemma_lex_lt_irrefl(ka);
            assert(false);
        }
        assert forall|j: int| 0 <= j < a.len() - 1 implies a[j].0 != ka by {
            lemma_lex_lt_neq(a[j].0, ka);
        }
        assert forall|j: int| 0 <= j < b.len() - 1 implies b[j].0 != kb by {
            lemma_lex_lt_neq(b[j].0, kb);
        }
        lemma_map_of_index(a, a.len() - 1);
        lemma_map_of_index(b, b.len() - 1);
        assert(a.last().1 == b.last().1);
        lemma_map_of_drop_last(a);
        lemma_map_of_drop_last(b);
        assert(sorted_keys(a.drop_last()));
        assert(sorted_keys(b.drop_last()));
        lemma_sorted_unique(a.drop_last(), b.drop_last());
        assert(a.len() == b.len());
        assert forall|i: int| 0 <= i < a.len() implies a[i] == b[i] by {
            if i < a.len() - 1 {
                assert(a.drop_last()[i] == a[i]);
                assert(b.drop_last()[i] == b[i]);
                assert(a.drop_last()[i] == b.drop_last()[i]);
            } else {
                assert(a[i] == a.last());
                assert(b[i] == b.last());
            }
        }
        assert(a =~= b);
    }
}

/// Helper: a key neither below another nor equal to it is above it.
proof fn lemma_lex_lt_connected_not_eq(a: Seq<char>, b: Seq<char>)
    requires
        !lex_lt(a, b),
        a != b,
    ensures
        lex_lt(b, a),
{
    if !lex_lt(b, a) {
        lemma_lex_lt_connected(a, b);
    }
}

} // verus!
