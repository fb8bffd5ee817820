//! The per-extension line counter.
//!
//! A [`Counter`] is an ordered mapping from file-extension strings to line
//! totals, kept as a vector of pairs sorted strictly by [`lex_lt`] on the key.
//! Its mathematical value is a `Map<Seq<char>, nat>`; keeping the entries
//! sorted makes the representation canonical, so equal mappings print the
//! same lines in the same order.

use vstd::prelude::*;

use crate::order::lex_lt;
use crate::order::lemma_lex_lt_irrefl;
use crate::order::lemma_lex_lt_asym;
use crate::order::lemma_lex_lt_trans;
use crate::order::lemma_lex_lt_connected;
use crate::order::str_lex_lt;

verus! {

/// The keys are strictly increasing, hence also pairwise distinct.
pub open spec fn sorted(s: Seq<(String, usize)>) -> bool {
    forall|i: int, j: int| 0 <= i < j < s.len() ==> lex_lt(s[i].0@, s[j].0@)
}

/// The mapping that a sequence of key/count pairs stands for.
pub open spec fn map_of(s: Seq<(String, usize)>) -> Map<Seq<char>, nat>
    decreases s.len(),
{
    if s.len() == 0 {
        Map::empty()
    } else {
        map_of(s.drop_last()).insert(s.last().0@, s.last().1 as nat)
    }
}

/// The sum of all counts in a sequence of key/count pairs.
pub open spec fn entries_total(s: Seq<(String, usize)>) -> nat
    decreases s.len(),
{
    if s.len() == 0 {
        0
    } else {
        entries_total(s.drop_last()) + s.last().1 as nat
    }
}

/// The count stored under `k`, taking an absent key as zero.
pub open spec fn get_or_zero(m: Map<Seq<char>, nat>, k: Seq<char>) -> nat {
    if m.contains_key(k) {
        m[k]
    } else {
        0
    }
}

/// The additive merge of two mappings: the union of the keys, with the
/// counts of shared keys summed.
pub open spec fn merged(a: Map<Seq<char>, nat>, b: Map<Seq<char>, nat>) -> Map<Seq<char>, nat> {
    Map::new(
        |k: Seq<char>| a.contains_key(k) || b.contains_key(k),
        |k: Seq<char>| get_or_zero(a, k) + get_or_zero(b, k),
    )
}

/// An ordered mapping from file extension to total line count.
pub struct Counter {
    pub entries: Vec<(String, usize)>,
}

impl View for Counter {
    type V = Map<Seq<char>, nat>;

    open spec fn view(&self) -> Map<Seq<char>, nat> {
        map_of(self.entries@)
    }
}

/// A key of `map_of(s)` is exactly a key of some entry.
pub proof fn lemma_map_of_contains_key(s: Seq<(String, usize)>, k: Seq<char>)
    ensures
        map_of(s).contains_key(k) <==> exists|i: int| 0 <= i < s.len() && s[i].0@ == k,
    decreases s.len(),
{
    if s.len() > 0 {
        lemma_map_of_contains_key(s.drop_last(), k);
        if s.last().0@ == k {
            assert(s[s.len() - 1].0@ == k);
        } else {
            if exists|i: int| 0 <= i < s.len() && s[i].0@ == k {
                let i = choose|i: int| 0 <= i < s.len() && s[i].0@ == k;
                assert(s.drop_last()[i].0@ == k);
            }
            if exists|i: int| 0 <= i < s.drop_last().len() && s.drop_last()[i].0@ == k {
                let i = choose|i: int| 0 <= i < s.drop_last().len() && s.drop_last()[i].0@ == k;
                assert(s[i].0@ == k);
            }
        }
    }
}

/// An entry whose key recurs in no later entry gives the mapping's value at
/// that key.
pub proof fn lemma_map_of_index(s: Seq<(String, usize)>, i: int)
    requires
        0 <= i < s.len(),
        forall|j: int| i < j < s.len() ==> s[j].0@ != s[i].0@,
    ensures
        map_of(s).contains_key(s[i].0@),
        map_of(s)[s[i].0@] == s[i].1 as nat,
    decreases s.len(),
{
    if i < s.len() - 1 {
        assert(forall|j: int| i < j < s.drop_last().len() ==> s.drop_last()[j].0@ != s.drop_last()[i].0@);
        lemma_map_of_index(s.drop_last(), i);
        assert(s.drop_last()[i] == s[i]);
    }
}

/// Inserting a pair with a fresh key inserts it into the mapping.
proof fn lemma_map_of_insert(s: Seq<(String, usize)>, i: int, p: (String, usize))
    requires
        0 <= i <= s.len(),
        forall|j: int| 0 <= j < s.len() ==> s[j].0@ != p.0@,
    ensures
        map_of(s.insert(i, p)) == map_of(s).insert(p.0@, p.1 as nat),
    decreases s.len(),
{
    let t = s.insert(i, p);
    if i == s.len() {
        assert(t.drop_last() =~= s);
        assert(t.last() == p);
    } else {
        assert(t.drop_last() =~= s.drop_last().insert(i, p));
        assert(t.last() == s.last());
        assert(forall|j: int| 0 <= j < s.drop_last().len() ==> s.drop_last()[j].0@ != p.0@);
        lemma_map_of_insert(s.drop_last(), i, p);
        assert(s[s.len() - 1].0@ != p.0@);
        assert(map_of(s.drop_last()).insert(p.0@, p.1 as nat).insert(s.last().0@, s.last().1 as nat)
            =~= map_of(s.drop_last()).insert(s.last().0@, s.last().1 as nat).insert(p.0@, p.1 as nat));
    }
}

/// Replacing the one entry that holds a key overwrites the mapping's value
/// at that key.
proof fn lemma_map_of_update(s: Seq<(String, usize)>, i: int, p: (String, usize))
    requires
        0 <= i < s.len(),
        p.0@ == s[i].0@,
        forall|j: int| 0 <= j < s.len() && j != i ==> s[j].0@ != p.0@,
    ensures
        map_of(s.update(i, p)) == map_of(s).insert(p.0@, p.1 as nat),
    decreases s.len(),
{
    let t = s.update(i, p);
    if i == s.len() - 1 {
        assert(t.drop_last() =~= s.drop_last());
        assert(t.last() == p);
        assert(map_of(s.drop_last()).insert(p.0@, p.1 as nat)
            =~= map_of(s.drop_last()).insert(s.last().0@, s.last().1 as nat).insert(p.0@, p.1 as nat));
    } else {
        assert(t.drop_last() =~= s.drop_last().update(i, p));
        assert(t.last() == s.last());
        assert(s.drop_last()[i] == s[i]);
        assert(forall|j: int| 0 <= j < s.drop_last().len() && j != i ==> s.drop_last()[j].0@ != p.0@);
        lemma_map_of_update(s.drop_last(), i, p);
        assert(s[s.len() - 1].0@ != p.0@);
        assert(map_of(s.drop_last()).insert(p.0@, p.1 as nat).insert(s.last().0@, s.last().1 as nat)
            =~= map_of(s.drop_last()).insert(s.last().0@, s.last().1 as nat).insert(p.0@, p.1 as nat));
    }
}

/// Inserting a pair adds its count to the total.
proof fn lemma_entries_total_insert(s: Seq<(String, usize)>, i: int, p: (String, usize))
    requires
        0 <= i <= s.len(),
    ensures
        entries_total(s.insert(i, p)) == entries_total(s) + p.1,
    decreases s.len(),
{
    let t = s.insert(i, p);
    if i == s.len() {
        assert(t.drop_last() =~= s);
        assert(t.last() == p);
    } else {
        assert(t.drop_last() =~= s.drop_last().insert(i, p));
        assert(t.last() == s.last());
        lemma_entries_total_insert(s.drop_last(), i, p);
    }
}

/// Replacing a pair trades its count for the new one in the total.
proof fn lemma_entries_total_update(s: Seq<(String, usize)>, i: int, p: (String, usize))
    requires
        0 <= i < s.len(),
    ensures
        entries_total(s.update(i, p)) + s[i].1 == entries_total(s) + p.1,
    decreases s.len(),
{
    let t = s.update(i, p);
    if i == s.len() - 1 {
        assert(t.drop_last() =~= s.drop_last());
        assert(t.last() == p);
    } else {
        assert(t.drop_last() =~= s.drop_last().update(i, p));
        assert(t.last() == s.last());
        assert(s.drop_last()[i] == s[i]);
        lemma_entries_total_update(s.drop_last(), i, p);
    }
}

/// No single count exceeds the total.
proof fn lemma_entries_total_index(s: Seq<(String, usize)>, i: int)
    requires
        0 <= i < s.len(),
    ensures
        s[i].1 <= entries_total(s),
    decreases s.len(),
{
    if i < s.len() - 1 {
        assert(s.drop_last()[i] == s[i]);
        lemma_entries_total_index(s.drop_last(), i);
    }
}

/// In a sorted sequence no value exceeds the total of the counts.
pub proof fn lemma_value_le_total(s: Seq<(String, usize)>, k: Seq<char>)
    requires
        sorted(s),
        map_of(s).contains_key(k),
    ensures
        map_of(s)[k] <= entries_total(s),
{
    lemma_map_of_contains_key(s, k);
    let i = choose|i: int| 0 <= i < s.len() && s[i].0@ == k;
    assert forall|j: int| i < j < s.len() implies s[j].0@ != s[i].0@ by {
        lemma_lex_lt_irrefl(s[i].0@);
    }
    lemma_map_of_index(s, i);
    lemma_entries_total_index(s, i);
}

/// The least position whose key is not below `key`; the length if every key
/// is below it.
fn insert_position(entries: &Vec<(String, usize)>, key: &str) -> (pos: usize)
    requires
        sorted(entries@),
    ensures
        0 <= pos <= entries@.len(),
        forall|j: int| 0 <= j < pos ==> lex_lt(entries@[j].0@, key@),
        pos < entries@.len() ==> !lex_lt(entries@[pos as int].0@, key@),
{
    let n = entries.len();
    let mut pos: usize = 0;
    while pos < n
        invariant
            0 <= pos <= n,
            n == entries@.len(),
            forall|j: int| 0 <= j < pos ==> lex_lt(entries@[j].0@, key@),
        decreases n - pos,
    {
        let below = str_lex_lt(entries[pos].0.as_str(), key);
        if !below {
            return pos;
        }
        pos += 1;
    }
    pos
}

impl Counter {
    /// Whether the entries are sorted, the representation every function
    /// here establishes and preserves.
    pub open spec fn wf(self) -> bool {
        sorted(self.entries@)
    }

    /// The sum of all counts held.
    pub open spec fn total(self) -> nat {
        entries_total(self.entries@)
    }

    /// An empty counter.
    pub fn new() -> (c: Counter)
        ensures
            c.wf(),
            c@ == Map::<Seq<char>, nat>::empty(),
            c.total() == 0,
    {
        Counter { entries: Vec::new() }
    }

    /// Adds `count` lines to the total recorded under `key`, inserting the
    /// key at its ordered position if it is new.
    pub fn add_count(&mut self, key: &str, count: usize)
        requires
            old(self).wf(),
            get_or_zero(old(self)@, key@) + count <= usize::MAX,
        ensures
            final(self).wf(),
            final(self)@ == old(self)@.insert(
                key@,
                (get_or_zero(old(self)@, key@) + count) as nat,
            ),
            final(self).total() == old(self).total() + count,
    {
        let ghost s = self.entries@;
        let pos = insert_position(&self.entries, key);
        if pos < self.entries.len() && !str_lex_lt(key, self.entries[pos].0.as_str()) {
            proof {
                lemma_lex_lt_connected(s[pos as int].0@, key@);
                assert forall|j: int| pos < j < s.len() implies s[j].0@ != s[pos as int].0@ by {
                    lemma_lex_lt_irrefl(s[pos as int].0@);
                }
                lemma_map_of_index(s, pos as int);
            }
            let (k0, c0) = self.entries.remove(pos);
            self.entries.insert(pos, (k0, c0 + count));
            proof {
                let p = (k0, (c0 + count) as usize);
                assert(self.entries@ =~= s.update(pos as int, p));
                assert forall|j: int| 0 <= j < s.len() && j != pos implies s[j].0@ != p.0@ by {
                    lemma_lex_lt_irrefl(s[pos as int].0@);
                    if j < pos {
                        lemma_lex_lt_asym(s[j].0@, s[pos as int].0@);
                    }
                }
                lemma_map_of_update(s, pos as int, p);
                lemma_entries_total_update(s, pos as int, p);
                assert forall|i: int, j: int| 0 <= i < j < self.entries@.len()
                    implies lex_lt(self.entries@[i].0@, self.entries@[j].0@) by {
                    assert(s[i].0@ == self.entries@[i].0@);
                    assert(s[j].0@ == self.entries@[j].0@);
                }
            }
        } else {
            proof {
                lemma_map_of_contains_key(s, key@);
                assert forall|j: int| 0 <= j < s.len() implies s[j].0@ != key@ by {
                    lemma_lex_lt_irrefl(key@);
                    if j < pos {
                        lemma_lex_lt_asym(s[j].0@, key@);
                    } else if pos < s.len() && j > pos {
                        lemma_lex_lt_trans(key@, s[pos as int].0@, s[j].0@);
                    } else if pos < s.len() && j == pos {
                        lemma_lex_lt_asym(key@, s[pos as int].0@);
                    }
                }
                assert(!map_of(s).contains_key(key@));
            }
            let owned = key.to_owned();
            self.entries.insert(pos, (owned, count));
            proof {
                let p = (owned, count);
                assert(self.entries@ =~= s.insert(pos as int, p));
                lemma_map_of_insert(s, pos as int, p);
                lemma_entries_total_insert(s, pos as int, p);
                assert forall|i: int, j: int| 0 <= i < j < self.entries@.len()
                    implies lex_lt(self.entries@[i].0@, self.entries@[j].0@) by {
                    if i < pos && j > pos && j - 1 == pos {
                        lemma_lex_lt_trans(s[i].0@, key@, s[pos as int].0@);
                    } else if i == pos && j > pos && j - 1 > pos {
                        lemma_lex_lt_trans(key@, s[pos as int].0@, s[j - 1].0@);
                    }
                }
            }
        }
    }

    /// The count recorded under `key`, if the key is present.
    pub fn get(&self, key: &str) -> (r: Option<usize>)
        requires
            self.wf(),
        ensures
            match r {
                Some(v) => self@.contains_key(key@) && self@[key@] == v as nat,
                None => !self@.contains_key(key@),
            },
    {
        let ghost s = self.entries@;
        let pos = insert_position(&self.entries, key);
        if pos < self.entries.len() && !str_lex_lt(key, self.entries[pos].0.as_str()) {
            proof {
                lemma_lex_lt_connected(s[pos as int].0@, key@);
                assert forall|j: int| pos < j < s.len() implies s[j].0@ != s[pos as int].0@ by {
                    lemma_lex_lt_irrefl(s[pos as int].0@);
                }
                lemma_map_of_index(s, pos as int);
            }
            Some(self.entries[pos].1)
        } else {
            proof {
                lemma_map_of_contains_key(s, key@);
                assert forall|j: int| 0 <= j < s.len() implies s[j].0@ != key@ by {
                    lemma_lex_lt_irrefl(key@);
                    if j < pos {
                        lemma_lex_lt_asym(s[j].0@, key@);
                    } else if pos < s.len() && j > pos {
                        lemma_lex_lt_trans(key@, s[pos as int].0@, s[j].0@);
                    } else if pos < s.len() && j == pos {
                        lemma_lex_lt_asym(key@, s[pos as int].0@);
                    }
                }
            }
            None
        }
    }
}

/// Merges two counters by summing the counts of shared keys and keeping
/// every other key as it is. The merge is additive: no count is lost.
pub fn merge_counters(a: Counter, b: Counter) -> (r: Counter)
    requires
        a.wf(),
        b.wf(),
        forall|k: Seq<char>| a@.contains_key(k) && b@.contains_key(k) ==> a@[k] + b@[k]
            <= usize::MAX,
    ensures
        r.wf(),
        r@ == merged(a@, b@),
        forall|k: Seq<char>| #[trigger] r@.contains_key(k) <==> a@.contains_key(k)
            || b@.contains_key(k),
        forall|k: Seq<char>| #[trigger] r@.contains_key(k) ==> r@[k] == get_or_zero(a@, k)
            + get_or_zero(b@, k),
        r.total() == a.total() + b.total(),
{
    let ghost amap = map_of(a.entries@);
    let ghost atotal = entries_total(a.entries@);
    let mut r = a;
    let n = b.entries.len();
    let mut i: usize = 0;
    while i < n
        invariant
            0 <= i <= n,
            n == b.entries@.len(),
            sorted(b.entries@),
            r.wf(),
            r@ == merged(amap, map_of(b.entries@.take(i as int))),
            r.total() == atotal + entries_total(b.entries@.take(i as int)),
            forall|k: Seq<char>| amap.contains_key(k) && map_of(b.entries@).contains_key(k)
                ==> amap[k] + map_of(b.entries@)[k] <= usize::MAX,
        decreases n - i,
    {
        let ghost bs = b.entries@;
        let ghost pre = bs.take(i as int);
        let ghost k = bs[i as int].0@;
        proof {
            assert forall|j: int| i < j < bs.len() implies bs[j].0@ != bs[i as int].0@ by {
                lemma_lex_lt_irrefl(bs[i as int].0@);
            }
            lemma_map_of_index(bs, i as int);
            lemma_map_of_contains_key(pre, k);
            assert forall|j: int| 0 <= j < pre.len() implies pre[j].0@ != k by {
                lemma_lex_lt_irrefl(k);
                lemma_lex_lt_asym(bs[j].0@, k);
            }
            assert(!map_of(pre).contains_key(k));
            assert(get_or_zero(r@, k) == get_or_zero(amap, k));
            if amap.contains_key(k) {
                lemma_map_of_contains_key(bs, k);
                assert(map_of(bs).contains_key(k));
                assert(amap[k] + map_of(bs)[k] <= usize::MAX);
            }
        }
        r.add_count(b.entries[i].0.as_str(), b.entries[i].1);
        proof {
            let post = bs.take(i + 1);
            assert(post.drop_last() =~= pre);
            assert(post.last() == bs[i as int]);
            assert(map_of(post) == map_of(pre).insert(k, bs[i as int].1 as nat));
            assert(r@ =~= merged(amap, map_of(post)));
        }
        i += 1;
    }
    proof {
        assert(b.entries@.take(n as int) =~= b.entries@);
    }
    r
}

/// Sorted entry sequences are a canonical representation: two of them that
/// stand for the same mapping are the same sequence, key for key and count
/// for count.
proof fn lemma_canonical_entries(s1: Seq<(String, usize)>, s2: Seq<(String, usize)>)
    requires
        sorted(s1),
        sorted(s2),
        map_of(s1) == map_of(s2),
    ensures
        s1.len() == s2.len(),
        forall|i: int| 0 <= i < s1.len() ==> s1[i].0@ == s2[i].0@ && s1[i].1 == s2[i].1,
    decreases s1.len(),
{
    if s1.len() == 0 {
        if s2.len() > 0 {
            lemma_map_of_contains_key(s2, s2.last().0@);
            assert(s2[s2.len() - 1].0@ == s2.last().0@);
            lemma_map_of_contains_key(s1, s2.last().0@);
            assert(false);
        }
    } else if s2.len() == 0 {
        lemma_map_of_contains_key(s1, s1.last().0@);
        assert(s1[s1.len() - 1].0@ == s1.last().0@);
        lemma_map_of_contains_key(s2, s1.last().0@);
        assert(false);
    } else {
        let k1 = s1.last().0@;
        let k2 = s2.last().0@;
        assert(s1[s1.len() - 1].0@ == k1);
        assert(s2[s2.len() - 1].0@ == k2);
        lemma_map_of_contains_key(s1, k1);
        lemma_map_of_contains_key(s2, k1);
        let i1 = choose|i: int| 0 <= i < s2.len() && s2[i].0@ == k1;
        lemma_map_of_contains_key(s2, k2);
        lemma_map_of_contains_key(s1, k2);
        let i2 = choose|i: int| 0 <= i < s1.len() && s1[i].0@ == k2;
        if i1 < s2.len() - 1 && i2 < s1.len() - 1 {
            assert(lex_lt(k1, k2));
            assert(lex_lt(k2, k1));
            lemma_lex_lt_asym(k1, k2);
            assert(false);
        }
        assert(k1 == k2);
        lemma_map_of_index(s1, s1.len() - 1);
        lemma_map_of_index(s2, s2.len() - 1);
        assert(s1.last().1 == s2.last().1);
        assert forall|j: int| 0 <= j < s1.drop_last().len() implies s1.drop_last()[j].0@ != k1 by {
            lemma_lex_lt_irrefl(k1);
        }
        lemma_map_of_contains_key(s1.drop_last(), k1);
        assert(!map_of(s1.drop_last()).contains_key(k1));
        assert forall|j: int| 0 <= j < s2.drop_last().len() implies s2.drop_last()[j].0@ != k1 by {
            lemma_lex_lt_irrefl(k1);
        }
        lemma_map_of_contains_key(s2.drop_last(), k1);
        assert(!map_of(s2.drop_last()).contains_key(k1));
        assert(map_of(s1.drop_last()) =~= map_of(s1).remove(k1));
        assert(map_of(s2.drop_last()) =~= map_of(s2).remove(k1));
        lemma_canonical_entries(s1.drop_last(), s2.drop_last());
        assert forall|i: int| 0 <= i < s1.len() implies s1[i].0@ == s2[i].0@ && s1[i].1
            == s2[i].1 by {
            if i < s1.len() - 1 {
                assert(s1.drop_last()[i] == s1[i]);
                assert(s2.drop_last()[i] == s2[i]);
            }
        }
    }
}

/// A counter's entries are determined by its mapping: equal mappings are
/// stored, and hence printed, identically.
pub proof fn lemma_counter_canonical(c1: Counter, c2: Counter)
    requires
        c1.wf(),
        c2.wf(),
        c1@ == c2@,
    ensures
        c1.entries@.len() == c2.entries@.len(),
        forall|i: int| 0 <= i < c1.entries@.len() ==> c1.entries@[i].0@ == c2.entries@[i].0@
            && c1.entries@[i].1 == c2.entries@[i].1,
{
    lemma_canonical_entries(c1.entries@, c2.entries@);
}

/// Merging is commutative: the two orders give the same mapping.
pub proof fn lemma_merged_commutative(a: Map<Seq<char>, nat>, b: Map<Seq<char>, nat>)
    ensures
        merged(a, b) == merged(b, a),
{
    assert(merged(a, b) =~= merged(b, a));
}

/// Merging is associative: folding results in either grouping gives the
/// same mapping.
pub proof fn lemma_merged_associative(
    a: Map<Seq<char>, nat>,
    b: Map<Seq<char>, nat>,
    c: Map<Seq<char>, nat>,
)
    ensures
        merged(merged(a, b), c) == merged(a, merged(b, c)),
{
    assert(merged(merged(a, b), c) =~= merged(a, merged(b, c)));
}

} // verus!
