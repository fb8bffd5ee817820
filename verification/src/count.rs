//! Aggregation of per-file line counts over a traversal.
//!
//! The surrounding binary walks the directory tree and reads each file; the
//! functions here take the visited files as plain values — the file name and
//! the contents of the files that could be read — and build the counter.

use vstd::prelude::*;

use crate::counter::Counter;
use crate::counter::merge_counters;
use crate::counter::merged;
use crate::counter::lemma_value_le_total;
use crate::text::ext_of;
use crate::text::line_count;
use crate::text::extension_of;
use crate::text::count_lines;

verus! {

/// The character sequence held by an optional text, when there is one.
pub open spec fn opt_view<S: View<V = Seq<char>>>(c: Option<S>) -> Option<Seq<char>> {
    match c {
        None => None,
        Some(s) => Some(s@),
    }
}

/// What one visited file puts into the mapping: its line count under its
/// extension, or nothing when it could not be read or has no extension.
pub open spec fn file_map(name: Seq<char>, contents: Option<Seq<char>>) -> Map<Seq<char>, nat> {
    match contents {
        None => Map::empty(),
        Some(text) => match ext_of(name) {
            None => Map::empty(),
            Some(e) => Map::empty().insert(e, line_count(text)),
        },
    }
}

/// The lines one visited file contributes to the aggregate: zero when it
/// could not be read or has no extension.
pub open spec fn file_lines(name: Seq<char>, contents: Option<Seq<char>>) -> nat {
    match contents {
        None => 0,
        Some(text) => match ext_of(name) {
            None => 0,
            Some(e) => line_count(text),
        },
    }
}

/// The mapping for a whole traversal: the merge of what every visited file
/// puts in.
pub open spec fn total_map(files: Seq<(String, Option<String>)>) -> Map<Seq<char>, nat>
    decreases files.len(),
{
    if files.len() == 0 {
        Map::empty()
    } else {
        merged(
            total_map(files.drop_last()),
            file_map(files.last().0@, opt_view(files.last().1)),
        )
    }
}

/// The lines a whole traversal contributes: the sum over its files.
pub open spec fn total_lines(files: Seq<(String, Option<String>)>) -> nat
    decreases files.len(),
{
    if files.len() == 0 {
        0
    } else {
        total_lines(files.drop_last()) + file_lines(files.last().0@, opt_view(files.last().1))
    }
}

/// A prefix of a traversal contributes no more lines than the whole.
proof fn lemma_total_lines_take_le(files: Seq<(String, Option<String>)>, i: int)
    requires
        0 <= i <= files.len(),
    ensures
        total_lines(files.take(i)) <= total_lines(files),
    decreases files.len() - i,
{
    if i == files.len() {
        assert(files.take(i) =~= files);
    } else {
        assert(files.take(i + 1).drop_last() =~= files.take(i));
        assert(files.take(i + 1).last() == files[i]);
        lemma_total_lines_take_le(files, i + 1);
    }
}

/// The counter for one visited file.
pub fn count_file_lines(name: &str, contents: Option<&str>) -> (r: Counter)
    ensures
        r.wf(),
        r@ == file_map(name@, opt_view(contents)),
        r.total() == file_lines(name@, opt_view(contents)),
{
    let mut r = Counter::new();
    match contents {
        None => r,
        Some(text) => match extension_of(name) {
            None => r,
            Some(e) => {
                let lines = count_lines(text);
                r.add_count(e.as_str(), lines);
                proof {
                    assert(r@ =~= file_map(name@, opt_view(contents)));
                }
                r
            },
        },
    }
}

/// The lines one visited file contributes, computed without building a
/// counter.
pub fn file_contribution(name: &str, contents: Option<&str>) -> (n: usize)
    ensures
        n == file_lines(name@, opt_view(contents)),
{
    match contents {
        None => 0,
        Some(text) => match extension_of(name) {
            None => 0,
            Some(_) => count_lines(text),
        },
    }
}

/// The counter for a whole traversal: every visited file's lines merged
/// under its extension. The total of the counter is exactly the sum of the
/// line counts of the extension-bearing files that could be read.
pub fn count_repo_lines(files: &Vec<(String, Option<String>)>) -> (r: Counter)
    requires
        total_lines(files@) <= usize::MAX,
    ensures
        r.wf(),
        r@ == total_map(files@),
        r.total() == total_lines(files@),
{
    let mut r = Counter::new();
    let n = files.len();
    let mut i: usize = 0;
    while i < n
        invariant
            0 <= i <= n,
            n == files@.len(),
            total_lines(files@) <= usize::MAX,
            r.wf(),
            r@ == total_map(files@.take(i as int)),
            r.total() == total_lines(files@.take(i as int)),
        decreases n - i,
    {
        let name: &str = files[i].0.as_str();
        let contents: Option<&str> = match &files[i].1 {
            None => None,
            Some(s) => Some(s.as_str()),
        };
        let fc = count_file_lines(name, contents);
        proof {
            assert(opt_view(contents) == opt_view(files@[i as int].1));
            assert(files@.take(i + 1).drop_last() =~= files@.take(i as int));
            assert(files@.take(i + 1).last() == files@[i as int]);
            lemma_total_lines_take_le(files@, i + 1);
            assert forall|k: Seq<char>| r@.contains_key(k) && fc@.contains_key(k) implies r@[k]
                + fc@[k] <= usize::MAX by {
                lemma_value_le_total(r.entries@, k);
                lemma_value_le_total(fc.entries@, k);
            }
        }
        r = merge_counters(r, fc);
        proof {
            assert(r@ == total_map(files@.take(i + 1)));
        }
        i += 1;
    }
    proof {
        assert(files@.take(n as int) =~= files@);
    }
    r
}

/// The counter for a whole traversal, guarded against overflow: `None`
/// exactly when the total line count does not fit in `usize`.
pub fn try_count_repo_lines(files: &Vec<(String, Option<String>)>) -> (r: Option<Counter>)
    ensures
        match r {
            Some(c) => total_lines(files@) <= usize::MAX && c.wf() && c@ == total_map(files@)
                && c.total() == total_lines(files@),
            None => total_lines(files@) > usize::MAX,
        },
{
    let n = files.len();
    let mut sum: usize = 0;
    let mut i: usize = 0;
    while i < n
        invariant
            0 <= i <= n,
            n == files@.len(),
            sum == total_lines(files@.take(i as int)),
        decreases n - i,
    {
        let contents: Option<&str> = match &files[i].1 {
            None => None,
            Some(s) => Some(s.as_str()),
        };
        let c = file_contribution(files[i].0.as_str(), contents);
        proof {
            assert(opt_view(contents) == opt_view(files@[i as int].1));
            assert(files@.take(i + 1).drop_last() =~= files@.take(i as int));
            assert(files@.take(i + 1).last() == files@[i as int]);
        }
        sum = match sum.checked_add(c) {
            None => {
                proof {
                    lemma_total_lines_take_le(files@, i + 1);
                }
                return None;
            },
            Some(next) => next,
        };
        i += 1;
    }
    proof {
        assert(files@.take(n as int) =~= files@);
    }
    Some(count_repo_lines(files))
}

/// A file without an extension is excluded entirely: visiting it changes
/// neither the mapping nor the aggregate line count.
pub proof fn lemma_no_extension_ignored(
    files: Seq<(String, Option<String>)>,
    f: (String, Option<String>),
)
    requires
        ext_of(f.0@) is None,
    ensures
        total_map(files.push(f)) == total_map(files),
        total_lines(files.push(f)) == total_lines(files),
{
    assert(files.push(f).drop_last() =~= files);
    assert(files.push(f).last() == f);
    assert(file_map(f.0@, opt_view(f.1)) =~= Map::<Seq<char>, nat>::empty());
    assert(merged(total_map(files), file_map(f.0@, opt_view(f.1))) =~= total_map(files));
}

/// Subtrees aggregate independently: the counts of two traversals, one
/// after the other, merge into the counts of the combined traversal.
pub proof fn lemma_total_map_concat(
    l1: Seq<(String, Option<String>)>,
    l2: Seq<(String, Option<String>)>,
)
    ensures
        total_map(l1 + l2) == merged(total_map(l1), total_map(l2)),
        total_lines(l1 + l2) == total_lines(l1) + total_lines(l2),
    decreases l2.len(),
{
    if l2.len() == 0 {
        assert(l1 + l2 =~= l1);
        assert(merged(total_map(l1), total_map(l2)) =~= total_map(l1));
    } else {
        assert((l1 + l2).drop_last() =~= l1 + l2.drop_last());
        assert((l1 + l2).last() == l2.last());
        lemma_total_map_concat(l1, l2.drop_last());
        let fm = file_map(l2.last().0@, opt_view(l2.last().1));
        assert(merged(merged(total_map(l1), total_map(l2.drop_last())), fm) =~= merged(
            total_map(l1),
            merged(total_map(l2.drop_last()), fm),
        ));
    }
}

} // verus!
