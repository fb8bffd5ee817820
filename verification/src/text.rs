//! Plain text helpers: line counting, extension extraction, and the final
//! path segment of a repository identifier.

use vstd::prelude::*;

verus! {

/// The number of `'\n'` characters in `s`.
pub open spec fn newline_count(s: Seq<char>) -> nat
    decreases s.len(),
{
    if s.len() == 0 {
        0
    } else {
        newline_count(s.drop_last()) + if s.last() == '\n' {
            1nat
        } else {
            0nat
        }
    }
}

/// The number of lines in a text, counted as `str::lines` does: every
/// `'\n'` ends a line, and a nonempty remainder after the last `'\n'`
/// counts as one more. The empty text has no lines.
pub open spec fn line_count(s: Seq<char>) -> nat {
    if s.len() == 0 {
        0
    } else if s.last() == '\n' {
        newline_count(s)
    } else {
        newline_count(s) + 1
    }
}

/// The file extension of a name: the part after the last `'.'`, provided
/// that dot is not the leading character. A name without a dot, or whose
/// only dot leads it (a hidden file), has no extension.
pub open spec fn ext_of(name: Seq<char>) -> Option<Seq<char>>
    decreases name.len(),
{
    if name.len() < 2 {
        None
    } else if name.last() == '.' {
        Some(Seq::empty())
    } else {
        match ext_of(name.drop_last()) {
            None => None,
            Some(e) => Some(e.push(name.last())),
        }
    }
}

/// The part of `s` after its last `'/'`; all of `s` when it has none.
pub open spec fn tail_after_slash(s: Seq<char>) -> Seq<char>
    decreases s.len(),
{
    if s.len() == 0 {
        Seq::empty()
    } else if s.last() == '/' {
        Seq::empty()
    } else {
        tail_after_slash(s.drop_last()).push(s.last())
    }
}

/// There are no more newlines than characters.
proof fn lemma_newline_count_le_len(s: Seq<char>)
    ensures
        newline_count(s) <= s.len(),
    decreases s.len(),
{
    if s.len() > 0 {
        lemma_newline_count_le_len(s.drop_last());
    }
}

/// Counts the lines of a text, as `str::lines` would yield them.
pub fn count_lines(text: &str) -> (r: usize)
    ensures
        r == line_count(text@),
{
    let n = text.unicode_len();
    let mut cnt: usize = 0;
    let mut i: usize = 0;
    while i < n
        invariant
            0 <= i <= n,
            n == text@.len(),
            cnt == newline_count(text@.take(i as int)),
            cnt <= i,
        decreases n - i,
    {
        let c = text.get_char(i);
        proof {
            assert(text@.take(i + 1).drop_last() =~= text@.take(i as int));
            assert(text@.take(i + 1).last() == text@[i as int]);
        }
        if c == '\n' {
            cnt += 1;
        }
        i += 1;
    }
    proof {
        assert(text@.take(n as int) =~= text@);
    }
    if n == 0 {
        0
    } else {
        let last = text.get_char(n - 1);
        if last == '\n' {
            cnt
        } else {
            proof {
                assert(text@.drop_last() =~= text@.take(n - 1));
                lemma_newline_count_le_len(text@.drop_last());
            }
            cnt + 1
        }
    }
}

/// A dot at position `d`, with no later dot, marks the extension: all that
/// follows it.
proof fn lemma_ext_of_at(s: Seq<char>, d: int)
    requires
        1 <= d < s.len(),
        s[d] == '.',
        forall|j: int| d < j < s.len() ==> s[j] != '.',
    ensures
        ext_of(s) == Some(s.skip(d + 1)),
    decreases s.len(),
{
    if d == s.len() - 1 {
        assert(s.last() == '.');
        assert(s.skip(d + 1) =~= Seq::<char>::empty());
    } else {
        assert(s.last() != '.');
        assert(forall|j: int| d < j < s.drop_last().len() ==> s.drop_last()[j] != '.');
        assert(s.drop_last()[d] == '.');
        lemma_ext_of_at(s.drop_last(), d);
        assert(s.skip(d + 1) =~= s.drop_last().skip(d + 1).push(s.last()));
    }
}

/// A name whose only possible dot leads it has no extension.
proof fn lemma_ext_of_none(s: Seq<char>)
    requires
        forall|j: int| 1 <= j < s.len() ==> s[j] != '.',
    ensures
        ext_of(s) is None,
    decreases s.len(),
{
    if s.len() >= 2 {
        assert(s.last() != '.');
        assert(forall|j: int| 1 <= j < s.drop_last().len() ==> s.drop_last()[j] != '.');
        lemma_ext_of_none(s.drop_last());
    }
}

/// The extension of a file name, if it has one.
pub fn extension_of(name: &str) -> (r: Option<String>)
    ensures
        match r {
            Some(e) => ext_of(name@) == Some(e@),
            None => ext_of(name@) is None,
        },
{
    let n = name.unicode_len();
    let mut i: usize = n;
    while i > 1
        invariant
            0 <= i <= n,
            n == name@.len(),
            forall|j: int| i <= j < n ==> name@[j] != '.',
        decreases i,
    {
        let c = name.get_char(i - 1);
        if c == '.' {
            let ext = name.substring_char(i, n);
            proof {
                lemma_ext_of_at(name@, i - 1);
                assert(name@.skip(i as int) =~= name@.subrange(i as int, n as int));
            }
            return Some(ext.to_owned());
        }
        i -= 1;
    }
    proof {
        lemma_ext_of_none(name@);
    }
    None
}

/// A slash at position `d`, with no later slash, cuts the tail: all that
/// follows it.
proof fn lemma_tail_at(s: Seq<char>, d: int)
    requires
        0 <= d < s.len(),
        s[d] == '/',
        forall|j: int| d < j < s.len() ==> s[j] != '/',
    ensures
        tail_after_slash(s) == s.skip(d + 1),
    decreases s.len(),
{
    if d == s.len() - 1 {
        assert(s.last() == '/');
        assert(s.skip(d + 1) =~= Seq::<char>::empty());
    } else {
        assert(s.last() != '/');
        assert(forall|j: int| d < j < s.drop_last().len() ==> s.drop_last()[j] != '/');
        assert(s.drop_last()[d] == '/');
        lemma_tail_at(s.drop_last(), d);
        assert(s.skip(d + 1) =~= s.drop_last().skip(d + 1).push(s.last()));
    }
}

/// Without a slash the tail is the whole of `s`.
proof fn lemma_tail_none(s: Seq<char>)
    requires
        forall|j: int| 0 <= j < s.len() ==> s[j] != '/',
    ensures
        tail_after_slash(s) == s,
    decreases s.len(),
{
    if s.len() > 0 {
        assert(forall|j: int| 0 <= j < s.drop_last().len() ==> s.drop_last()[j] != '/');
        lemma_tail_none(s.drop_last());
        assert(s.drop_last().push(s.last()) =~= s);
    }
}

/// The directory a clone of `owner/name` lands in: the part of the
/// identifier after its last slash.
pub fn repo_dir_name(repo: &str) -> (r: String)
    ensures
        r@ == tail_after_slash(repo@),
{
    let n = repo.unicode_len();
    let mut i: usize = n;
    while i > 0
        invariant
            0 <= i <= n,
            n == repo@.len(),
            forall|j: int| i <= j < n ==> repo@[j] != '/',
        decreases i,
    {
        let c = repo.get_char(i - 1);
        if c == '/' {
            let tail = repo.substring_char(i, n);
            proof {
                lemma_tail_at(repo@, i - 1);
                assert(repo@.skip(i as int) =~= repo@.subrange(i as int, n as int));
            }
            return tail.to_owned();
        }
        i -= 1;
    }
    proof {
        lemma_tail_none(repo@);
    }
    repo.to_owned()
}

} // verus!
