//! Exclusion patterns: reading them from an ignore file, and deciding whether a
//! path is excluded.
use vstd::prelude::*;
use vstd::utf8::encode_utf8;

use crate::primitives::{glob_match, glob_outcome};
use crate::text::{chars_of, is_space, is_space_char, string_of};

verus! {

/// `s` without the `/` bytes at its end.
pub open spec fn trim_slashes(s: Seq<u8>) -> Seq<u8>
    decreases s.len(),
{
    if s.len() > 0 && s.last() == 47 {
        trim_slashes(s.drop_last())
    } else {
        s
    }
}

/// `needle` occurs somewhere in `hay`; the empty sequence occurs everywhere.
pub open spec fn contains(hay: Seq<u8>, needle: Seq<u8>) -> bool {
    exists|k: int| 0 <= k && k + needle.len() <= hay.len() && #[trigger] hay.subrange(k, k + needle.len()) == needle
}

/// A pattern excludes a path where it matches the path as a glob, or where the
/// path contains the pattern with its trailing `/` removed.
pub open spec fn pattern_excludes(pattern: Seq<char>, path: Seq<char>) -> bool {
    glob_outcome(pattern, path) == Some(true) || contains(
        encode_utf8(path),
        trim_slashes(encode_utf8(pattern)),
    )
}

/// Some pattern of the list excludes the path.
pub open spec fn excluded(path: Seq<char>, patterns: Seq<Seq<char>>) -> bool {
    exists|i: int| 0 <= i < patterns.len() && pattern_excludes(#[trigger] patterns[i], path)
}

fn trimmed_len(s: &[u8]) -> (r: usize)
    ensures
        r <= s@.len(),
        trim_slashes(s@) == s@.take(r as int),
{
    let mut n = s.len();
    assert(s@.take(n as int) =~= s@);
    while n > 0 && s[n - 1] == 47
        invariant
            n <= s@.len(),
            trim_slashes(s@) == trim_slashes(s@.take(n as int)),
        decreases n,
    {
        assert(s@.take(n as int).drop_last() =~= s@.take(n - 1));
        n = n - 1;
    }
    proof { lemma_untrimmed(s@.take(n as int)); }
    n
}

proof fn lemma_untrimmed(s: Seq<u8>)
    requires
        !(s.len() > 0 && s.last() == 47),
    ensures
        trim_slashes(s) == s,
{
}

/// Whether the first `n` bytes of `needle` occur in `hay`.
fn contains_prefix(hay: &[u8], needle: &[u8], n: usize) -> (r: bool)
    requires
        n <= needle@.len(),
    ensures
        r == contains(hay@, needle@.take(n as int)),
{
    let ghost nd = needle@.take(n as int);
    if n > hay.len() {
        assert forall|j: int| 0 <= j && j + nd.len() <= hay@.len() implies #[trigger] hay@.subrange(j, j + nd.len()) != nd by {}
        return false;
    }
    let mut k: usize = 0;
    while k <= hay.len() - n
        invariant
            n <= hay@.len(),
            n <= needle@.len(),
            nd == needle@.take(n as int),
            k <= hay@.len() - n + 1,
            forall|j: int| 0 <= j < k ==> #[trigger] hay@.subrange(j, j + n) != nd,
        decreases hay@.len() + 1 - k,
    {
        let mut m: usize = 0;
        while m < n
            invariant
                m <= n,
                k + n <= hay.len(),
                n <= needle@.len(),
                forall|j: int| 0 <= j < m ==> hay@[k + j] == needle@[j],
            ensures
                m < n ==> hay@[k + m] != needle@[m as int],
            decreases n - m,
        {
            if hay[k + m] != needle[m] {
                break;
            }
            m = m + 1;
        }
        if m == n {
            assert(hay@.subrange(k as int, k + n) =~= nd);
            return true;
        }
        assert(hay@.subrange(k as int, k + n)[m as int] != nd[m as int]);
        assert forall|j: int| 0 <= j < k + 1 implies #[trigger] hay@.subrange(j, j + n) != nd by {
            if j == k {
                assert(hay@.subrange(k as int, k + n)[m as int] != nd[m as int]);
            }
        }
        k = k + 1;
    }
    false
}

/// Whether `path` is excluded by any of `patterns`: a pattern excludes a path
/// where it matches it as a glob, or where the path contains the pattern with
/// its trailing `/` removed. A pattern that is not a valid glob excludes only
/// through containment.
pub fn should_ignore(path: &str, patterns: &[String]) -> (r: bool)
    ensures
        r == excluded(path@, patterns@.map_values(|p: String| p@)),
{
    let ghost ps = patterns@.map_values(|p: String| p@);
    let hay = path.as_bytes();
    let mut i: usize = 0;
    while i < patterns.len()
        invariant
            0 <= i <= patterns@.len(),
            ps == patterns@.map_values(|p: String| p@),
            hay@ == encode_utf8(path@),
            forall|j: int| 0 <= j < i ==> !pattern_excludes(#[trigger] ps[j], path@),
        decreases patterns@.len() - i,
    {
        let pattern = patterns[i].as_str();
        assert(ps[i as int] == pattern@);
        if glob_match(pattern, path) == Some(true) {
            return true;
        }
        let needle = pattern.as_bytes();
        let n = trimmed_len(needle);
        if contains_prefix(hay, needle, n) {
            return true;
        }
        i = i + 1;
    }
    false
}

/// The lines of `s`: the pieces between `\n` characters. A text that ends in a
/// newline has an empty last piece.
pub open spec fn split_lines(s: Seq<char>) -> Seq<Seq<char>>
    decreases s.len(),
{
    if s.len() == 0 {
        seq![Seq::empty()]
    } else {
        let w = split_lines(s.drop_last());
        if s.last() == '\n' {
            w.push(Seq::empty())
        } else {
            w.update(w.len() - 1, w.last().push(s.last()))
        }
    }
}

pub open spec fn trim_start(s: Seq<char>) -> Seq<char>
    decreases s.len(),
{
    if s.len() > 0 && is_space(s[0]) {
        trim_start(s.drop_first())
    } else {
        s
    }
}

pub open spec fn trim_end(s: Seq<char>) -> Seq<char>
    decreases s.len(),
{
    if s.len() > 0 && is_space(s.last()) {
        trim_end(s.drop_last())
    } else {
        s
    }
}

/// `s` without whitespace at either end, as `str::trim` gives it.
pub open spec fn trim(s: Seq<char>) -> Seq<char> {
    trim_end(trim_start(s))
}

/// The position of the first `#` in `s`, or its length where it holds none.
pub open spec fn first_hash(s: Seq<char>) -> int
    decreases s.len(),
{
    if s.len() == 0 {
        0
    } else if s[0] == '#' {
        0
    } else {
        1 + first_hash(s.drop_first())
    }
}

/// A line gives a pattern unless, once trimmed, it is empty or starts with `#`.
pub open spec fn gives_pattern(line: Seq<char>) -> bool {
    trim(line).len() > 0 && trim(line)[0] != '#'
}

/// The pattern a line gives: the trimmed line up to its first `#`.
pub open spec fn line_pattern(line: Seq<char>) -> Seq<char> {
    trim(line).take(first_hash(trim(line)))
}

/// The patterns that a sequence of lines gives, in order.
pub open spec fn patterns_of(lines: Seq<Seq<char>>) -> Seq<Seq<char>>
    decreases lines.len(),
{
    if lines.len() == 0 {
        Seq::empty()
    } else {
        let prev = patterns_of(lines.drop_last());
        if gives_pattern(lines.last()) {
            prev.push(line_pattern(lines.last()))
        } else {
            prev
        }
    }
}

/// The patterns of an ignore file's text.
pub open spec fn ignore_patterns(text: Seq<char>) -> Seq<Seq<char>> {
    patterns_of(split_lines(text))
}

proof fn lemma_first_hash_bounds(s: Seq<char>)
    ensures
        0 <= first_hash(s) <= s.len(),
    decreases s.len(),
{
    if s.len() > 0 && s[0] != '#' {
        lemma_first_hash_bounds(s.drop_first());
    }
}

/// The pattern that the line `cs[from..to]` gives, if any.
fn pattern_of_line(cs: &[char], from: usize, to: usize) -> (r: Option<String>)
    requires
        from <= to <= cs@.len(),
    ensures
        match r {
            Some(p) => gives_pattern(cs@.subrange(from as int, to as int)) && p@ == line_pattern(
                cs@.subrange(from as int, to as int),
            ),
            None => !gives_pattern(cs@.subrange(from as int, to as int)),
        },
{
    let ghost line = cs@.subrange(from as int, to as int);
    let mut a = from;
    assert(line =~= cs@.subrange(a as int, to as int));
    while a < to && is_space_char(cs[a])
        invariant
            from <= a <= to <= cs@.len(),
            trim_start(line) == trim_start(cs@.subrange(a as int, to as int)),
        decreases to - a,
    {
        assert(cs@.subrange(a as int, to as int).drop_first() =~= cs@.subrange(a + 1, to as int));
        a = a + 1;
    }
    let mut b = to;
    assert(trim_start(line) =~= cs@.subrange(a as int, b as int));
    while b > a && is_space_char(cs[b - 1])
        invariant
            a <= b <= to <= cs@.len(),
            trim(line) == trim_end(cs@.subrange(a as int, b as int)),
        decreases b - a,
    {
        assert(cs@.subrange(a as int, b as int).drop_last() =~= cs@.subrange(a as int, b - 1));
        b = b - 1;
    }
    let ghost t = cs@.subrange(a as int, b as int);
    assert(trim(line) == t);
    if a == b || cs[a] == '#' {
        return None;
    }
    let mut h = a;
    assert(t =~= cs@.subrange(a as int, b as int));
    while h < b && cs[h] != '#'
        invariant
            a <= h <= b <= cs@.len(),
            first_hash(t) == (h - a) + first_hash(cs@.subrange(h as int, b as int)),
        decreases b - h,
    {
        assert(cs@.subrange(h as int, b as int).drop_first() =~= cs@.subrange(h + 1, b as int));
        h = h + 1;
    }
    assert(t.take(first_hash(t)) =~= cs@.subrange(a as int, h as int));
    Some(string_of(&cs[a..h]))
}

/// The exclusion patterns of an ignore file's text: each line is trimmed; blank
/// lines and lines that start with `#` give none; on the others a `#` cuts off
/// the rest of the line.
pub fn parse_excluded_paths(text: &str) -> (r: Vec<String>)
    ensures
        r@.map_values(|p: String| p@) == ignore_patterns(text@),
{
    let cs = chars_of(text);
    let mut out: Vec<String> = Vec::new();
    let mut start: usize = 0;
    let mut i: usize = 0;
    let ghost mut done: Seq<Seq<char>> = Seq::empty();
    assert(cs@.take(0) =~= Seq::<char>::empty());
    assert(split_lines(Seq::<char>::empty()) =~= done.push(cs@.subrange(0, 0)));
    while i < cs.len()
        invariant
            0 <= start <= i <= cs@.len(),
            cs@ == text@,
            split_lines(cs@.take(i as int)) == done.push(cs@.subrange(start as int, i as int)),
            out@.map_values(|p: String| p@) == patterns_of(done),
        decreases cs@.len() - i,
    {
        let ghost pre = cs@.take(i + 1);
        let ghost w = split_lines(cs@.take(i as int));
        assert(pre.drop_last() =~= cs@.take(i as int));
        assert(pre.last() == cs@[i as int]);
        if cs[i] == '\n' {
            let ghost before = out@.map_values(|p: String| p@);
            let ghost line = cs@.subrange(start as int, i as int);
            match pattern_of_line(cs.as_slice(), start, i) {
                Some(p) => {
                    out.push(p);
                    assert(out@.map_values(|p: String| p@) =~= before.push(line_pattern(line)));
                },
                None => {},
            }
            proof {
                assert(done.push(line).drop_last() =~= done);
                done = done.push(line);
            }
            start = i + 1;
            assert(split_lines(pre) == w.push(Seq::empty()));
            assert(w =~= done);
            assert(cs@.subrange(start as int, i + 1) =~= Seq::<char>::empty());
        } else {
            assert(split_lines(pre) == w.update(w.len() - 1, w.last().push(cs@[i as int])));
            assert(w.last().push(cs@[i as int]) =~= cs@.subrange(start as int, i + 1));
            assert(split_lines(pre) =~= done.push(cs@.subrange(start as int, i + 1)));
        }
        i = i + 1;
    }
    assert(cs@.take(i as int) =~= cs@);
    let ghost last = cs@.subrange(start as int, i as int);
    let ghost before = out@.map_values(|p: String| p@);
    match pattern_of_line(cs.as_slice(), start, i) {
        Some(p) => {
            out.push(p);
            assert(out@.map_values(|p: String| p@) =~= before.push(line_pattern(last)));
        },
        None => {},
    }
    assert(done.push(last).drop_last() =~= done);
    out
}

} // verus!
