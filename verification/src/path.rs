//! Normalized paths: relative to a root, with `/` between the components and
//! a `/` behind a directory.

use crate::text::chars_of;
use crate::text::push_char;
use vstd::prelude::*;

verus! {

/// `c` stands between the components of a path: the platform's separator
/// `sep` does, and `/` does everywhere.
pub open spec fn is_separator(c: char, sep: char) -> bool {
    c == sep || c == '/'
}

/// `s` without the separators at its start.
pub open spec fn strip_start(s: Seq<char>, sep: char) -> Seq<char>
    decreases s.len(),
{
    if s.len() > 0 && is_separator(s[0], sep) {
        strip_start(s.drop_first(), sep)
    } else {
        s
    }
}

/// `s` without the separators at its end.
pub open spec fn strip_end(s: Seq<char>, sep: char) -> Seq<char>
    decreases s.len(),
{
    if s.len() > 0 && is_separator(s.last(), sep) {
        strip_end(s.drop_last(), sep)
    } else {
        s
    }
}

/// `path` lies at or below `base`: it starts with `base`, and `base` ends
/// where a component of `path` ends.
pub open spec fn is_descendant(path: Seq<char>, base: Seq<char>, sep: char) -> bool {
    &&& base.is_prefix_of(path)
    &&& (base.len() == 0 || base.len() == path.len() || is_separator(base.last(), sep)
        || is_separator(path[base.len() as int], sep))
}

/// What `path` holds behind `base`, without separators at either end.
pub open spec fn relative(path: Seq<char>, base: Seq<char>, sep: char) -> Seq<char> {
    strip_end(strip_start(path.skip(base.len() as int), sep), sep)
}

/// `s` with `/` in place of each `sep`.
pub open spec fn with_slashes(s: Seq<char>, sep: char) -> Seq<char> {
    s.map_values(
        |c: char|
            if c == sep {
                '/'
            } else {
                c
            },
    )
}

/// The normalized form of `path` below `base`.
pub open spec fn normalized(path: Seq<char>, base: Seq<char>, sep: char, is_dir: bool) -> Seq<
    char,
> {
    let plain = with_slashes(relative(path, base, sep), sep);
    if is_dir {
        plain.push('/')
    } else {
        plain
    }
}

/// What is left when separators are stripped from the end does not end in
/// one.
pub proof fn lemma_strip_end_last(s: Seq<char>, sep: char)
    ensures
        strip_end(s, sep).len() > 0 ==> !is_separator(strip_end(s, sep).last(), sep),
    decreases s.len(),
{
    if s.len() > 0 && is_separator(s.last(), sep) {
        lemma_strip_end_last(s.drop_last(), sep);
    }
}

/// Stripping separators from the end leaves a prefix.
pub proof fn lemma_strip_end_prefix(s: Seq<char>, sep: char)
    ensures
        strip_end(s, sep).is_prefix_of(s),
    decreases s.len(),
{
    if s.len() > 0 && is_separator(s.last(), sep) {
        lemma_strip_end_prefix(s.drop_last(), sep);
    }
}

/// What is left when separators are stripped from the start does not start
/// with one.
pub proof fn lemma_strip_start_first(s: Seq<char>, sep: char)
    ensures
        strip_start(s, sep).len() > 0 ==> !is_separator(strip_start(s, sep)[0], sep),
    decreases s.len(),
{
    if s.len() > 0 && is_separator(s[0], sep) {
        lemma_strip_start_first(s.drop_first(), sep);
    }
}

/// A directory's normalized path ends in `/`, and a file's never does; no
/// normalized path of an entry below the root starts with `/`.
pub proof fn lemma_normalized_shape(path: Seq<char>, base: Seq<char>, sep: char, is_dir: bool)
    ensures
        is_dir ==> normalized(path, base, sep, is_dir).len() > 0 && normalized(
            path,
            base,
            sep,
            is_dir,
        ).last() == '/',
        !is_dir ==> normalized(path, base, sep, is_dir).len() == 0 || normalized(
            path,
            base,
            sep,
            is_dir,
        ).last() != '/',
        relative(path, base, sep).len() > 0 ==> normalized(path, base, sep, is_dir)[0] != '/',
{
    let inner = strip_start(path.skip(base.len() as int), sep);
    let rel = relative(path, base, sep);
    lemma_strip_end_last(inner, sep);
    lemma_strip_start_first(path.skip(base.len() as int), sep);
    lemma_strip_end_prefix(inner, sep);
    if rel.len() > 0 {
        assert(rel[0] == inner[0]);
        assert(with_slashes(rel, sep)[0] != '/');
        assert(with_slashes(rel, sep).last() != '/');
    }
}

/// Tells whether `c` stands between the components of a path.
pub fn separates(c: char, sep: char) -> (r: bool)
    ensures
        r == is_separator(c, sep),
{
    c == sep || c == '/'
}

/// Tells whether `path` lies at or below `base`.
pub fn descends(path: &str, base: &str, sep: char) -> (r: bool)
    ensures
        r == is_descendant(path@, base@, sep),
{
    let p = chars_of(path);
    let b = chars_of(base);
    if b.len() > p.len() {
        return false;
    }
    let mut i: usize = 0;
    while i < b.len()
        invariant
            i <= b.len() <= p.len(),
            p@ == path@,
            b@ == base@,
            forall|k: int| 0 <= k < i ==> p@[k] == b@[k],
        decreases b.len() - i,
    {
        if p[i] != b[i] {
            return false;
        }
        i += 1;
    }
    assert(b@ =~= p@.subrange(0, b@.len() as int));
    b.len() == 0 || b.len() == p.len() || separates(b[b.len() - 1], sep) || separates(
        p[b.len()],
        sep,
    )
}

/// The normalized form of `path` below `base`: what `path` holds behind
/// `base`, with `/` in place of each separator `sep`, and with a `/` at the
/// end if and only if `is_dir` says that the path is a directory.
pub fn normalize_path(path: &str, base: &str, sep: char, is_dir: bool) -> (r: String)
    requires
        is_descendant(path@, base@, sep),
    ensures
        r@ == normalized(path@, base@, sep, is_dir),
        is_dir ==> r@.len() > 0 && r@.last() == '/',
        !is_dir ==> r@.len() == 0 || r@.last() != '/',
        relative(path@, base@, sep).len() > 0 ==> r@[0] != '/',
{
    let chars = chars_of(path);
    let skip = base.unicode_len();
    let ghost rest = chars@.skip(skip as int);
    let mut lo: usize = skip;
    assert(chars@.subrange(lo as int, chars.len() as int) == rest);
    while lo < chars.len() && separates(chars[lo], sep)
        invariant
            skip <= lo <= chars.len(),
            strip_start(rest, sep) == strip_start(
                chars@.subrange(lo as int, chars.len() as int),
                sep,
            ),
        decreases chars.len() - lo,
    {
        assert(chars@.subrange(lo as int, chars.len() as int).drop_first() == chars@.subrange(
            lo + 1,
            chars.len() as int,
        ));
        lo += 1;
    }
    let ghost inner = chars@.subrange(lo as int, chars.len() as int);
    let mut hi: usize = chars.len();
    while hi > lo && separates(chars[hi - 1], sep)
        invariant
            lo <= hi <= chars.len(),
            inner == chars@.subrange(lo as int, chars.len() as int),
            strip_end(inner, sep) == strip_end(chars@.subrange(lo as int, hi as int), sep),
        decreases hi - lo,
    {
        assert(chars@.subrange(lo as int, hi as int).drop_last() == chars@.subrange(
            lo as int,
            hi - 1,
        ));
        hi -= 1;
    }
    let ghost rel = chars@.subrange(lo as int, hi as int);
    assert(rel == relative(path@, base@, sep));
    let mut r = String::new();
    let mut i: usize = lo;
    while i < hi
        invariant
            lo <= i <= hi <= chars.len(),
            rel == chars@.subrange(lo as int, hi as int),
            r@ == with_slashes(rel.take(i - lo), sep),
        decreases hi - i,
    {
        let c = chars[i];
        proof {
            assert(rel.take(i - lo + 1) == rel.take(i - lo).push(c));
            assert(with_slashes(rel.take(i - lo).push(c), sep) == with_slashes(
                rel.take(i - lo),
                sep,
            ).push(
                if c == sep {
                    '/'
                } else {
                    c
                },
            ));
        }
        if c == sep {
            push_char(&mut r, '/');
        } else {
            push_char(&mut r, c);
        }
        i += 1;
    }
    assert(rel.take(hi - lo) == rel);
    if is_dir {
        push_char(&mut r, '/');
    }
    proof {
        lemma_normalized_shape(path@, base@, sep, is_dir);
    }
    r
}

} // verus!
