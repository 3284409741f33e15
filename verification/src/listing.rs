//! The serialized listings. An unhashed listing holds one path per line; a
//! hashed listing holds `<digest>, <path>` per line. White space around a
//! line does not count, and blank lines are skipped.

use crate::hash::digest_len;
use crate::hash::digest_length;
use crate::text::is_blank;
use crate::text::line_len;
use crate::text::lines;
use crate::text::string_of;
use crate::text::trim;
use vstd::prelude::*;
use vstd::utf8::encode_utf8;

verus! {

/// Why a hashed listing cannot be read.
#[derive(Debug, Clone, Copy, PartialEq, Eq, Structural)]
pub enum ParseError {
    /// A line has no `", "` between digest and path.
    MissingSeparator,
    /// The digest of a line has not the length of a digest.
    DigestLength,
}

impl ParseError {
    /// What the error says.
    pub open spec fn text(self) -> Seq<char> {
        match self {
            ParseError::MissingSeparator => "line does not contain hash"@,
            ParseError::DigestLength => "digest length does not match"@,
        }
    }

    /// What the error says.
    pub fn message(&self) -> (r: String)
        ensures
            r@ == self.text(),
    {
        match self {
            ParseError::MissingSeparator => "line does not contain hash".to_owned(),
            ParseError::DigestLength => "digest length does not match".to_owned(),
        }
    }
}

/// The paths that the lines `ls` of an unhashed listing name: each line
/// without the white space around it, blank lines left out.
pub open spec fn paths_of_lines(ls: Seq<Seq<char>>) -> Set<Seq<char>> {
    Set::new(
        |p: Seq<char>|
            p.len() > 0 && exists|i: int| 0 <= i < ls.len() && #[trigger] trim(ls[i]) == p,
    )
}

/// The paths that an unhashed listing names.
pub open spec fn listed_paths(text: Seq<char>) -> Set<Seq<char>> {
    paths_of_lines(lines(text))
}

/// A comma and a space stand at index `i` of `s`.
pub open spec fn separator_at(s: Seq<char>, i: int) -> bool {
    0 <= i && i + 1 < s.len() && s[i] == ',' && s[i + 1] == ' '
}

/// The index of the first `", "` in `s`, if there is one.
#[verifier::opaque]
pub open spec fn first_separator(s: Seq<char>) -> Option<int> {
    if exists|i: int| separator_at(s, i) {
        Some(choose|i: int| separator_at(s, i) && forall|j: int| 0 <= j < i ==> !separator_at(s, j))
    } else {
        None
    }
}

/// The length of `s` in bytes of UTF-8.
#[verifier::opaque]
pub open spec fn byte_len(s: Seq<char>) -> nat {
    encode_utf8(s).len()
}

/// Path and digest of one line of a hashed listing. The line is split at its
/// first `", "`, so the path may hold commas; what stands before must be as
/// long as a digest.
pub open spec fn split_entry(line: Seq<char>) -> Result<(Seq<char>, Seq<char>), ParseError> {
    match first_separator(line) {
        None => Err(ParseError::MissingSeparator),
        Some(i) => if byte_len(line.take(i)) != digest_len() {
            Err(ParseError::DigestLength)
        } else {
            Ok((line.skip(i + 2), line.take(i)))
        },
    }
}

/// The mapping from path to digest that the lines `ls` of a hashed listing
/// give, or the error of the first line that cannot be read. Of two lines with
/// one path the later one counts.
#[verifier::opaque]
pub open spec fn entries_of_lines(ls: Seq<Seq<char>>) -> Result<
    Map<Seq<char>, Seq<char>>,
    ParseError,
>
    decreases ls.len(),
{
    if ls.len() == 0 {
        Ok(Map::empty())
    } else {
        match entries_of_lines(ls.drop_last()) {
            Err(e) => Err(e),
            Ok(m) => {
                let line = trim(ls.last());
                if line.len() == 0 {
                    Ok(m)
                } else {
                    match split_entry(line) {
                        Err(e) => Err(e),
                        Ok((path, digest)) => Ok(m.insert(path, digest)),
                    }
                }
            },
        }
    }
}

/// What a hashed listing holds.
pub open spec fn listed_entries(text: Seq<char>) -> Result<Map<Seq<char>, Seq<char>>, ParseError> {
    entries_of_lines(lines(text))
}

pub proof fn lemma_paths_of_lines_push(ls: Seq<Seq<char>>, l: Seq<char>)
    ensures
        paths_of_lines(ls.push(l)) == if trim(l).len() > 0 {
            paths_of_lines(ls).insert(trim(l))
        } else {
            paths_of_lines(ls)
        },
{
    let big = paths_of_lines(ls.push(l));
    let small = paths_of_lines(ls);
    let t = trim(l);
    assert forall|p: Seq<char>| big.contains(p) <==> (small.contains(p) || (t.len() > 0 && p
        == t)) by {
        if big.contains(p) {
            let i = choose|i: int| 0 <= i < ls.push(l).len() && #[trigger] trim(ls.push(l)[i]) == p;
            if i < ls.len() {
                assert(trim(ls[i]) == p);
            }
        }
        if small.contains(p) {
            let i = choose|i: int| 0 <= i < ls.len() && #[trigger] trim(ls[i]) == p;
            assert(trim(ls.push(l)[i]) == p);
        }
        if t.len() > 0 && p == t {
            assert(trim(ls.push(l)[ls.len() as int]) == p);
        }
    }
    if t.len() > 0 {
        assert(big =~= small.insert(t));
    } else {
        assert(big =~= small);
    }
}

/// No lines hold no entries.
pub proof fn lemma_entries_of_no_lines()
    ensures
        entries_of_lines(Seq::empty()) == Ok::<Map<Seq<char>, Seq<char>>, ParseError>(
            Map::empty(),
        ),
{
    reveal(entries_of_lines);
}

/// What one more line adds to the entries of the lines before it.
pub proof fn lemma_entries_of_lines_push(ls: Seq<Seq<char>>, l: Seq<char>)
    ensures
        entries_of_lines(ls.push(l)) == match entries_of_lines(ls) {
            Err(e) => Err(e),
            Ok(m) => if trim(l).len() == 0 {
                Ok(m)
            } else {
                match split_entry(trim(l)) {
                    Err(e) => Err(e),
                    Ok((path, digest)) => Ok(m.insert(path, digest)),
                }
            },
        },
{
    reveal(entries_of_lines);
    assert(ls.push(l).drop_last() == ls);
}

/// Once a line has failed, the lines after it change nothing.
pub proof fn lemma_entries_of_lines_fail(ls: Seq<Seq<char>>, more: Seq<Seq<char>>)
    requires
        entries_of_lines(ls) is Err,
    ensures
        entries_of_lines(ls + more) == entries_of_lines(ls),
    decreases more.len(),
{
    if more.len() == 0 {
        assert(ls + more == ls);
    } else {
        lemma_entries_of_lines_fail(ls, more.drop_last());
        assert(ls + more == (ls + more.drop_last()).push(more.last()));
        lemma_entries_of_lines_push(ls + more.drop_last(), more.last());
    }
}

/// Where the first separator stands, it is the only index that has a
/// separator and none before it.
pub proof fn lemma_first_separator(s: Seq<char>, i: int)
    requires
        separator_at(s, i),
        forall|j: int| 0 <= j < i ==> !separator_at(s, j),
    ensures
        first_separator(s) == Some(i),
{
    reveal(first_separator);
    let k = choose|k: int| separator_at(s, k) && forall|j: int| 0 <= j < k ==> !separator_at(s, j);
    assert(separator_at(s, k) && forall|j: int| 0 <= j < k ==> !separator_at(s, j));
    if k < i {
        assert(!separator_at(s, k));
    }
    if i < k {
        assert(!separator_at(s, i));
    }
}

/// Finds the first `", "` in `chars[a..b]`.
pub fn find_separator(chars: &Vec<char>, a: usize, b: usize) -> (r: Option<usize>)
    requires
        a <= b <= chars.len(),
    ensures
        match r {
            Some(i) => a <= i && i + 2 <= b && first_separator(
                chars@.subrange(a as int, b as int),
            ) == Some(i - a),
            None => first_separator(chars@.subrange(a as int, b as int)) is None,
        },
{
    let ghost line = chars@.subrange(a as int, b as int);
    let mut i: usize = a;
    while i < b && !(i + 1 < b && chars[i] == ',' && chars[i + 1] == ' ')
        invariant
            a <= i <= b <= chars.len(),
            line == chars@.subrange(a as int, b as int),
            forall|j: int| 0 <= j < i - a ==> !separator_at(line, j),
        decreases b - i,
    {
        assert(!separator_at(line, i - a));
        i += 1;
    }
    if i >= b {
        proof {
            reveal(first_separator);
        }
        None
    } else {
        proof {
            assert(separator_at(line, i - a));
            lemma_first_separator(line, i - a);
        }
        Some(i)
    }
}

/// The length of `s` in bytes.
pub fn byte_length(s: &str) -> (n: usize)
    ensures
        n == byte_len(s@),
{
    proof {
        reveal(byte_len);
    }
    s.as_bytes().len()
}

/// Reads one line of a hashed listing, `chars[a..b]`, into path and digest.
pub fn parse_entry(chars: &Vec<char>, a: usize, b: usize) -> (r: Result<
    (String, String),
    ParseError,
>)
    requires
        a <= b <= chars.len(),
    ensures
        match split_entry(chars@.subrange(a as int, b as int)) {
            Ok((path, digest)) => r matches Ok(e) && e.0@ == path && e.1@ == digest,
            Err(e) => r is Err && r->Err_0 == e,
        },
{
    let ghost line = chars@.subrange(a as int, b as int);
    match find_separator(chars, a, b) {
        None => Err(ParseError::MissingSeparator),
        Some(i) => {
            let digest = string_of(chars, a, i);
            assert(line.take(i - a) == chars@.subrange(a as int, i as int));
            if byte_length(digest.as_str()) != digest_length() {
                return Err(ParseError::DigestLength);
            }
            let path = string_of(chars, i + 2, b);
            assert(line.skip(i - a + 2) == chars@.subrange(i + 2, b as int));
            Ok((path, digest))
        },
    }
}

/// One line of a hashed listing, without its line feed.
pub open spec fn entry_line(path: Seq<char>, digest: Seq<char>) -> Seq<char> {
    digest + seq![',', ' '] + path
}

/// The hashed listing of the given pairs of path and digest: one line each,
/// in their order, each ended by a line feed.
pub open spec fn rendered(entries: Seq<(Seq<char>, Seq<char>)>) -> Seq<char>
    decreases entries.len(),
{
    if entries.len() == 0 {
        Seq::empty()
    } else {
        entry_line(entries[0].0, entries[0].1) + seq!['\n'] + rendered(entries.drop_first())
    }
}

/// The mapping that results when pairs of path and digest are put in one
/// after the other, a later pair replacing an earlier one with the same path.
pub open spec fn map_of(entries: Seq<(Seq<char>, Seq<char>)>) -> Map<Seq<char>, Seq<char>>
    decreases entries.len(),
{
    if entries.len() == 0 {
        Map::empty()
    } else {
        map_of(entries.drop_last()).insert(entries.last().0, entries.last().1)
    }
}

/// A path with its digest can be written as a line and read back: the line
/// holds no line feed and no white space at either end, its first `", "` is
/// the one behind the digest, and the digest has the length of a digest.
pub open spec fn writable(path: Seq<char>, digest: Seq<char>) -> bool {
    let line = entry_line(path, digest);
    &&& forall|i: int| 0 <= i < line.len() ==> line[i] != '\n'
    &&& !is_blank(line[0])
    &&& !is_blank(line.last())
    &&& forall|j: int| 0 <= j < digest.len() ==> !separator_at(line, j)
    &&& byte_len(digest) == digest_len()
}

/// The line in which a path stands with its digest in a hashed listing.
pub fn format_entry(digest: &str, path: &str) -> (line: String)
    ensures
        line@ == entry_line(path@, digest@),
{
    let mut line = String::new();
    line.append(digest);
    line.append(", ");
    line.append(path);
    proof {
        reveal_strlit(", ");
        assert(", "@ =~= seq![',', ' ']);
        assert(line@ =~= entry_line(path@, digest@));
    }
    line
}

proof fn lemma_line_len_prefix(line: Seq<char>, rest: Seq<char>)
    requires
        forall|i: int| 0 <= i < line.len() ==> line[i] != '\n',
    ensures
        line_len(line + seq!['\n'] + rest) == line.len(),
    decreases line.len(),
{
    let all = line + seq!['\n'] + rest;
    if line.len() > 0 {
        assert(all[0] == line[0]);
        assert(all.drop_first() == line.drop_first() + seq!['\n'] + rest);
        lemma_line_len_prefix(line.drop_first(), rest);
    } else {
        assert(all[0] == '\n');
    }
}

/// The lines of a rendered listing are the lines of its entries.
proof fn lemma_lines_of_rendered(entries: Seq<(Seq<char>, Seq<char>)>)
    requires
        forall|k: int|
            0 <= k < entries.len() ==> writable((#[trigger] entries[k]).0, entries[k].1),
    ensures
        lines(rendered(entries)) == entries.map_values(
            |e: (Seq<char>, Seq<char>)| entry_line(e.0, e.1),
        ),
    decreases entries.len(),
{
    let f = |e: (Seq<char>, Seq<char>)| entry_line(e.0, e.1);
    if entries.len() == 0 {
        assert(lines(rendered(entries)) =~= entries.map_values(f));
    } else {
        let line = entry_line(entries[0].0, entries[0].1);
        let rest = rendered(entries.drop_first());
        let text = line + seq!['\n'] + rest;
        assert(writable(entries[0].0, entries[0].1));
        lemma_line_len_prefix(line, rest);
        assert(text.take(line.len() as int) == line);
        assert(text.skip(line.len() as int + 1) == rest);
        assert forall|k: int| 0 <= k < entries.drop_first().len() implies writable(
            (#[trigger] entries.drop_first()[k]).0,
            entries.drop_first()[k].1,
        ) by {
            assert(entries.drop_first()[k] == entries[k + 1]);
        }
        lemma_lines_of_rendered(entries.drop_first());
        assert(seq![line] + entries.drop_first().map_values(f) =~= entries.map_values(f));
    }
}

/// A line without white space at its ends is left as it is.
proof fn lemma_trim_keeps(line: Seq<char>)
    requires
        line.len() > 0,
        !is_blank(line[0]),
        !is_blank(line.last()),
    ensures
        trim(line) == line,
{
}

/// A writable line is read back as its path and digest.
proof fn lemma_split_entry_line(path: Seq<char>, digest: Seq<char>)
    requires
        writable(path, digest),
    ensures
        trim(entry_line(path, digest)) == entry_line(path, digest),
        split_entry(entry_line(path, digest)) == Ok::<(Seq<char>, Seq<char>), ParseError>(
            (path, digest),
        ),
{
    let line = entry_line(path, digest);
    let n = digest.len() as int;
    assert(line.len() == n + 2 + path.len());
    lemma_trim_keeps(line);
    assert(line[n] == ',' && line[n + 1] == ' ');
    assert(separator_at(line, n));
    lemma_first_separator(line, n);
    assert(line.take(n) == digest);
    assert(line.skip(n + 2) == path);
}

/// Round trip: a written listing, read back, gives the mapping that was
/// written, provided each of its lines can be read back at all.
pub proof fn lemma_round_trip(entries: Seq<(Seq<char>, Seq<char>)>)
    requires
        forall|k: int|
            0 <= k < entries.len() ==> writable((#[trigger] entries[k]).0, entries[k].1),
    ensures
        listed_entries(rendered(entries)) == Ok::<Map<Seq<char>, Seq<char>>, ParseError>(
            map_of(entries),
        ),
{
    lemma_lines_of_rendered(entries);
    lemma_entries_of_written_lines(entries);
}

proof fn lemma_entries_of_written_lines(entries: Seq<(Seq<char>, Seq<char>)>)
    requires
        forall|k: int|
            0 <= k < entries.len() ==> writable((#[trigger] entries[k]).0, entries[k].1),
    ensures
        entries_of_lines(entries.map_values(|e: (Seq<char>, Seq<char>)| entry_line(e.0, e.1)))
            == Ok::<Map<Seq<char>, Seq<char>>, ParseError>(map_of(entries)),
    decreases entries.len(),
{
    let f = |e: (Seq<char>, Seq<char>)| entry_line(e.0, e.1);
    if entries.len() == 0 {
        lemma_entries_of_no_lines();
        assert(entries.map_values(f) =~= Seq::<Seq<char>>::empty());
    } else {
        let head = entries.drop_last();
        let last = entries.last();
        assert forall|k: int| 0 <= k < head.len() implies writable(
            (#[trigger] head[k]).0,
            head[k].1,
        ) by {
            assert(head[k] == entries[k]);
        }
        lemma_entries_of_written_lines(head);
        assert(writable(last.0, last.1));
        lemma_split_entry_line(last.0, last.1);
        lemma_entries_of_lines_push(head.map_values(f), entry_line(last.0, last.1));
        assert(head.map_values(f).push(entry_line(last.0, last.1)) =~= entries.map_values(f));
    }
}

} // verus!
