//! Snapshots of a directory tree and the differences between two of them.

use crate::gather::sort_entries;
use crate::gather::sort_paths;
use crate::listing::entries_of_lines;
use crate::listing::format_entry;
use crate::listing::lemma_entries_of_lines_fail;
use crate::listing::lemma_entries_of_lines_push;
use crate::listing::lemma_entries_of_no_lines;
use crate::listing::lemma_paths_of_lines_push;
use crate::listing::listed_entries;
use crate::listing::listed_paths;
use crate::listing::map_of;
use crate::listing::parse_entry;
use crate::listing::ParseError;
use crate::listing::paths_of_lines;
use crate::listing::rendered;
use crate::merge::diff;
use crate::merge::hashed_diff;
use crate::merge::lemma_diff_without_digests;
use crate::merge::listing;
use crate::merge::lists;
use crate::merge::merge;
use crate::order::increasing;
use crate::order::lemma_path_lt_trichotomy;
use crate::order::path_lt;
use crate::sorted::lemma_between;
use crate::sorted::lemma_increasing_distinct;
use crate::sorted::lemma_insert_at;
use crate::sorted::search;
use crate::sorted::texts;
use crate::text::chars_of;
use crate::text::lines;
use crate::text::next_line;
use crate::text::push_char;
use crate::text::string_of;
use crate::text::trim_range;
use vstd::prelude::*;

verus! {

/// How a path differs between a left and a right snapshot.
#[derive(Debug, Clone, Copy, PartialEq, Eq, Structural)]
pub enum Difference {
    /// Present on the left, absent on the right.
    New,
    /// Absent on the left, present on the right.
    Absence,
    /// Present on both sides with different digests.
    HashDifference,
}

impl Difference {
    /// The sign under which a difference is reported: `+` for a new path,
    /// `-` for an absent one, `x` for a changed one.
    pub open spec fn mark(self) -> char {
        match self {
            Difference::New => '+',
            Difference::Absence => '-',
            Difference::HashDifference => 'x',
        }
    }

    /// The sign under which this difference is reported.
    pub fn symbol(&self) -> (c: char)
        ensures
            c == self.mark(),
    {
        match self {
            Difference::New => '+',
            Difference::Absence => '-',
            Difference::HashDifference => 'x',
        }
    }
}

/// The line that reports a difference: its sign, a space, the path.
pub open spec fn difference_text(path: Seq<char>, difference: Difference) -> Seq<char> {
    seq![difference.mark(), ' '] + path
}

/// The line that reports a difference.
pub fn difference_line(path: &str, difference: Difference) -> (line: String)
    ensures
        line@ == difference_text(path@, difference),
{
    let mut line = String::new();
    push_char(&mut line, difference.symbol());
    push_char(&mut line, ' ');
    line.append(path);
    assert(line@ =~= difference_text(path@, difference));
    line
}

/// The lines that report a list of differences, in the order of the list.
pub fn report(differences: &Vec<(String, Difference)>) -> (r: Vec<String>)
    ensures
        r.len() == differences.len(),
        forall|i: int|
            0 <= i < r.len() ==> (#[trigger] r[i])@ == difference_text(
                differences[i].0@,
                differences[i].1,
            ),
{
    let mut r: Vec<String> = Vec::new();
    let mut i: usize = 0;
    while i < differences.len()
        invariant
            i <= differences.len(),
            r.len() == i,
            forall|k: int|
                0 <= k < i ==> (#[trigger] r[k])@ == difference_text(
                    differences[k].0@,
                    differences[k].1,
                ),
        decreases differences.len() - i,
    {
        let line = difference_line(differences[i].0.as_str(), differences[i].1);
        r.push(line);
        i += 1;
    }
    r
}

/// The paths among `items`.
pub open spec fn collected_paths(items: Seq<String>) -> Set<Seq<char>> {
    texts(items).to_set()
}

/// The paths among the successful `items`.
pub open spec fn ok_paths<E>(items: Seq<Result<String, E>>) -> Set<Seq<char>> {
    Set::new(
        |p: Seq<char>|
            exists|i: int|
                0 <= i < items.len() && (#[trigger] items[i] matches Ok(s) && s@ == p),
    )
}

/// The index of the first error among `items`, if there is one.
pub open spec fn first_error<T, E>(items: Seq<Result<T, E>>) -> Option<int> {
    if exists|i: int| 0 <= i < items.len() && items[i] is Err {
        Some(
            choose|i: int|
                0 <= i < items.len() && items[i] is Err && forall|j: int|
                    0 <= j < i ==> items[j] is Ok,
        )
    } else {
        None
    }
}

/// Adds `path` to the paths that have been found.
fn push_path(found: &mut Vec<String>, path: String)
    ensures
        texts(final(found)@).to_set() == texts(old(found)@).to_set().insert(path@),
{
    proof {
        lemma_to_set_push(texts(found@), path@);
        assert(texts(found@.push(path)) == texts(found@).push(path@));
    }
    found.push(path);
}

/// A copy of an increasing vector of paths.
fn copy_paths(v: &Vec<String>) -> (r: Vec<String>)
    ensures
        texts(r@) == texts(v@),
        r.len() == v.len(),
{
    let mut r: Vec<String> = Vec::new();
    let mut i: usize = 0;
    while i < v.len()
        invariant
            i <= v.len(),
            texts(r@) == texts(v@.take(i as int)),
        decreases v.len() - i,
    {
        let item = v[i].clone();
        assert(v@.take(i + 1) == v@.take(i as int).push(v@[i as int]));
        assert(texts(r@.push(item)) == texts(r@).push(item@));
        assert(texts(v@.take(i as int).push(v@[i as int])) == texts(v@.take(i as int)).push(
            v@[i as int]@,
        ));
        r.push(item);
        i += 1;
    }
    assert(v@.take(v.len() as int) == v@);
    assert(texts(r@).len() == r.len() && texts(v@).len() == v.len());
    r
}

/// An unhashed snapshot: a set of paths.
#[derive(Debug)]
pub struct Entries {
    entries: Vec<String>,
}

impl View for Entries {
    type V = Set<Seq<char>>;

    closed spec fn view(&self) -> Set<Seq<char>> {
        texts(self.entries@).to_set()
    }
}

impl Default for Entries {
    fn default() -> (r: Entries)
        ensures
            r@ == Set::<Seq<char>>::empty(),
    {
        let entries: Vec<String> = Vec::new();
        assert(texts(entries@).to_set() =~= Set::<Seq<char>>::empty());
        Entries { entries }
    }
}

impl Clone for Entries {
    fn clone(&self) -> (r: Entries)
        ensures
            r@ == self@,
    {
        proof {
            use_type_invariant(self);
        }
        Entries { entries: copy_paths(&self.entries) }
    }
}

impl Entries {
    #[verifier::type_invariant]
    spec fn ordered(&self) -> bool {
        increasing(texts(self.entries@))
    }

    /// Reads an unhashed listing: one path per line, white space around it
    /// dropped, blank lines skipped.
    pub fn read(text: &str) -> (r: Entries)
        ensures
            r@ == listed_paths(text@),
    {
        let chars = chars_of(text);
        let mut found: Vec<String> = Vec::new();
        let mut pos: usize = 0;
        let ghost mut done: Seq<Seq<char>> = Seq::empty();
        assert(texts(found@).to_set() =~= paths_of_lines(done));
        assert(chars@.skip(0) == chars@);
        while pos < chars.len()
            invariant
                pos <= chars.len(),
                chars@ == text@,
                lines(chars@) == done + lines(chars@.skip(pos as int)),
                texts(found@).to_set() == paths_of_lines(done),
            decreases chars.len() - pos,
        {
            let (end, next) = next_line(&chars, pos);
            let (a, b) = trim_range(&chars, pos, end);
            let ghost line = chars@.subrange(pos as int, end as int);
            proof {
                lemma_paths_of_lines_push(done, line);
                assert(done + (seq![line] + lines(chars@.skip(next as int))) == done.push(line)
                    + lines(chars@.skip(next as int)));
            }
            if a < b {
                let path = string_of(&chars, a, b);
                push_path(&mut found, path);
            }
            proof {
                done = done.push(line);
            }
            pos = next;
        }
        assert(lines(chars@) == done);
        Entries { entries: sort_paths(found) }
    }

    /// The number of paths.
    pub fn len(&self) -> (n: usize)
        ensures
            n == self@.len(),
            self@.finite(),
    {
        proof {
            use_type_invariant(self);
            lemma_increasing_distinct(texts(self.entries@));
            texts(self.entries@).unique_seq_to_set();
        }
        self.entries.len()
    }

    /// Tells whether the snapshot holds no path.
    pub fn is_empty(&self) -> (r: bool)
        ensures
            r == (self@ == Set::<Seq<char>>::empty()),
    {
        proof {
            if self.entries.len() > 0 {
                assert(texts(self.entries@)[0] == self.entries@[0]@);
                assert(self@.contains(self.entries@[0]@));
            } else {
                assert(self@ =~= Set::<Seq<char>>::empty());
            }
        }
        self.entries.len() == 0
    }

    /// Tells whether the snapshot holds `path`.
    pub fn contains(&self, path: &str) -> (r: bool)
        ensures
            r == self@.contains(path@),
    {
        proof {
            use_type_invariant(self);
        }
        match search(&self.entries, path) {
            Ok(i) => {
                assert(texts(self.entries@)[i as int] == path@);
                true
            },
            Err(i) => {
                proof {
                    lemma_between(texts(self.entries@), path@, i as int);
                }
                false
            },
        }
    }

    /// The paths in path order.
    pub fn to_vec(&self) -> (r: Vec<String>)
        ensures
            increasing(texts(r@)),
            texts(r@).to_set() == self@,
    {
        proof {
            use_type_invariant(self);
        }
        copy_paths(&self.entries)
    }

    /// Collects paths into a snapshot, up to the first error among them:
    /// that error is handed back, and no snapshot.
    pub fn try_collect<E>(items: Vec<Result<String, E>>) -> (r: Result<Entries, E>)
        ensures
            match first_error(items@) {
                Some(i) => r is Err && r->Err_0 == items@[i]->Err_0,
                None => r is Ok && r->Ok_0@ == ok_paths(items@),
            },
    {
        let mut found: Vec<String> = Vec::new();
        let ghost all = items@;
        assert(texts(found@).to_set() =~= ok_paths(all.take(0)));
        for item in it: items
            invariant
                it.seq() == all,
                forall|j: int| 0 <= j < it.index() ==> all[j] is Ok,
                texts(found@).to_set() == ok_paths(all.take(it.index() as int)),
        {
            let ghost k = it.index() as int;
            match item {
                Ok(path) => {
                    proof {
                        assert(all.take(k + 1) == all.take(k).push(Ok(path)));
                        lemma_ok_paths_push(all.take(k), path);
                    }
                    push_path(&mut found, path);
                },
                Err(e) => {
                    assert(all[k] is Err);
                    return Err(e);
                },
            }
        }
        assert(all.take(all.len() as int) == all);
        Ok(Entries { entries: sort_paths(found) })
    }

    /// Collects paths into a snapshot; a path that occurs twice is held once.
    pub fn from_iter(items: Vec<String>) -> (r: Entries)
        ensures
            r@ == collected_paths(items@),
    {
        Entries { entries: sort_paths(items) }
    }
}

proof fn lemma_ok_paths_push<E>(items: Seq<Result<String, E>>, path: String)
    ensures
        ok_paths(items.push(Ok(path))) == ok_paths(items).insert(path@),
{
    let more = items.push(Ok(path));
    assert forall|p: Seq<char>| ok_paths(more).contains(p) <==> ok_paths(items).insert(
        path@,
    ).contains(p) by {
        if ok_paths(more).contains(p) {
            let i = choose|i: int|
                0 <= i < more.len() && (#[trigger] more[i] matches Ok(s) && s@ == p);
            if i < items.len() {
                assert(items[i] matches Ok(s) && s@ == p);
            }
        }
        if ok_paths(items).contains(p) {
            let i = choose|i: int|
                0 <= i < items.len() && (#[trigger] items[i] matches Ok(s) && s@ == p);
            assert(more[i] matches Ok(s) && s@ == p);
        }
        if p == path@ {
            assert(more[items.len() as int] matches Ok(s) && s@ == p);
        }
    }
    assert(ok_paths(more) =~= ok_paths(items).insert(path@));
}

/// The mapping in which the path at each index goes to the digest at the
/// same index.
pub open spec fn entry_map(paths: Seq<Seq<char>>, digests: Seq<Seq<char>>) -> Map<
    Seq<char>,
    Seq<char>,
> {
    Map::new(|p: Seq<char>| paths.contains(p), |p: Seq<char>| digests[paths.index_of(p)])
}

/// The mapping that results when the pairs of path and digest in `items` are
/// put in one after the other, a later pair replacing an earlier one with the
/// same path.
pub open spec fn collected_entries(items: Seq<(String, String)>) -> Map<Seq<char>, Seq<char>>
    decreases items.len(),
{
    if items.len() == 0 {
        Map::empty()
    } else {
        collected_entries(items.drop_last()).insert(items.last().0@, items.last().1@)
    }
}

/// As `collected_entries`, of the successful `items`.
pub open spec fn ok_entries<E>(items: Seq<Result<(String, String), E>>) -> Map<
    Seq<char>,
    Seq<char>,
>
    decreases items.len(),
{
    if items.len() == 0 {
        Map::empty()
    } else {
        let rest = ok_entries(items.drop_last());
        match items.last() {
            Ok(e) => rest.insert(e.0@, e.1@),
            Err(_) => rest,
        }
    }
}

/// In an increasing sequence of paths each path is found at its own index.
pub proof fn lemma_entry_map_at(paths: Seq<Seq<char>>, digests: Seq<Seq<char>>, i: int)
    requires
        increasing(paths),
        0 <= i < paths.len(),
    ensures
        entry_map(paths, digests).contains_key(paths[i]),
        entry_map(paths, digests)[paths[i]] == digests[i],
{
    lemma_increasing_distinct(paths);
    assert(paths.contains(paths[i]));
    let k = paths.index_of(paths[i]);
    assert(0 <= k < paths.len() && paths[k] == paths[i]);
}

pub proof fn lemma_entry_map_insert(
    paths: Seq<Seq<char>>,
    digests: Seq<Seq<char>>,
    i: int,
    path: Seq<char>,
    digest: Seq<char>,
)
    requires
        increasing(paths),
        paths.len() == digests.len(),
        0 <= i <= paths.len(),
        forall|k: int| 0 <= k < i ==> path_lt(#[trigger] paths[k], path),
        forall|k: int| i <= k < paths.len() ==> path_lt(path, #[trigger] paths[k]),
    ensures
        increasing(paths.insert(i, path)),
        entry_map(paths.insert(i, path), digests.insert(i, digest)) == entry_map(
            paths,
            digests,
        ).insert(path, digest),
{
    let old_map = entry_map(paths, digests);
    let more_paths = paths.insert(i, path);
    let more_digests = digests.insert(i, digest);
    let new_map = entry_map(more_paths, more_digests);
    lemma_insert_at(paths, i, path);
    assert forall|p: Seq<char>| new_map.contains_key(p) <==> old_map.insert(
        path,
        digest,
    ).contains_key(p) by {
        assert(more_paths.to_set().contains(p) <==> paths.to_set().insert(path).contains(p));
    }
    assert forall|p: Seq<char>| new_map.contains_key(p) implies new_map[p] == old_map.insert(
        path,
        digest,
    )[p] by {
        let k = more_paths.index_of(p);
        lemma_entry_map_at(more_paths, more_digests, k);
        if k < i {
            assert(paths[k] == p);
            lemma_entry_map_at(paths, digests, k);
            lemma_path_lt_trichotomy(p, path);
        } else if k > i {
            assert(paths[k - 1] == p);
            lemma_entry_map_at(paths, digests, k - 1);
            lemma_path_lt_trichotomy(p, path);
        }
    }
    assert(new_map =~= old_map.insert(path, digest));
}

/// The pairs of the path and the digest at each index.
pub open spec fn pairs_of(paths: Seq<Seq<char>>, digests: Seq<Seq<char>>) -> Seq<
    (Seq<char>, Seq<char>),
> {
    Seq::new(paths.len(), |i: int| (paths[i], digests[i]))
}

/// The paths of pairs of path and digest.
pub open spec fn paths_of(pairs: Seq<(Seq<char>, Seq<char>)>) -> Seq<Seq<char>> {
    pairs.map_values(|e: (Seq<char>, Seq<char>)| e.0)
}

/// Increasing paths with their digests, put in one after the other, give the
/// mapping from each path to its digest.
pub proof fn lemma_map_of_pairs(paths: Seq<Seq<char>>, digests: Seq<Seq<char>>)
    requires
        increasing(paths),
        paths.len() == digests.len(),
    ensures
        map_of(pairs_of(paths, digests)) == entry_map(paths, digests),
    decreases paths.len(),
{
    if paths.len() == 0 {
        assert(entry_map(paths, digests) =~= Map::<Seq<char>, Seq<char>>::empty());
    } else {
        let n = paths.len() - 1;
        let head = paths.drop_last();
        let head_digests = digests.drop_last();
        assert(pairs_of(paths, digests).drop_last() == pairs_of(head, head_digests));
        lemma_map_of_pairs(head, head_digests);
        lemma_entry_map_insert(head, head_digests, n, paths.last(), digests.last());
        assert(head.insert(n, paths.last()) == paths);
        assert(head_digests.insert(n, digests.last()) == digests);
    }
}

/// A hashed snapshot: a mapping from path to digest.
#[derive(Debug)]
pub struct HashedEntries {
    paths: Vec<String>,
    digests: Vec<String>,
}

impl View for HashedEntries {
    type V = Map<Seq<char>, Seq<char>>;

    closed spec fn view(&self) -> Map<Seq<char>, Seq<char>> {
        entry_map(texts(self.paths@), texts(self.digests@))
    }
}

impl Default for HashedEntries {
    fn default() -> (r: HashedEntries)
        ensures
            r@ == Map::<Seq<char>, Seq<char>>::empty(),
    {
        let paths: Vec<String> = Vec::new();
        let digests: Vec<String> = Vec::new();
        assert(entry_map(texts(paths@), texts(digests@)) =~= Map::<Seq<char>, Seq<char>>::empty());
        HashedEntries { paths, digests }
    }
}

impl Clone for HashedEntries {
    fn clone(&self) -> (r: HashedEntries)
        ensures
            r@ == self@,
    {
        proof {
            use_type_invariant(self);
        }
        HashedEntries { paths: copy_paths(&self.paths), digests: copy_paths(&self.digests) }
    }
}

impl HashedEntries {
    #[verifier::type_invariant]
    spec fn ordered(&self) -> bool {
        increasing(texts(self.paths@)) && self.paths.len() == self.digests.len()
    }

    /// Reads a hashed listing: `<digest>, <path>` per line, white space
    /// around a line dropped, blank lines skipped. The first line that has no
    /// `", "`, or whose digest has not the length of a digest, fails the whole
    /// reading with its error.
    pub fn read(text: &str) -> (r: Result<HashedEntries, ParseError>)
        ensures
            match listed_entries(text@) {
                Ok(m) => r is Ok && r->Ok_0@ == m,
                Err(e) => r is Err && r->Err_0 == e,
            },
    {
        let chars = chars_of(text);
        let mut found: Vec<(String, String)> = Vec::new();
        let mut pos: usize = 0;
        let ghost mut done: Seq<Seq<char>> = Seq::empty();
        proof {
            lemma_entries_of_no_lines();
            assert(chars@.skip(0) == chars@);
        }
        while pos < chars.len()
            invariant
                pos <= chars.len(),
                chars@ == text@,
                lines(chars@) == done + lines(chars@.skip(pos as int)),
                entries_of_lines(done) is Ok,
                entries_of_lines(done)->Ok_0 == collected_entries(found@),
            decreases chars.len() - pos,
        {
            let (end, next) = next_line(&chars, pos);
            let (a, b) = trim_range(&chars, pos, end);
            let ghost line = chars@.subrange(pos as int, end as int);
            let ghost rest = lines(chars@.skip(next as int));
            proof {
                lemma_entries_of_lines_push(done, line);
                assert(done + (seq![line] + rest) == done.push(line) + rest);
            }
            if a < b {
                match parse_entry(&chars, a, b) {
                    Ok((path, digest)) => {
                        assert(found@.push((path, digest)).drop_last() == found@);
                        found.push((path, digest));
                    },
                    Err(e) => {
                        proof {
                            lemma_entries_of_lines_fail(done.push(line), rest);
                        }
                        return Err(e);
                    },
                }
            }
            proof {
                done = done.push(line);
            }
            pos = next;
        }
        assert(lines(chars@) == done);
        let (paths, digests) = sort_entries(found);
        Ok(HashedEntries { paths, digests })
    }

    /// The entries in path order, each a path with its digest.
    pub closed spec fn pairs(&self) -> Seq<(Seq<char>, Seq<char>)> {
        pairs_of(texts(self.paths@), texts(self.digests@))
    }

    /// The number of paths.
    pub fn len(&self) -> (n: usize)
        ensures
            n == self@.dom().len(),
            self@.dom().finite(),
    {
        proof {
            use_type_invariant(self);
            lemma_increasing_distinct(texts(self.paths@));
            texts(self.paths@).unique_seq_to_set();
            assert(self@.dom() =~= texts(self.paths@).to_set());
        }
        self.paths.len()
    }

    /// Tells whether the snapshot holds no path.
    pub fn is_empty(&self) -> (r: bool)
        ensures
            r == (self@ == Map::<Seq<char>, Seq<char>>::empty()),
    {
        proof {
            if self.paths.len() > 0 {
                assert(texts(self.paths@)[0] == self.paths@[0]@);
                assert(texts(self.paths@).contains(self.paths@[0]@));
                assert(self@.contains_key(self.paths@[0]@));
            } else {
                assert(self@ =~= Map::<Seq<char>, Seq<char>>::empty());
            }
        }
        self.paths.len() == 0
    }

    /// The digest of `path`, if the snapshot holds the path.
    pub fn get(&self, path: &str) -> (r: Option<&String>)
        ensures
            match r {
                Some(digest) => self@.contains_key(path@) && self@[path@] == digest@,
                None => !self@.contains_key(path@),
            },
    {
        proof {
            use_type_invariant(self);
        }
        match search(&self.paths, path) {
            Ok(i) => {
                proof {
                    lemma_entry_map_at(texts(self.paths@), texts(self.digests@), i as int);
                }
                Some(&self.digests[i])
            },
            Err(i) => {
                proof {
                    lemma_between(texts(self.paths@), path@, i as int);
                }
                None
            },
        }
    }

    /// The entries in path order, each a path with its digest.
    pub fn to_vec(&self) -> (r: Vec<(String, String)>)
        ensures
            r@.map_values(|e: (String, String)| (e.0@, e.1@)) == self.pairs(),
            increasing(paths_of(self.pairs())),
            map_of(self.pairs()) == self@,
    {
        proof {
            use_type_invariant(self);
            lemma_map_of_pairs(texts(self.paths@), texts(self.digests@));
            assert(paths_of(self.pairs()) =~= texts(self.paths@));
        }
        let ghost f = |e: (String, String)| (e.0@, e.1@);
        let mut r: Vec<(String, String)> = Vec::new();
        let mut i: usize = 0;
        while i < self.paths.len()
            invariant
                i <= self.paths.len(),
                self.paths.len() == self.digests.len(),
                r.len() == i,
                forall|k: int|
                    0 <= k < i ==> (#[trigger] r[k]).0@ == self.paths[k]@ && r[k].1@
                        == self.digests[k]@,
            decreases self.paths.len() - i,
        {
            r.push((self.paths[i].clone(), self.digests[i].clone()));
            i += 1;
        }
        assert(r@.map_values(f) =~= self.pairs());
        r
    }

    /// Writes the snapshot as a hashed listing, in path order.
    pub fn write(&self) -> (text: String)
        ensures
            text@ == rendered(self.pairs()),
            increasing(paths_of(self.pairs())),
            map_of(self.pairs()) == self@,
    {
        proof {
            use_type_invariant(self);
            lemma_map_of_pairs(texts(self.paths@), texts(self.digests@));
            assert(paths_of(self.pairs()) =~= texts(self.paths@));
        }
        let ghost all = self.pairs();
        let mut text = String::new();
        let mut i: usize = 0;
        assert(all.skip(0) == all);
        while i < self.paths.len()
            invariant
                i <= self.paths.len(),
                self.paths.len() == self.digests.len(),
                all == pairs_of(texts(self.paths@), texts(self.digests@)),
                rendered(all) == text@ + rendered(all.skip(i as int)),
            decreases self.paths.len() - i,
        {
            let line = format_entry(self.digests[i].as_str(), self.paths[i].as_str());
            proof {
                reveal_strlit("\n");
                assert("\n"@ =~= seq!['\n']);
                assert(all.skip(i as int).drop_first() == all.skip(i + 1));
                assert(all.skip(i as int)[0] == all[i as int]);
                assert(text@ + (line@ + seq!['\n'] + rendered(all.skip(i + 1))) == text@ + line@
                    + seq!['\n'] + rendered(all.skip(i + 1)));
            }
            text.append(line.as_str());
            text.append("\n");
            i += 1;
        }
        assert(rendered(all.skip(i as int)) == Seq::<char>::empty());
        assert(text@ + Seq::<char>::empty() == text@);
        text
    }

    /// Collects pairs of path and digest into a snapshot, up to the first
    /// error among them: that error is handed back, and no snapshot. Of two
    /// pairs with one path the later one counts.
    pub fn try_collect<E>(items: Vec<Result<(String, String), E>>) -> (r: Result<HashedEntries, E>)
        ensures
            match first_error(items@) {
                Some(i) => r is Err && r->Err_0 == items@[i]->Err_0,
                None => r is Ok && r->Ok_0@ == ok_entries(items@),
            },
    {
        let mut found: Vec<(String, String)> = Vec::new();
        let ghost all = items@;
        assert(collected_entries(found@) =~= ok_entries(all.take(0)));
        for item in it: items
            invariant
                it.seq() == all,
                forall|j: int| 0 <= j < it.index() ==> all[j] is Ok,
                collected_entries(found@) == ok_entries(all.take(it.index() as int)),
        {
            let ghost k = it.index() as int;
            assert(all.take(k + 1).drop_last() == all.take(k));
            match item {
                Ok((path, digest)) => {
                    assert(found@.push((path, digest)).drop_last() == found@);
                    found.push((path, digest));
                },
                Err(e) => {
                    assert(all[k] is Err);
                    return Err(e);
                },
            }
        }
        assert(all.take(all.len() as int) == all);
        let (paths, digests) = sort_entries(found);
        Ok(HashedEntries { paths, digests })
    }

    /// Collects pairs of path and digest into a snapshot. Of two pairs with
    /// one path the later one counts.
    pub fn from_iter(items: Vec<(String, String)>) -> (r: HashedEntries)
        ensures
            r@ == collected_entries(items@),
    {
        let (paths, digests) = sort_entries(items);
        HashedEntries { paths, digests }
    }
}

impl core::ops::Sub for Entries {
    type Output = Vec<(String, Difference)>;

    /// The differences between this snapshot, on the left, and `rhs`, on the
    /// right, in path order: what only the left one holds is new, what only
    /// the right one holds is absent.
    fn sub(self, rhs: Entries) -> (out: Vec<(String, Difference)>)
        ensures
            lists(listing(out@), diff(self@, rhs@)),
    {
        proof {
            use_type_invariant(&self);
            use_type_invariant(&rhs);
            lemma_diff_without_digests(texts(self.entries@), texts(rhs.entries@));
        }
        let none: Vec<String> = Vec::new();
        merge(&self.entries, &none, &rhs.entries, &none, false)
    }
}

impl vstd::std_specs::ops::SubSpecImpl for Entries {
    open spec fn obeys_sub_spec() -> bool {
        false
    }

    open spec fn sub_req(self, rhs: Entries) -> bool {
        true
    }

    open spec fn sub_spec(self, rhs: Entries) -> Vec<(String, Difference)> {
        arbitrary()
    }
}

impl core::ops::Sub for HashedEntries {
    type Output = Vec<(String, Difference)>;

    /// The differences between this snapshot, on the left, and `rhs`, on the
    /// right, in path order: what only the left one holds is new, what only
    /// the right one holds is absent, and what both hold with different
    /// digests is changed.
    fn sub(self, rhs: HashedEntries) -> (out: Vec<(String, Difference)>)
        ensures
            lists(listing(out@), hashed_diff(self@, rhs@)),
    {
        proof {
            use_type_invariant(&self);
            use_type_invariant(&rhs);
        }
        merge(&self.paths, &self.digests, &rhs.paths, &rhs.digests, true)
    }
}

impl vstd::std_specs::ops::SubSpecImpl for HashedEntries {
    open spec fn obeys_sub_spec() -> bool {
        false
    }

    open spec fn sub_req(self, rhs: HashedEntries) -> bool {
        true
    }

    open spec fn sub_spec(self, rhs: HashedEntries) -> Vec<(String, Difference)> {
        arbitrary()
    }
}

proof fn lemma_to_set_push(s: Seq<Seq<char>>, x: Seq<char>)
    ensures
        s.push(x).to_set() == s.to_set().insert(x),
{
    assert forall|p: Seq<char>| s.push(x).to_set().contains(p) <==> s.to_set().insert(x).contains(
        p,
    ) by {
        if s.push(x).to_set().contains(p) {
            let i = choose|i: int| 0 <= i < s.push(x).len() && s.push(x)[i] == p;
            if i < s.len() {
                assert(s[i] == p);
            }
        }
        if s.to_set().contains(p) {
            let i = choose|i: int| 0 <= i < s.len() && s[i] == p;
            assert(s.push(x)[i] == p);
        }
        if p == x {
            assert(s.push(x)[s.len() as int] == p);
        }
    }
    assert(s.push(x).to_set() =~= s.to_set().insert(x));
}

} // verus!
