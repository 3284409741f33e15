//! The differences between two snapshots: what they are, the laws they obey,
//! and the one pass over two snapshots in path order that finds them.

use crate::diff::Difference;
use crate::diff::entry_map;
use crate::diff::lemma_entry_map_at;
use crate::order::compare;
use crate::order::increasing;
use crate::order::lemma_path_lt_transitive;
use crate::order::path_lt;
use crate::order::Position;
use crate::sorted::lemma_between;
use crate::sorted::texts;
use vstd::prelude::*;

verus! {

/// How the path `p` differs between the snapshots `a` and `b`, if it does.
pub open spec fn classify(
    a: Map<Seq<char>, Seq<char>>,
    b: Map<Seq<char>, Seq<char>>,
    p: Seq<char>,
) -> Option<Difference> {
    if a.contains_key(p) && !b.contains_key(p) {
        Some(Difference::New)
    } else if !a.contains_key(p) && b.contains_key(p) {
        Some(Difference::Absence)
    } else if a.contains_key(p) && b.contains_key(p) && a[p] != b[p] {
        Some(Difference::HashDifference)
    } else {
        None
    }
}

/// The differences between two hashed snapshots: a path of the left one
/// alone is new, a path of the right one alone is absent, a path of both is
/// changed where its digests differ; a path that both hold with one digest
/// does not occur.
pub open spec fn hashed_diff(
    a: Map<Seq<char>, Seq<char>>,
    b: Map<Seq<char>, Seq<char>>,
) -> Map<Seq<char>, Difference> {
    Map::new(|p: Seq<char>| classify(a, b, p) is Some, |p: Seq<char>| classify(a, b, p)->0)
}

/// The differences between two unhashed snapshots: a path of the left one
/// alone is new, a path of the right one alone is absent.
pub open spec fn diff(a: Set<Seq<char>>, b: Set<Seq<char>>) -> Map<Seq<char>, Difference> {
    Map::new(
        |p: Seq<char>| a.contains(p) != b.contains(p),
        |p: Seq<char>|
            if a.contains(p) {
                Difference::New
            } else {
                Difference::Absence
            },
    )
}

/// A list of differences as plain values.
pub open spec fn listing(out: Seq<(String, Difference)>) -> Seq<(Seq<char>, Difference)> {
    out.map_values(|e: (String, Difference)| (e.0@, e.1))
}

/// The paths of a list of differences.
pub open spec fn listed(out: Seq<(Seq<char>, Difference)>) -> Seq<Seq<char>> {
    out.map_values(|e: (Seq<char>, Difference)| e.0)
}

/// `out` lists the differences `m` in path order: each path of `m` once,
/// with its difference, and nothing else.
pub open spec fn lists(out: Seq<(Seq<char>, Difference)>, m: Map<Seq<char>, Difference>) -> bool {
    &&& increasing(listed(out))
    &&& forall|k: int| 0 <= k < out.len() ==> m.contains_pair((#[trigger] out[k]).0, out[k].1)
    &&& forall|p: Seq<char>| m.contains_key(p) ==> listed(out).contains(p)
}

/// As many empty digests as there are paths: the digests of an unhashed
/// snapshot, which are all the same.
pub open spec fn no_digests(n: nat) -> Seq<Seq<char>> {
    Seq::new(n, |i: int| Seq::<char>::empty())
}

/// What has been settled once the first `i` paths of the left snapshot and
/// the first `j` of the right one are done.
spec fn settled(
    pa: Seq<Seq<char>>,
    da: Seq<Seq<char>>,
    pb: Seq<Seq<char>>,
    db: Seq<Seq<char>>,
    i: int,
    j: int,
    out: Seq<(Seq<char>, Difference)>,
) -> bool {
    let d = hashed_diff(entry_map(pa, da), entry_map(pb, db));
    &&& 0 <= i <= pa.len()
    &&& 0 <= j <= pb.len()
    &&& increasing(listed(out))
    &&& out.len() > 0 && i < pa.len() ==> path_lt(out.last().0, pa[i])
    &&& out.len() > 0 && j < pb.len() ==> path_lt(out.last().0, pb[j])
    &&& i > 0 && j < pb.len() ==> path_lt(pa[i - 1], pb[j])
    &&& j > 0 && i < pa.len() ==> path_lt(pb[j - 1], pa[i])
    &&& forall|k: int| 0 <= k < out.len() ==> d.contains_pair((#[trigger] out[k]).0, out[k].1)
    &&& forall|x: int|
        0 <= x < i && d.contains_key(#[trigger] pa[x]) ==> listed(out).contains(pa[x])
    &&& forall|y: int|
        0 <= y < j && d.contains_key(#[trigger] pb[y]) ==> listed(out).contains(pb[y])
}

proof fn lemma_increasing_push(s: Seq<Seq<char>>, x: Seq<char>)
    requires
        increasing(s),
        s.len() > 0 ==> path_lt(s.last(), x),
    ensures
        increasing(s.push(x)),
{
    let t = s.push(x);
    assert forall|a: int, b: int| 0 <= a < b < t.len() implies path_lt(t[a], t[b]) by {
        if b == s.len() && a < s.len() - 1 {
            lemma_path_lt_transitive(s[a], s.last(), x);
        }
    }
}

proof fn lemma_listed_push(out: Seq<(Seq<char>, Difference)>, e: (Seq<char>, Difference))
    ensures
        listed(out.push(e)) == listed(out).push(e.0),
        forall|p: Seq<char>| listed(out).contains(p) ==> listed(out.push(e)).contains(p),
        listed(out.push(e)).contains(e.0),
{
    assert(listed(out.push(e)) =~= listed(out).push(e.0));
    assert forall|p: Seq<char>| listed(out).contains(p) implies listed(out.push(e)).contains(
        p,
    ) by {
        let k = choose|k: int| 0 <= k < listed(out).len() && listed(out)[k] == p;
        assert(listed(out.push(e))[k] == p);
    }
    assert(listed(out.push(e))[out.len() as int] == e.0);
}

/// A path is added to the list: it is the next in path order.
proof fn lemma_settled_push(
    pa: Seq<Seq<char>>,
    da: Seq<Seq<char>>,
    pb: Seq<Seq<char>>,
    db: Seq<Seq<char>>,
    i: int,
    j: int,
    out: Seq<(Seq<char>, Difference)>,
    e: (Seq<char>, Difference),
)
    requires
        settled(pa, da, pb, db, i, j, out),
        out.len() > 0 ==> path_lt(out.last().0, e.0),
        hashed_diff(entry_map(pa, da), entry_map(pb, db)).contains_pair(e.0, e.1),
    ensures
        increasing(listed(out.push(e))),
        forall|k: int|
            0 <= k < out.push(e).len() ==> hashed_diff(
                entry_map(pa, da),
                entry_map(pb, db),
            ).contains_pair((#[trigger] out.push(e)[k]).0, out.push(e)[k].1),
        forall|p: Seq<char>| listed(out).contains(p) ==> listed(out.push(e)).contains(p),
        listed(out.push(e)).contains(e.0),
        out.push(e).last() == e,
{
    lemma_listed_push(out, e);
    if out.len() > 0 {
        assert(listed(out).last() == out.last().0);
    }
    lemma_increasing_push(listed(out), e.0);
    let d = hashed_diff(entry_map(pa, da), entry_map(pb, db));
    assert forall|k: int| 0 <= k < out.push(e).len() implies d.contains_pair(
        (#[trigger] out.push(e)[k]).0,
        out.push(e)[k].1,
    ) by {
        if k < out.len() {
            assert(out.push(e)[k] == out[k]);
        }
    }
}

/// The next path of the left snapshot comes before what is left of the right
/// one: it is new.
proof fn lemma_settled_left(
    pa: Seq<Seq<char>>,
    da: Seq<Seq<char>>,
    pb: Seq<Seq<char>>,
    db: Seq<Seq<char>>,
    i: int,
    j: int,
    out: Seq<(Seq<char>, Difference)>,
)
    requires
        increasing(pa),
        increasing(pb),
        settled(pa, da, pb, db, i, j, out),
        i < pa.len(),
        j < pb.len() ==> path_lt(pa[i], pb[j]),
    ensures
        settled(pa, da, pb, db, i + 1, j, out.push((pa[i], Difference::New))),
{
    let e = (pa[i], Difference::New);
    lemma_between(pb, pa[i], j);
    assert(pa.contains(pa[i]));
    lemma_settled_push(pa, da, pb, db, i, j, out, e);
    if j > 0 && i + 1 < pa.len() {
        lemma_path_lt_transitive(pb[j - 1], pa[i], pa[i + 1]);
    }
}

/// The next path of the right snapshot comes before what is left of the left
/// one: it is absent.
proof fn lemma_settled_right(
    pa: Seq<Seq<char>>,
    da: Seq<Seq<char>>,
    pb: Seq<Seq<char>>,
    db: Seq<Seq<char>>,
    i: int,
    j: int,
    out: Seq<(Seq<char>, Difference)>,
)
    requires
        increasing(pa),
        increasing(pb),
        settled(pa, da, pb, db, i, j, out),
        j < pb.len(),
        i < pa.len() ==> path_lt(pb[j], pa[i]),
    ensures
        settled(pa, da, pb, db, i, j + 1, out.push((pb[j], Difference::Absence))),
{
    let e = (pb[j], Difference::Absence);
    lemma_between(pa, pb[j], i);
    assert(pb.contains(pb[j]));
    lemma_settled_push(pa, da, pb, db, i, j, out, e);
    if i > 0 && j + 1 < pb.len() {
        lemma_path_lt_transitive(pa[i - 1], pb[j], pb[j + 1]);
    }
}

/// Both snapshots hold the next path: it is changed where the digests
/// differ, and does not occur where they are the same.
proof fn lemma_settled_both(
    pa: Seq<Seq<char>>,
    da: Seq<Seq<char>>,
    pb: Seq<Seq<char>>,
    db: Seq<Seq<char>>,
    i: int,
    j: int,
    out: Seq<(Seq<char>, Difference)>,
)
    requires
        increasing(pa),
        increasing(pb),
        settled(pa, da, pb, db, i, j, out),
        i < pa.len(),
        j < pb.len(),
        pa[i] == pb[j],
    ensures
        da[i] != db[j] ==> settled(
            pa,
            da,
            pb,
            db,
            i + 1,
            j + 1,
            out.push((pa[i], Difference::HashDifference)),
        ),
        da[i] == db[j] ==> settled(pa, da, pb, db, i + 1, j + 1, out),
{
    lemma_entry_map_at(pa, da, i);
    lemma_entry_map_at(pb, db, j);
    if da[i] != db[j] {
        let e = (pa[i], Difference::HashDifference);
        lemma_settled_push(pa, da, pb, db, i, j, out, e);
    } else {
        if out.len() > 0 && i + 1 < pa.len() {
            lemma_path_lt_transitive(out.last().0, pa[i], pa[i + 1]);
        }
        if out.len() > 0 && j + 1 < pb.len() {
            lemma_path_lt_transitive(out.last().0, pb[j], pb[j + 1]);
        }
    }
}

/// When both snapshots are done, the list is complete.
proof fn lemma_settled_all(
    pa: Seq<Seq<char>>,
    da: Seq<Seq<char>>,
    pb: Seq<Seq<char>>,
    db: Seq<Seq<char>>,
    out: Seq<(Seq<char>, Difference)>,
)
    requires
        settled(pa, da, pb, db, pa.len() as int, pb.len() as int, out),
    ensures
        lists(out, hashed_diff(entry_map(pa, da), entry_map(pb, db))),
{
    let d = hashed_diff(entry_map(pa, da), entry_map(pb, db));
    assert forall|p: Seq<char>| d.contains_key(p) implies listed(out).contains(p) by {
        if pa.contains(p) {
            let x = choose|x: int| 0 <= x < pa.len() && pa[x] == p;
            assert(d.contains_key(pa[x]));
        } else {
            let y = choose|y: int| 0 <= y < pb.len() && pb[y] == p;
            assert(d.contains_key(pb[y]));
        }
    }
}

/// Without digests the differences are those of the two sets of paths.
pub proof fn lemma_diff_without_digests(pa: Seq<Seq<char>>, pb: Seq<Seq<char>>)
    requires
        increasing(pa),
        increasing(pb),
    ensures
        hashed_diff(entry_map(pa, no_digests(pa.len())), entry_map(pb, no_digests(pb.len())))
            == diff(pa.to_set(), pb.to_set()),
{
    let a = entry_map(pa, no_digests(pa.len()));
    let b = entry_map(pb, no_digests(pb.len()));
    assert forall|p: Seq<char>| a.contains_key(p) && b.contains_key(p) implies a[p] == b[p] by {
        let x = pa.index_of(p);
        let y = pb.index_of(p);
        lemma_entry_map_at(pa, no_digests(pa.len()), x);
        lemma_entry_map_at(pb, no_digests(pb.len()), y);
    }
    assert(hashed_diff(a, b) =~= diff(pa.to_set(), pb.to_set()));
}

/// An unhashed comparison marks exactly the paths that only the left
/// snapshot holds as new and exactly those that only the right one holds as
/// absent; it marks none as changed.
pub proof fn lemma_diff_marks(a: Set<Seq<char>>, b: Set<Seq<char>>)
    ensures
        forall|p: Seq<char>|
            diff(a, b).contains_pair(p, Difference::New) <==> a.contains(p) && !b.contains(p),
        forall|p: Seq<char>|
            diff(a, b).contains_pair(p, Difference::Absence) <==> !a.contains(p) && b.contains(p),
        forall|p: Seq<char>| !diff(a, b).contains_pair(p, Difference::HashDifference),
{
}

/// An unhashed comparison is antisymmetric: with the sides swapped the same
/// paths are marked, the new ones as absent and the absent ones as new.
pub proof fn lemma_diff_antisymmetric(a: Set<Seq<char>>, b: Set<Seq<char>>)
    ensures
        diff(a, b).dom() == diff(b, a).dom(),
        forall|p: Seq<char>|
            diff(a, b).contains_pair(p, Difference::New) <==> diff(b, a).contains_pair(
                p,
                Difference::Absence,
            ),
        forall|p: Seq<char>|
            diff(a, b).contains_pair(p, Difference::Absence) <==> diff(b, a).contains_pair(
                p,
                Difference::New,
            ),
{
    assert(diff(a, b).dom() =~= diff(b, a).dom());
}

/// A snapshot does not differ from itself.
pub proof fn lemma_diff_self_empty(a: Set<Seq<char>>)
    ensures
        diff(a, a) == Map::<Seq<char>, Difference>::empty(),
{
    assert(diff(a, a) =~= Map::<Seq<char>, Difference>::empty());
}

/// A hashed comparison marks exactly the paths that only the left snapshot
/// holds as new, exactly those that only the right one holds as absent, and
/// a path as changed if and only if both hold it with unequal digests.
pub proof fn lemma_hashed_diff_marks(a: Map<Seq<char>, Seq<char>>, b: Map<Seq<char>, Seq<char>>)
    ensures
        forall|p: Seq<char>|
            hashed_diff(a, b).contains_pair(p, Difference::New) <==> a.contains_key(p)
                && !b.contains_key(p),
        forall|p: Seq<char>|
            hashed_diff(a, b).contains_pair(p, Difference::Absence) <==> !a.contains_key(p)
                && b.contains_key(p),
        forall|p: Seq<char>|
            hashed_diff(a, b).contains_pair(p, Difference::HashDifference) <==> a.contains_key(p)
                && b.contains_key(p) && a[p] != b[p],
{
}

/// A hashed comparison is antisymmetric: with the sides swapped the same
/// paths are marked, the new ones as absent, the absent ones as new, and the
/// changed ones as changed.
pub proof fn lemma_hashed_diff_antisymmetric(
    a: Map<Seq<char>, Seq<char>>,
    b: Map<Seq<char>, Seq<char>>,
)
    ensures
        hashed_diff(a, b).dom() == hashed_diff(b, a).dom(),
        forall|p: Seq<char>|
            hashed_diff(a, b).contains_pair(p, Difference::New) <==> hashed_diff(
                b,
                a,
            ).contains_pair(p, Difference::Absence),
        forall|p: Seq<char>|
            hashed_diff(a, b).contains_pair(p, Difference::Absence) <==> hashed_diff(
                b,
                a,
            ).contains_pair(p, Difference::New),
        forall|p: Seq<char>|
            hashed_diff(a, b).contains_pair(p, Difference::HashDifference) <==> hashed_diff(
                b,
                a,
            ).contains_pair(p, Difference::HashDifference),
{
    assert(hashed_diff(a, b).dom() =~= hashed_diff(b, a).dom());
}

/// A hashed snapshot does not differ from itself.
pub proof fn lemma_hashed_diff_self_empty(a: Map<Seq<char>, Seq<char>>)
    ensures
        hashed_diff(a, a) == Map::<Seq<char>, Difference>::empty(),
{
    assert(hashed_diff(a, a) =~= Map::<Seq<char>, Difference>::empty());
}

/// Where one file's content changes and nothing else, the comparison holds
/// exactly one entry: that file's path, marked as changed.
pub proof fn lemma_hashed_diff_single_change(
    a: Map<Seq<char>, Seq<char>>,
    path: Seq<char>,
    digest: Seq<char>,
)
    requires
        a.contains_key(path),
        a[path] != digest,
    ensures
        hashed_diff(a.insert(path, digest), a) == Map::<Seq<char>, Difference>::empty().insert(
            path,
            Difference::HashDifference,
        ),
        hashed_diff(a, a.insert(path, digest)) == Map::<Seq<char>, Difference>::empty().insert(
            path,
            Difference::HashDifference,
        ),
{
    let one = Map::<Seq<char>, Difference>::empty().insert(path, Difference::HashDifference);
    assert(hashed_diff(a.insert(path, digest), a) =~= one);
    assert(hashed_diff(a, a.insert(path, digest)) =~= one);
}

/// Compares two snapshots held in path order. With `hashed` the digests
/// stand beside the paths; without it they are left out, as if all were the
/// same.
pub(crate) fn merge(
    pa: &Vec<String>,
    da: &Vec<String>,
    pb: &Vec<String>,
    db: &Vec<String>,
    hashed: bool,
) -> (out: Vec<(String, Difference)>)
    requires
        increasing(texts(pa@)),
        increasing(texts(pb@)),
        hashed ==> pa.len() == da.len() && pb.len() == db.len(),
    ensures
        lists(
            listing(out@),
            hashed_diff(
                entry_map(
                    texts(pa@),
                    if hashed {
                        texts(da@)
                    } else {
                        no_digests(pa@.len())
                    },
                ),
                entry_map(
                    texts(pb@),
                    if hashed {
                        texts(db@)
                    } else {
                        no_digests(pb@.len())
                    },
                ),
            ),
        ),
{
    let ghost a = texts(pa@);
    let ghost b = texts(pb@);
    let ghost ha = if hashed {
        texts(da@)
    } else {
        no_digests(pa@.len())
    };
    let ghost hb = if hashed {
        texts(db@)
    } else {
        no_digests(pb@.len())
    };
    let mut out: Vec<(String, Difference)> = Vec::new();
    let mut i: usize = 0;
    let mut j: usize = 0;
    assert(listed(listing(out@)) =~= Seq::<Seq<char>>::empty());
    while i < pa.len() || j < pb.len()
        invariant
            a == texts(pa@),
            b == texts(pb@),
            increasing(a),
            increasing(b),
            hashed ==> pa.len() == da.len() && pb.len() == db.len(),
            ha == if hashed {
                texts(da@)
            } else {
                no_digests(pa@.len())
            },
            hb == if hashed {
                texts(db@)
            } else {
                no_digests(pb@.len())
            },
            settled(a, ha, b, hb, i as int, j as int, listing(out@)),
        decreases pa.len() - i + pb.len() - j,
    {
        let ghost before = listing(out@);
        let position = if i >= pa.len() {
            Position::After
        } else if j >= pb.len() {
            Position::Before
        } else {
            compare(pa[i].as_str(), pb[j].as_str())
        };
        match position {
            Position::Before => {
                let e = (pa[i].clone(), Difference::New);
                proof {
                    lemma_settled_left(a, ha, b, hb, i as int, j as int, before);
                    assert(listing(out@.push(e)) == before.push((a[i as int], Difference::New)));
                }
                out.push(e);
                i += 1;
            },
            Position::After => {
                let e = (pb[j].clone(), Difference::Absence);
                proof {
                    lemma_settled_right(a, ha, b, hb, i as int, j as int, before);
                    assert(listing(out@.push(e)) == before.push(
                        (b[j as int], Difference::Absence),
                    ));
                }
                out.push(e);
                j += 1;
            },
            Position::Same => {
                proof {
                    lemma_settled_both(a, ha, b, hb, i as int, j as int, before);
                }
                if hashed && !(da[i] == db[j]) {
                    let e = (pa[i].clone(), Difference::HashDifference);
                    proof {
                        assert(listing(out@.push(e)) == before.push(
                            (a[i as int], Difference::HashDifference),
                        ));
                    }
                    out.push(e);
                }
                i += 1;
                j += 1;
            },
        }
    }
    proof {
        lemma_settled_all(a, ha, b, hb, listing(out@));
    }
    out
}

} // verus!
