//! Bringing entries that come in any order into path order: a merge sort in
//! which, of two entries with one path, the later one stays.

use crate::diff::collected_entries;
use crate::diff::entry_map;
use crate::diff::lemma_entry_map_at;
use crate::diff::lemma_entry_map_insert;
use crate::order::compare;
use crate::order::increasing;
use crate::order::lemma_path_lt_transitive;
use crate::order::path_lt;
use crate::order::Position;
use crate::sorted::lemma_between;
use crate::sorted::texts;
use vstd::prelude::*;

verus! {

/// `s` is strictly decreasing in path order.
spec fn decreasing(s: Seq<Seq<char>>) -> bool {
    forall|i: int, j: int| 0 <= i < j < s.len() ==> path_lt(s[j], s[i])
}

/// What has been gathered, from the largest path down, once all but the
/// first `i` entries of the left run and the first `j` of the right one are
/// taken.
spec fn gathered(
    pa: Seq<Seq<char>>,
    da: Seq<Seq<char>>,
    pb: Seq<Seq<char>>,
    db: Seq<Seq<char>>,
    i: int,
    j: int,
    rp: Seq<Seq<char>>,
    rd: Seq<Seq<char>>,
) -> bool {
    let m = entry_map(pa, da).union_prefer_right(entry_map(pb, db));
    &&& 0 <= i <= pa.len()
    &&& 0 <= j <= pb.len()
    &&& rp.len() == rd.len()
    &&& decreasing(rp)
    &&& rp.len() > 0 && i > 0 ==> path_lt(pa[i - 1], rp.last())
    &&& rp.len() > 0 && j > 0 ==> path_lt(pb[j - 1], rp.last())
    &&& i < pa.len() && j > 0 ==> path_lt(pb[j - 1], pa[i])
    &&& j < pb.len() && i > 0 ==> path_lt(pa[i - 1], pb[j])
    &&& forall|k: int| 0 <= k < rp.len() ==> m.contains_pair(#[trigger] rp[k], rd[k])
    &&& forall|x: int| i <= x < pa.len() ==> rp.contains(#[trigger] pa[x])
    &&& forall|y: int| j <= y < pb.len() ==> rp.contains(#[trigger] pb[y])
}

/// A path below the last one is added to what has been gathered.
proof fn lemma_gathered_push(
    rp: Seq<Seq<char>>,
    rd: Seq<Seq<char>>,
    m: Map<Seq<char>, Seq<char>>,
    path: Seq<char>,
    digest: Seq<char>,
)
    requires
        rp.len() == rd.len(),
        decreasing(rp),
        rp.len() > 0 ==> path_lt(path, rp.last()),
        forall|k: int| 0 <= k < rp.len() ==> m.contains_pair(#[trigger] rp[k], rd[k]),
        m.contains_pair(path, digest),
    ensures
        decreasing(rp.push(path)),
        forall|k: int|
            0 <= k < rp.push(path).len() ==> m.contains_pair(
                #[trigger] rp.push(path)[k],
                rd.push(digest)[k],
            ),
        forall|p: Seq<char>| rp.contains(p) ==> rp.push(path).contains(p),
        rp.push(path).contains(path),
        rp.push(path).last() == path,
{
    let t = rp.push(path);
    assert forall|a: int, b: int| 0 <= a < b < t.len() implies path_lt(t[b], t[a]) by {
        if b == rp.len() && a < rp.len() - 1 {
            lemma_path_lt_transitive(path, rp.last(), rp[a]);
        }
    }
    assert forall|k: int| 0 <= k < t.len() implies m.contains_pair(
        #[trigger] t[k],
        rd.push(digest)[k],
    ) by {
        if k < rp.len() {
            assert(t[k] == rp[k]);
        }
    }
    assert forall|p: Seq<char>| rp.contains(p) implies t.contains(p) by {
        let k = choose|k: int| 0 <= k < rp.len() && rp[k] == p;
        assert(t[k] == p);
    }
    assert(t[rp.len() as int] == path);
}

/// The last entry of the left run is the greatest that is left: it is taken.
proof fn lemma_gathered_left(
    pa: Seq<Seq<char>>,
    da: Seq<Seq<char>>,
    pb: Seq<Seq<char>>,
    db: Seq<Seq<char>>,
    i: int,
    j: int,
    rp: Seq<Seq<char>>,
    rd: Seq<Seq<char>>,
)
    requires
        increasing(pa),
        increasing(pb),
        pa.len() == da.len(),
        gathered(pa, da, pb, db, i, j, rp, rd),
        i > 0,
        j > 0 ==> path_lt(pb[j - 1], pa[i - 1]),
    ensures
        gathered(pa, da, pb, db, i - 1, j, rp.push(pa[i - 1]), rd.push(da[i - 1])),
{
    let m = entry_map(pa, da).union_prefer_right(entry_map(pb, db));
    lemma_between(pb, pa[i - 1], j);
    lemma_entry_map_at(pa, da, i - 1);
    lemma_gathered_push(rp, rd, m, pa[i - 1], da[i - 1]);
    if j < pb.len() && i - 1 > 0 {
        lemma_path_lt_transitive(pa[i - 2], pa[i - 1], pb[j]);
    }
}

/// The last entry of the right run is the greatest that is left: it is
/// taken.
proof fn lemma_gathered_right(
    pa: Seq<Seq<char>>,
    da: Seq<Seq<char>>,
    pb: Seq<Seq<char>>,
    db: Seq<Seq<char>>,
    i: int,
    j: int,
    rp: Seq<Seq<char>>,
    rd: Seq<Seq<char>>,
)
    requires
        increasing(pa),
        increasing(pb),
        pb.len() == db.len(),
        gathered(pa, da, pb, db, i, j, rp, rd),
        j > 0,
        i > 0 ==> path_lt(pa[i - 1], pb[j - 1]),
    ensures
        gathered(pa, da, pb, db, i, j - 1, rp.push(pb[j - 1]), rd.push(db[j - 1])),
{
    let m = entry_map(pa, da).union_prefer_right(entry_map(pb, db));
    lemma_entry_map_at(pb, db, j - 1);
    lemma_gathered_push(rp, rd, m, pb[j - 1], db[j - 1]);
    if i < pa.len() && j - 1 > 0 {
        lemma_path_lt_transitive(pb[j - 2], pb[j - 1], pa[i]);
    }
}

/// Both runs end in one path: the entry of the right run is taken, that of
/// the left one is dropped.
proof fn lemma_gathered_both(
    pa: Seq<Seq<char>>,
    da: Seq<Seq<char>>,
    pb: Seq<Seq<char>>,
    db: Seq<Seq<char>>,
    i: int,
    j: int,
    rp: Seq<Seq<char>>,
    rd: Seq<Seq<char>>,
)
    requires
        increasing(pa),
        increasing(pb),
        pb.len() == db.len(),
        gathered(pa, da, pb, db, i, j, rp, rd),
        i > 0,
        j > 0,
        pa[i - 1] == pb[j - 1],
    ensures
        gathered(pa, da, pb, db, i - 1, j - 1, rp.push(pb[j - 1]), rd.push(db[j - 1])),
{
    let m = entry_map(pa, da).union_prefer_right(entry_map(pb, db));
    lemma_entry_map_at(pb, db, j - 1);
    lemma_gathered_push(rp, rd, m, pb[j - 1], db[j - 1]);
}

/// When both runs are taken, what has been gathered is their union, from
/// the largest path down; turned round it is in path order.
proof fn lemma_gathered_all(
    pa: Seq<Seq<char>>,
    da: Seq<Seq<char>>,
    pb: Seq<Seq<char>>,
    db: Seq<Seq<char>>,
    rp: Seq<Seq<char>>,
    rd: Seq<Seq<char>>,
    p: Seq<Seq<char>>,
    d: Seq<Seq<char>>,
)
    requires
        gathered(pa, da, pb, db, 0, 0, rp, rd),
        p.len() == rp.len(),
        d.len() == rd.len(),
        forall|k: int| 0 <= k < p.len() ==> #[trigger] p[k] == rp[rp.len() - 1 - k],
        forall|k: int| 0 <= k < d.len() ==> #[trigger] d[k] == rd[rd.len() - 1 - k],
    ensures
        increasing(p),
        entry_map(p, d) == entry_map(pa, da).union_prefer_right(entry_map(pb, db)),
{
    let m = entry_map(pa, da).union_prefer_right(entry_map(pb, db));
    let n = rp.len() as int;
    assert forall|a: int, b: int| 0 <= a < b < p.len() implies path_lt(p[a], p[b]) by {
        assert(path_lt(rp[n - 1 - a], rp[n - 1 - b]));
    }
    assert forall|q: Seq<char>| entry_map(p, d).contains_key(q) <==> m.contains_key(q) by {
        if p.contains(q) {
            let k = choose|k: int| 0 <= k < p.len() && p[k] == q;
            assert(m.contains_pair(rp[n - 1 - k], rd[n - 1 - k]));
        }
        if m.contains_key(q) {
            if pb.contains(q) {
                let y = choose|y: int| 0 <= y < pb.len() && pb[y] == q;
                assert(rp.contains(pb[y]));
            } else {
                let x = choose|x: int| 0 <= x < pa.len() && pa[x] == q;
                assert(rp.contains(pa[x]));
            }
            let k = choose|k: int| 0 <= k < rp.len() && rp[k] == q;
            assert(p[n - 1 - k] == q);
        }
    }
    assert forall|q: Seq<char>| entry_map(p, d).contains_key(q) implies entry_map(p, d)[q]
        == m[q] by {
        let k = choose|k: int| 0 <= k < p.len() && p[k] == q;
        lemma_entry_map_at(p, d, k);
        assert(m.contains_pair(rp[n - 1 - k], rd[n - 1 - k]));
    }
    assert(entry_map(p, d) =~= m);
}

/// The vector turned round.
fn reversed(v: Vec<String>) -> (r: Vec<String>)
    ensures
        r.len() == v.len(),
        forall|k: int| 0 <= k < r.len() ==> #[trigger] texts(r@)[k] == texts(v@)[v.len() - 1 - k],
{
    let ghost all = texts(v@);
    let mut v = v;
    let mut r: Vec<String> = Vec::new();
    while v.len() > 0
        invariant
            v.len() + r.len() == all.len(),
            texts(v@) == all.take(v.len() as int),
            forall|k: int| 0 <= k < r.len() ==> #[trigger] texts(r@)[k] == all[all.len() - 1 - k],
        decreases v.len(),
    {
        let ghost before = v@;
        let ghost done = r@;
        let item = v.pop().unwrap();
        assert(item@ == texts(before)[before.len() - 1]);
        r.push(item);
        assert(texts(v@) =~= all.take(v.len() as int));
        assert forall|k: int| 0 <= k < r.len() implies #[trigger] texts(r@)[k] == all[all.len()
            - 1 - k] by {
            if k < done.len() {
                assert(texts(r@)[k] == texts(done)[k]);
            }
        }
    }
    r
}

/// The union of two runs in path order. Where both hold a path, the digest
/// of the right run stays.
pub(crate) fn union(pa: Vec<String>, da: Vec<String>, pb: Vec<String>, db: Vec<String>) -> (r: (
    Vec<String>,
    Vec<String>,
))
    requires
        increasing(texts(pa@)),
        increasing(texts(pb@)),
        pa.len() == da.len(),
        pb.len() == db.len(),
    ensures
        increasing(texts(r.0@)),
        r.0.len() == r.1.len(),
        entry_map(texts(r.0@), texts(r.1@)) == entry_map(
            texts(pa@),
            texts(da@),
        ).union_prefer_right(entry_map(texts(pb@), texts(db@))),
{
    let ghost a = texts(pa@);
    let ghost ha = texts(da@);
    let ghost b = texts(pb@);
    let ghost hb = texts(db@);
    let mut pa = pa;
    let mut da = da;
    let mut pb = pb;
    let mut db = db;
    let mut rp: Vec<String> = Vec::new();
    let mut rd: Vec<String> = Vec::new();
    while pa.len() > 0 || pb.len() > 0
        invariant
            increasing(a),
            increasing(b),
            a.len() == ha.len(),
            b.len() == hb.len(),
            pa.len() == da.len(),
            pb.len() == db.len(),
            texts(pa@) == a.take(pa.len() as int),
            texts(da@) == ha.take(pa.len() as int),
            texts(pb@) == b.take(pb.len() as int),
            texts(db@) == hb.take(pb.len() as int),
            gathered(a, ha, b, hb, pa.len() as int, pb.len() as int, texts(rp@), texts(rd@)),
        decreases pa.len() + pb.len(),
    {
        let ghost i = pa.len() as int;
        let ghost j = pb.len() as int;
        let ghost gp = texts(rp@);
        let ghost gd = texts(rd@);
        let position = if pa.len() == 0 {
            Position::Before
        } else if pb.len() == 0 {
            Position::After
        } else {
            assert(texts(pa@)[i - 1] == a[i - 1]);
            assert(texts(pb@)[j - 1] == b[j - 1]);
            compare(pa[pa.len() - 1].as_str(), pb[pb.len() - 1].as_str())
        };
        let take_left = !matches!(position, Position::Before);
        let take_right = !matches!(position, Position::After);
        let left = if take_left {
            assert(texts(pa@)[i - 1] == a[i - 1]);
            assert(texts(da@)[i - 1] == ha[i - 1]);
            let path = pa.pop().unwrap();
            let digest = da.pop().unwrap();
            assert(texts(pa@) =~= a.take(i - 1));
            assert(texts(da@) =~= ha.take(i - 1));
            Some((path, digest))
        } else {
            None
        };
        let right = if take_right {
            assert(texts(pb@)[j - 1] == b[j - 1]);
            assert(texts(db@)[j - 1] == hb[j - 1]);
            let path = pb.pop().unwrap();
            let digest = db.pop().unwrap();
            assert(texts(pb@) =~= b.take(j - 1));
            assert(texts(db@) =~= hb.take(j - 1));
            Some((path, digest))
        } else {
            None
        };
        match right {
            Some((path, digest)) => {
                proof {
                    if take_left {
                        lemma_gathered_both(a, ha, b, hb, i, j, gp, gd);
                    } else {
                        lemma_gathered_right(a, ha, b, hb, i, j, gp, gd);
                    }
                    assert(texts(rp@.push(path)) =~= gp.push(b[j - 1]));
                    assert(texts(rd@.push(digest)) =~= gd.push(hb[j - 1]));
                }
                rp.push(path);
                rd.push(digest);
            },
            None => {
                match left {
                    Some((path, digest)) => {
                        proof {
                            lemma_gathered_left(a, ha, b, hb, i, j, gp, gd);
                            assert(texts(rp@.push(path)) =~= gp.push(a[i - 1]));
                            assert(texts(rd@.push(digest)) =~= gd.push(ha[i - 1]));
                        }
                        rp.push(path);
                        rd.push(digest);
                    },
                    None => {},
                }
            },
        }
    }
    let ghost gp = texts(rp@);
    let ghost gd = texts(rd@);
    let p = reversed(rp);
    let d = reversed(rd);
    proof {
        lemma_gathered_all(a, ha, b, hb, gp, gd, texts(p@), texts(d@));
    }
    (p, d)
}

/// Entries that follow one another count like their halves, the second half
/// over the first.
pub proof fn lemma_collected_concat(a: Seq<(String, String)>, b: Seq<(String, String)>)
    ensures
        collected_entries(a + b) == collected_entries(a).union_prefer_right(collected_entries(b)),
    decreases b.len(),
{
    if b.len() == 0 {
        assert(a + b == a);
        assert(collected_entries(a).union_prefer_right(collected_entries(b)) =~= collected_entries(
            a,
        ));
    } else {
        lemma_collected_concat(a, b.drop_last());
        assert((a + b).drop_last() == a + b.drop_last());
        assert((a + b).last() == b.last());
        assert(collected_entries(a + b) =~= collected_entries(a).union_prefer_right(
            collected_entries(b),
        ));
    }
}

/// Brings pairs of path and digest into path order. Of two pairs with one
/// path the later one stays.
pub(crate) fn sort_entries(items: Vec<(String, String)>) -> (r: (Vec<String>, Vec<String>))
    ensures
        increasing(texts(r.0@)),
        r.0.len() == r.1.len(),
        entry_map(texts(r.0@), texts(r.1@)) == collected_entries(items@),
    decreases items.len(),
{
    let ghost all = items@;
    let mut items = items;
    if items.len() <= 1 {
        let mut paths: Vec<String> = Vec::new();
        let mut digests: Vec<String> = Vec::new();
        match items.pop() {
            Some((path, digest)) => {
                paths.push(path);
                digests.push(digest);
                proof {
                    let none = Seq::<Seq<char>>::empty();
                    assert(all.last() == (path, digest));
                    assert(all.drop_last() =~= Seq::<(String, String)>::empty());
                    assert(collected_entries(Seq::<(String, String)>::empty()) == Map::<
                        Seq<char>,
                        Seq<char>,
                    >::empty());
                    assert(collected_entries(all) == Map::<Seq<char>, Seq<char>>::empty().insert(
                        path@,
                        digest@,
                    ));
                    assert(entry_map(none, none) =~= Map::<Seq<char>, Seq<char>>::empty());
                    lemma_entry_map_insert(none, none, 0, path@, digest@);
                    assert(texts(paths@) =~= none.insert(0, path@));
                    assert(texts(digests@) =~= none.insert(0, digest@));
                }
            },
            None => {
                assert(entry_map(texts(paths@), texts(digests@)) =~= collected_entries(all));
            },
        }
        (paths, digests)
    } else {
        let mid = items.len() / 2;
        let right = items.split_off(mid);
        proof {
            assert(all == items@ + right@);
            lemma_collected_concat(items@, right@);
        }
        let (pa, da) = sort_entries(items);
        let (pb, db) = sort_entries(right);
        union(pa, da, pb, db)
    }
}

/// The paths of pairs of path and digest.
spec fn pair_paths(items: Seq<(String, String)>) -> Seq<Seq<char>> {
    Seq::new(items.len(), |i: int| items[i].0@)
}

/// The paths of collected pairs are the paths of the pairs.
proof fn lemma_collected_dom(items: Seq<(String, String)>)
    ensures
        collected_entries(items).dom() == pair_paths(items).to_set(),
    decreases items.len(),
{
    if items.len() == 0 {
        assert(collected_entries(items).dom() =~= pair_paths(items).to_set());
    } else {
        lemma_collected_dom(items.drop_last());
        let head = pair_paths(items.drop_last());
        let last = items.last().0@;
        assert(pair_paths(items) =~= head.push(last));
        assert forall|p: Seq<char>| head.push(last).to_set().contains(p) <==> head.to_set().insert(
            last,
        ).contains(p) by {
            if head.push(last).to_set().contains(p) {
                let k = choose|k: int| 0 <= k < head.push(last).len() && head.push(last)[k] == p;
                if k < head.len() {
                    assert(head[k] == p);
                }
            }
            if head.to_set().contains(p) {
                let k = choose|k: int| 0 <= k < head.len() && head[k] == p;
                assert(head.push(last)[k] == p);
            }
            if p == last {
                assert(head.push(last)[head.len() as int] == p);
            }
        }
        assert(collected_entries(items).dom() =~= pair_paths(items).to_set());
    }
}

/// Brings paths into path order; a path that occurs twice stays once.
pub(crate) fn sort_paths(items: Vec<String>) -> (r: Vec<String>)
    ensures
        increasing(texts(r@)),
        texts(r@).to_set() == texts(items@).to_set(),
{
    let ghost all = items@;
    let mut pairs: Vec<(String, String)> = Vec::new();
    assert(pair_paths(pairs@) =~= texts(all.take(0)));
    for item in it: items
        invariant
            it.seq() == all,
            pair_paths(pairs@) == texts(all.take(it.index() as int)),
    {
        let ghost k = it.index() as int;
        let ghost path = item@;
        let pair = (item, String::new());
        assert(all.take(k + 1) == all.take(k).push(all[k]));
        assert(texts(all.take(k).push(all[k])) =~= texts(all.take(k)).push(path));
        assert(pair_paths(pairs@.push(pair)) =~= pair_paths(pairs@).push(path));
        pairs.push(pair);
    }
    assert(all.take(all.len() as int) == all);
    let ghost gathered = pairs@;
    let (paths, digests) = sort_entries(pairs);
    proof {
        lemma_collected_dom(gathered);
        assert(entry_map(texts(paths@), texts(digests@)).dom() =~= texts(paths@).to_set());
    }
    paths
}

} // verus!
