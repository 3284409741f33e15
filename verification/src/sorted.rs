//! Vectors of paths kept strictly increasing in path order.

use crate::order::compare;
use crate::order::increasing;
use crate::order::lemma_path_lt_transitive;
use crate::order::lemma_path_lt_trichotomy;
use crate::order::path_lt;
use crate::order::Position;
use vstd::prelude::*;

verus! {

/// The paths that a vector of strings holds, as character sequences.
pub open spec fn texts(v: Seq<String>) -> Seq<Seq<char>> {
    v.map_values(|s: String| s@)
}

/// In an increasing sequence no path occurs twice.
pub proof fn lemma_increasing_distinct(s: Seq<Seq<char>>)
    requires
        increasing(s),
    ensures
        forall|i: int, j: int| 0 <= i < s.len() && 0 <= j < s.len() && s[i] == s[j] ==> i == j,
{
    assert forall|i: int, j: int| 0 <= i < s.len() && 0 <= j < s.len() && s[i] == s[j] implies i
        == j by {
        lemma_path_lt_trichotomy(s[i], s[j]);
    }
}

/// A path that falls between two neighbours of an increasing sequence is
/// none of its members.
pub proof fn lemma_between(s: Seq<Seq<char>>, x: Seq<char>, j: int)
    requires
        increasing(s),
        0 <= j <= s.len(),
        j > 0 ==> path_lt(s[j - 1], x),
        j < s.len() ==> path_lt(x, s[j]),
    ensures
        !s.contains(x),
{
    if s.contains(x) {
        let y = choose|y: int| 0 <= y < s.len() && s[y] == x;
        if y < j {
            if y < j - 1 {
                lemma_path_lt_transitive(s[y], s[j - 1], x);
            }
        } else {
            if y > j {
                lemma_path_lt_transitive(x, s[j], s[y]);
            }
        }
        lemma_path_lt_trichotomy(s[y], x);
    }
}

/// Looks `key` up in an increasing vector. `Ok` holds the index at which it
/// stands, `Err` the index at which it would have to be inserted.
pub(crate) fn search(v: &Vec<String>, key: &str) -> (r: Result<usize, usize>)
    requires
        increasing(texts(v@)),
    ensures
        match r {
            Ok(i) => i < v.len() && v[i as int]@ == key@,
            Err(i) => {
                &&& i <= v.len()
                &&& forall|k: int| 0 <= k < i ==> path_lt(#[trigger] texts(v@)[k], key@)
                &&& forall|k: int| i <= k < v.len() ==> path_lt(key@, #[trigger] texts(v@)[k])
            },
        },
{
    let mut lo: usize = 0;
    let mut hi: usize = v.len();
    while lo < hi
        invariant
            lo <= hi <= v.len(),
            increasing(texts(v@)),
            forall|k: int| 0 <= k < lo ==> path_lt(#[trigger] texts(v@)[k], key@),
            forall|k: int| hi <= k < v.len() ==> path_lt(key@, #[trigger] texts(v@)[k]),
        decreases hi - lo,
    {
        let mid = lo + (hi - lo) / 2;
        let ghost m = texts(v@)[mid as int];
        match compare(v[mid].as_str(), key) {
            Position::Same => {
                return Ok(mid);
            },
            Position::Before => {
                assert forall|k: int| 0 <= k < mid + 1 implies path_lt(
                    #[trigger] texts(v@)[k],
                    key@,
                ) by {
                    if k < mid {
                        lemma_path_lt_transitive(texts(v@)[k], m, key@);
                    }
                }
                lo = mid + 1;
            },
            Position::After => {
                assert forall|k: int| mid <= k < v.len() implies path_lt(
                    key@,
                    #[trigger] texts(v@)[k],
                ) by {
                    if k > mid {
                        lemma_path_lt_transitive(key@, m, texts(v@)[k]);
                    }
                }
                hi = mid;
            },
        }
    }
    Err(lo)
}

/// Inserting `key` at the index that `search` gave keeps the vector
/// increasing and adds `key` to what it holds.
pub proof fn lemma_insert_at(s: Seq<Seq<char>>, i: int, key: Seq<char>)
    requires
        increasing(s),
        0 <= i <= s.len(),
        forall|k: int| 0 <= k < i ==> path_lt(#[trigger] s[k], key),
        forall|k: int| i <= k < s.len() ==> path_lt(key, #[trigger] s[k]),
    ensures
        increasing(s.insert(i, key)),
        s.insert(i, key).to_set() == s.to_set().insert(key),
{
    let t = s.insert(i, key);
    assert forall|a: int, b: int| 0 <= a < b < t.len() implies path_lt(t[a], t[b]) by {
        let x = if a < i { a } else { a - 1 };
        let y = if b < i { b } else { b - 1 };
        if a != i && b != i {
            assert(t[a] == s[x] && t[b] == s[y]);
        } else if a == i {
            assert(t[b] == s[y]);
        } else {
            assert(t[a] == s[x]);
        }
    }
    assert forall|p: Seq<char>| t.to_set().contains(p) <==> s.to_set().insert(key).contains(
        p,
    ) by {
        if t.to_set().contains(p) {
            let a = choose|a: int| 0 <= a < t.len() && t[a] == p;
            if a < i {
                assert(s[a] == p);
            } else if a > i {
                assert(s[a - 1] == p);
            }
        }
        if s.to_set().contains(p) {
            let a = choose|a: int| 0 <= a < s.len() && s[a] == p;
            if a < i {
                assert(t[a] == p);
            } else {
                assert(t[a + 1] == p);
            }
        }
        if p == key {
            assert(t[i] == p);
        }
    }
    assert(t.to_set() =~= s.to_set().insert(key));
}

} // verus!
