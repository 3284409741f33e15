use pathit::diff::Difference;
use pathit::diff::Entries;
use pathit::diff::HashedEntries;
use std::collections::BTreeMap;
use std::collections::BTreeSet;

struct Numbers(u64);

impl Numbers {
    fn next(&mut self, below: u64) -> u64 {
        self.0 = self.0.wrapping_mul(6364136223846793005).wrapping_add(1442695040888963407);
        (self.0 >> 33) % below
    }
}

fn some_path(numbers: &mut Numbers) -> String {
    let names = ["a", "b", "src", "é", "x y", "日本", "z.txt", "A", "-", "a,b"];
    let depth = 1 + numbers.next(3);
    let mut path = String::new();
    for level in 0..depth {
        if level > 0 {
            path.push('/');
        }
        path.push_str(names[numbers.next(names.len() as u64) as usize]);
    }
    if numbers.next(4) == 0 {
        path.push('/');
    }
    path
}

fn some_paths(seed: u64, count: usize) -> Vec<String> {
    let mut numbers = Numbers(seed);
    (0..count).map(|_| some_path(&mut numbers)).collect()
}

fn some_pairs(seed: u64, count: usize) -> Vec<(String, String)> {
    let mut numbers = Numbers(seed);
    (0..count)
        .map(|_| {
            let path = some_path(&mut numbers);
            (path, numbers.next(3).to_string())
        })
        .collect()
}

fn set_diff(left: &BTreeSet<String>, right: &BTreeSet<String>) -> Vec<(String, Difference)> {
    let mut diffs = BTreeMap::new();
    for path in left.iter() {
        if !right.contains(path) {
            diffs.insert(path.clone(), Difference::New);
        }
    }
    for path in right.iter() {
        if !left.contains(path) {
            diffs.insert(path.clone(), Difference::Absence);
        }
    }
    diffs.into_iter().collect()
}

fn map_diff(
    left: &BTreeMap<String, String>,
    right: &BTreeMap<String, String>,
) -> Vec<(String, Difference)> {
    let mut diffs = BTreeMap::new();
    for (path, hash) in left.iter() {
        if let Some(diff_hash) = right.get(path) {
            if diff_hash != hash {
                diffs.insert(path.clone(), Difference::HashDifference);
            }
        } else {
            diffs.insert(path.clone(), Difference::New);
        }
    }
    for path in right.keys() {
        if !left.contains_key(path) {
            diffs.insert(path.clone(), Difference::Absence);
        }
    }
    diffs.into_iter().collect()
}

#[test]
fn entries_hold_what_an_ordered_set_holds() {
    for seed in 0..20u64 {
        let items = some_paths(seed, 300);
        let set: BTreeSet<String> = items.iter().cloned().collect();
        let entries = Entries::from_iter(items);
        assert_eq!(entries.to_vec(), set.into_iter().collect::<Vec<_>>());
    }
}

#[test]
fn entries_of_every_small_size() {
    for count in 0..40usize {
        let items = some_paths(count as u64, count);
        let set: BTreeSet<String> = items.iter().cloned().collect();
        let entries = Entries::from_iter(items);
        assert_eq!(entries.len(), set.len());
        assert_eq!(entries.to_vec(), set.into_iter().collect::<Vec<_>>());
    }
}

#[test]
fn hashed_entries_hold_what_an_ordered_map_holds() {
    for seed in 0..20u64 {
        let items = some_pairs(seed, 300);
        let mut map = BTreeMap::new();
        for (path, digest) in items.iter() {
            map.insert(path.clone(), digest.clone());
        }
        let entries = HashedEntries::from_iter(items);
        assert_eq!(entries.to_vec(), map.into_iter().collect::<Vec<_>>());
    }
}

#[test]
fn entries_contain_what_was_put_in() {
    let items = some_paths(7, 200);
    let entries = Entries::from_iter(items.clone());
    for path in items.iter() {
        assert!(entries.contains(path));
    }
    assert!(!entries.contains("no such path"));
    assert!(!entries.contains(""));
}

#[test]
fn hashed_entries_give_the_last_digest() {
    let items = some_pairs(11, 200);
    let mut map = BTreeMap::new();
    for (path, digest) in items.iter() {
        map.insert(path.clone(), digest.clone());
    }
    let entries = HashedEntries::from_iter(items);
    for (path, digest) in map.iter() {
        assert_eq!(entries.get(path), Some(digest));
    }
    assert_eq!(entries.get("no such path"), None);
}

#[test]
fn diff_is_what_two_ordered_sets_give() {
    for seed in 0..20u64 {
        let left = some_paths(seed, 120);
        let right = some_paths(seed + 100, 120);
        let expected = set_diff(
            &left.iter().cloned().collect(),
            &right.iter().cloned().collect(),
        );
        assert_eq!(Entries::from_iter(left) - Entries::from_iter(right), expected);
    }
}

#[test]
fn hashed_diff_is_what_two_ordered_maps_give() {
    for seed in 0..20u64 {
        let left = some_pairs(seed, 120);
        let right = some_pairs(seed + 100, 120);
        let expected = map_diff(
            &left.iter().cloned().collect(),
            &right.iter().cloned().collect(),
        );
        assert_eq!(HashedEntries::from_iter(left) - HashedEntries::from_iter(right), expected);
    }
}

#[test]
fn a_large_snapshot_is_built_and_compared() {
    let mut numbers = Numbers(1);
    let items: Vec<String> =
        (0..20000).map(|_| format!("dir{}/file{}", numbers.next(100), numbers.next(1000))).collect();
    let set: BTreeSet<String> = items.iter().cloned().collect();
    let entries = Entries::from_iter(items);
    assert_eq!(entries.len(), set.len());
    assert!((entries.clone() - entries).is_empty());
}
