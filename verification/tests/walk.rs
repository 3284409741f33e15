use pathit::diff::report;
use pathit::diff::HashedEntries;
use pathit::hash::hash_file;
use pathit::hash::FileHasher;
use pathit::hash::HashEvent;
use pathit::hash::HashStep;
use pathit::iter_dir::Action;
use pathit::iter_dir::Event;
use pathit::iter_dir::IterDir;
use pathit::iterator::hash_and_normalize;
use pathit::iterator::HashedAction;
use pathit::iterator::HashedEvent;
use pathit::iterator::HashedPathIterator;
use pathit::iterator::PathIterator;

#[derive(Clone)]
enum Node {
    File(String, Vec<u8>),
    Dir(String, Vec<Node>),
    Locked(String),
}

impl Node {
    fn path(&self) -> String {
        match self {
            Node::File(path, _) => path.clone(),
            Node::Dir(path, _) => path.clone(),
            Node::Locked(path) => path.clone(),
        }
    }

    fn is_dir(&self) -> bool {
        !matches!(self, Node::File(_, _))
    }
}

fn file(path: &str, content: &str) -> Node {
    Node::File(path.to_string(), content.as_bytes().to_vec())
}

fn dir(path: &str, children: Vec<Node>) -> Node {
    Node::Dir(path.to_string(), children)
}

fn locked(path: &str) -> Node {
    Node::Locked(path.to_string())
}

fn find<'a>(node: &'a Node, path: &str) -> Option<&'a Node> {
    if node.path() == path {
        return Some(node);
    }
    if let Node::Dir(_, children) = node {
        for child in children.iter() {
            if let Some(found) = find(child, path) {
                return Some(found);
            }
        }
    }
    None
}

fn open(tree: &Node, path: &str) -> Result<Vec<Node>, String> {
    match find(tree, path) {
        Some(Node::Dir(_, children)) => Ok(children.clone()),
        _ => Err(format!("cannot open {}", path)),
    }
}

fn digest_of(tree: &Node, path: &str) -> Result<String, String> {
    let content = match find(tree, path) {
        Some(Node::File(_, content)) => content.clone(),
        _ => return Err(format!("cannot read {}", path)),
    };
    let mut step: HashStep<String> =
        hash_file(FileHasher::new(), HashEvent::Start { is_dir: false });
    let mut chunks = content.chunks(3);
    loop {
        step = match step {
            HashStep::Read(hasher) => {
                hash_file(hasher, HashEvent::Chunk(chunks.next().unwrap_or(&[])))
            },
            HashStep::Done(digest) => return Ok(digest),
            HashStep::Failed(error) => return Err(error),
            HashStep::TooLong => return Err(format!("{} is too long", path)),
        };
    }
}

fn walk(tree: &Node) -> Vec<Result<String, String>> {
    let mut it = IterDir::new(tree.path());
    let mut listings: Vec<std::vec::IntoIter<Node>> = Vec::new();
    let mut out = Vec::new();
    loop {
        let mut event = Event::Pull;
        loop {
            match it.advance(event) {
                Action::Open(path) => match open(tree, &path) {
                    Ok(children) => {
                        listings.push(children.into_iter());
                        event = Event::Opened;
                    },
                    Err(e) => event = Event::Failed(e),
                },
                Action::Read => match listings.last_mut().unwrap().next() {
                    Some(node) => {
                        event = Event::Entry { path: node.path(), is_dir: node.is_dir() };
                    },
                    None => {
                        listings.pop();
                        event = Event::Exhausted;
                    },
                },
                Action::Yield(path) => {
                    assert_eq!(it.depth(), listings.len());
                    out.push(Ok(path));
                    break;
                },
                Action::Finish => {
                    assert_eq!(it.depth(), 0);
                    assert!(listings.is_empty());
                    return out;
                },
                Action::Abort(error) => {
                    listings.clear();
                    out.push(Err(error));
                    break;
                },
            }
        }
    }
}

fn walk_paths(tree: &Node) -> Vec<Result<String, String>> {
    let mut it = PathIterator::new(tree.path(), '/');
    let mut listings: Vec<std::vec::IntoIter<Node>> = Vec::new();
    let mut out = Vec::new();
    loop {
        let mut event = Event::Pull;
        loop {
            match it.advance(event) {
                Action::Open(path) => match open(tree, &path) {
                    Ok(children) => {
                        listings.push(children.into_iter());
                        event = Event::Opened;
                    },
                    Err(e) => event = Event::Failed(e),
                },
                Action::Read => match listings.last_mut().unwrap().next() {
                    Some(node) => {
                        event = Event::Entry { path: node.path(), is_dir: node.is_dir() };
                    },
                    None => {
                        listings.pop();
                        event = Event::Exhausted;
                    },
                },
                Action::Yield(path) => {
                    out.push(Ok(path));
                    break;
                },
                Action::Finish => return out,
                Action::Abort(error) => {
                    listings.clear();
                    out.push(Err(error));
                    break;
                },
            }
        }
    }
}

fn walk_hashed(tree: &Node) -> Vec<Result<(String, String), String>> {
    let mut it = HashedPathIterator::new(tree.path(), '/');
    let mut listings: Vec<std::vec::IntoIter<Node>> = Vec::new();
    let mut out = Vec::new();
    loop {
        let mut event = HashedEvent::Walk(Event::Pull);
        loop {
            match it.advance(event) {
                HashedAction::Open(path) => match open(tree, &path) {
                    Ok(children) => {
                        listings.push(children.into_iter());
                        event = HashedEvent::Walk(Event::Opened);
                    },
                    Err(e) => event = HashedEvent::Walk(Event::Failed(e)),
                },
                HashedAction::Read => match listings.last_mut().unwrap().next() {
                    Some(node) => {
                        event = HashedEvent::Walk(Event::Entry {
                            path: node.path(),
                            is_dir: node.is_dir(),
                        });
                    },
                    None => {
                        listings.pop();
                        event = HashedEvent::Walk(Event::Exhausted);
                    },
                },
                HashedAction::Hash(path) => match digest_of(tree, &path) {
                    Ok(digest) => event = HashedEvent::Hashed(digest),
                    Err(e) => event = HashedEvent::HashFailed(e),
                },
                HashedAction::Yield(path, digest) => {
                    out.push(Ok((path, digest)));
                    break;
                },
                HashedAction::Finish => return out,
                HashedAction::Abort(error) => {
                    listings.clear();
                    out.push(Err(error));
                    break;
                },
                HashedAction::Fail(error) => {
                    out.push(Err(error));
                    break;
                },
            }
        }
    }
}

fn sample() -> Node {
    dir(
        "/root",
        vec![
            file("/root/z.txt", "z"),
            dir(
                "/root/b",
                vec![
                    file("/root/b/c.txt", "2"),
                    dir("/root/b/d", vec![file("/root/b/d/e", "e")]),
                    dir("/root/b/empty", vec![]),
                    file("/root/b/f", "f"),
                ],
            ),
            file("/root/a.txt", "1"),
        ],
    )
}

fn oks(items: &[&str]) -> Vec<Result<String, String>> {
    items.iter().map(|s| Ok(s.to_string())).collect()
}

#[test]
fn walk_yields_every_entry_once_in_preorder() {
    assert_eq!(
        walk(&sample()),
        oks(&[
            "/root/z.txt",
            "/root/b",
            "/root/b/c.txt",
            "/root/b/d",
            "/root/b/d/e",
            "/root/b/empty",
            "/root/b/f",
            "/root/a.txt",
        ])
    );
}

#[test]
fn walk_yields_as_many_paths_as_there_are_entries() {
    let yielded = walk(&sample());
    assert_eq!(yielded.len(), 8);
    for (i, path) in yielded.iter().enumerate() {
        assert!(!yielded[..i].contains(path));
    }
}

#[test]
fn walk_of_an_empty_root_yields_nothing() {
    assert_eq!(walk(&dir("/root", vec![])), oks(&[]));
}

#[test]
fn walk_of_a_wide_directory_stays_at_depth_one() {
    let children: Vec<Node> = (0..100).map(|i| file(&format!("/root/{}", i), "")).collect();
    let yielded = walk(&dir("/root", children));
    assert_eq!(yielded.len(), 100);
    assert_eq!(yielded[0], Ok("/root/0".to_string()));
    assert_eq!(yielded[99], Ok("/root/99".to_string()));
}

#[test]
fn walk_of_a_deep_tree() {
    let mut node = file("/r/0/1/2/3/4/leaf", "");
    let mut path = "/r/0/1/2/3/4".to_string();
    for _ in 0..5 {
        node = dir(&path, vec![node]);
        path.truncate(path.len() - 2);
    }
    let tree = dir("/r", vec![node]);
    assert_eq!(
        walk(&tree),
        oks(&["/r/0", "/r/0/1", "/r/0/1/2", "/r/0/1/2/3", "/r/0/1/2/3/4", "/r/0/1/2/3/4/leaf"])
    );
}

#[test]
fn walk_aborts_at_a_directory_that_cannot_be_opened() {
    let tree = dir(
        "/root",
        vec![file("/root/a", ""), locked("/root/b"), file("/root/c", "")],
    );
    assert_eq!(
        walk(&tree),
        vec![
            Ok("/root/a".to_string()),
            Ok("/root/b".to_string()),
            Err("cannot open /root/b".to_string()),
        ]
    );
}

#[test]
fn walk_aborts_at_a_root_that_cannot_be_opened() {
    assert_eq!(walk(&locked("/root")), vec![Err("cannot open /root".to_string())]);
}

type Ev = Event<String, &'static str>;

type HashedEv = HashedEvent<String, &'static str>;

#[test]
fn iter_dir_step_by_step() {
    let mut it = IterDir::new("r".to_string());
    assert_eq!(it.depth(), 0);
    assert_eq!(it.advance(Ev::Pull), Action::Open("r".to_string()));
    assert_eq!(it.advance(Ev::Opened), Action::Read);
    assert_eq!(it.depth(), 1);
    assert_eq!(
        it.advance(Ev::Entry { path: "r/d".to_string(), is_dir: true }),
        Action::Yield("r/d".to_string())
    );
    assert_eq!(it.advance(Ev::Pull), Action::Open("r/d".to_string()));
    assert_eq!(it.advance(Ev::Opened), Action::Read);
    assert_eq!(it.depth(), 2);
    assert_eq!(
        it.advance(Ev::Entry { path: "r/d/f".to_string(), is_dir: false }),
        Action::Yield("r/d/f".to_string())
    );
    assert_eq!(it.advance(Ev::Pull), Action::Read);
    assert_eq!(it.advance(Ev::Exhausted), Action::Read);
    assert_eq!(it.depth(), 1);
    assert_eq!(it.advance(Ev::Exhausted), Action::Finish);
    assert_eq!(it.depth(), 0);
    assert_eq!(it.advance(Ev::Pull), Action::Finish);
}

#[test]
fn iter_dir_is_empty_after_a_failure() {
    let mut it = IterDir::new("r".to_string());
    assert_eq!(it.advance(Ev::Pull), Action::Open("r".to_string()));
    assert_eq!(it.advance(Ev::Opened), Action::Read);
    assert_eq!(
        it.advance(Ev::Entry { path: "r/d".to_string(), is_dir: true }),
        Action::Yield("r/d".to_string())
    );
    assert_eq!(it.advance(Ev::Pull), Action::Open("r/d".to_string()));
    assert_eq!(it.advance(Ev::Failed("denied")), Action::Abort("denied"));
    assert_eq!(it.depth(), 0);
    assert_eq!(it.advance(Ev::Pull), Action::Finish);
    assert_eq!(it.advance(Ev::Pull), Action::Finish);
}

#[test]
fn path_iterator_yields_normalized_paths() {
    assert_eq!(
        walk_paths(&sample()),
        oks(&["z.txt", "b/", "b/c.txt", "b/d/", "b/d/e", "b/empty/", "b/f", "a.txt"])
    );
}

#[test]
fn path_iterator_asks_for_the_directory_as_it_was_reported() {
    let mut it = PathIterator::new("/r".to_string(), '/');
    assert_eq!(it.advance(Ev::Pull), Action::Open("/r".to_string()));
    assert_eq!(it.advance(Ev::Opened), Action::Read);
    assert_eq!(
        it.advance(Ev::Entry { path: "/r/d".to_string(), is_dir: true }),
        Action::Yield("d/".to_string())
    );
    assert_eq!(it.advance(Ev::Pull), Action::Open("/r/d".to_string()));
}

#[test]
fn hash_and_normalize_gives_a_directory_its_digest() {
    assert_eq!(
        hash_and_normalize("/r/b", "/r", '/', true),
        ("b/".to_string(), Some("-".repeat(64)))
    );
    assert_eq!(hash_and_normalize("/r/b/c.txt", "/r", '/', false), ("b/c.txt".to_string(), None));
}

#[test]
fn hashed_path_iterator_yields_paths_with_digests() {
    let tree = dir(
        "/root",
        vec![file("/root/a.txt", "1"), dir("/root/b", vec![file("/root/b/c.txt", "2")])],
    );
    assert_eq!(
        walk_hashed(&tree),
        vec![
            Ok((
                "a.txt".to_string(),
                "6b86b273ff34fce19d6b804eff5a3f5747ada4eaa22f1d49c01e52ddb7875b4b".to_string()
            )),
            Ok(("b/".to_string(), "-".repeat(64))),
            Ok((
                "b/c.txt".to_string(),
                "d4735e3a265e16eee03f59718b9b5d03019c07d8b6c51f90da3a666eec13ab35".to_string()
            )),
        ]
    );
}

#[test]
fn hashed_path_iterator_hands_out_a_hash_failure_and_goes_on() {
    let mut it = HashedPathIterator::new("/r".to_string(), '/');
    assert_eq!(it.advance(HashedEv::Walk(Event::Pull)), HashedAction::Open("/r".to_string()));
    assert_eq!(it.advance(HashedEv::Walk(Event::Opened)), HashedAction::Read);
    assert_eq!(
        it.advance(HashedEv::Walk(Event::Entry { path: "/r/a".to_string(), is_dir: false })),
        HashedAction::Hash("/r/a".to_string())
    );
    assert_eq!(it.advance(HashedEv::HashFailed("unreadable")), HashedAction::Fail("unreadable"));
    assert_eq!(it.advance(HashedEv::Walk(Event::Pull)), HashedAction::Read);
    assert_eq!(
        it.advance(HashedEv::Walk(Event::Entry { path: "/r/b".to_string(), is_dir: false })),
        HashedAction::Hash("/r/b".to_string())
    );
    assert_eq!(
        it.advance(HashedEv::Hashed("digest".to_string())),
        HashedAction::Yield("b".to_string(), "digest".to_string())
    );
    assert_eq!(it.advance(HashedEv::Walk(Event::Pull)), HashedAction::Read);
    assert_eq!(it.advance(HashedEv::Walk(Event::Exhausted)), HashedAction::Finish);
}

#[test]
fn hashed_path_iterator_aborts_with_the_walk() {
    let tree = dir("/root", vec![file("/root/a", "1"), locked("/root/b")]);
    let yielded = walk_hashed(&tree);
    assert_eq!(yielded.len(), 3);
    assert!(yielded[0].is_ok());
    assert_eq!(yielded[1], Ok(("b/".to_string(), "-".repeat(64))));
    assert_eq!(yielded[2], Err("cannot open /root/b".to_string()));
}

#[test]
fn end_to_end() {
    let tree = dir(
        "/root",
        vec![dir("/root/b", vec![file("/root/b/c.txt", "2")]), file("/root/a.txt", "1")],
    );
    let walked = HashedEntries::try_collect(walk_hashed(&tree)).unwrap();
    let listing = format!("{}, a.txt\n", "0".repeat(64));
    let listed = HashedEntries::read(&listing).unwrap();
    assert_eq!(report(&(walked - listed)), vec!["x a.txt", "+ b/", "+ b/c.txt"]);
}

#[test]
fn end_to_end_without_changes() {
    let tree = sample();
    let walked = HashedEntries::try_collect(walk_hashed(&tree)).unwrap();
    let listed = HashedEntries::read(&walked.write()).unwrap();
    assert_eq!(report(&(walked - listed)), Vec::<String>::new());
}
