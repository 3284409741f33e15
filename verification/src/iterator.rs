//! Walks that yield normalized paths, with or without digests.

use crate::hash::dir_digest;
use crate::hash::dir_hash;
use crate::iter_dir::Action;
use crate::iter_dir::action_view;
use crate::iter_dir::Event;
use crate::iter_dir::event_view;
use crate::iter_dir::IterDir;
use crate::iter_dir::step;
use crate::iter_dir::Walk;
use crate::path::is_descendant;
use crate::path::normalize_path;
use crate::path::normalized;
use vstd::prelude::*;

verus! {

/// One step of a walk that yields normalized paths: as `step`, with the path
/// of each entry made relative to `root`.
pub open spec fn path_step<E>(
    w: Walk<Seq<char>>,
    event: Event<Seq<char>, E>,
    root: Seq<char>,
    sep: char,
) -> (Walk<Seq<char>>, Action<Seq<char>, E>) {
    let (w1, action) = step(w, event);
    match event {
        Event::Entry { path, is_dir } => (w1, Action::Yield(normalized(path, root, sep, is_dir))),
        _ => (w1, action),
    }
}

/// A walk over the tree below a root that yields normalized paths.
pub struct PathIterator {
    root: String,
    sep: char,
    it: IterDir,
}

impl PathIterator {
    /// The root of the walk.
    pub closed spec fn root(&self) -> Seq<char> {
        self.root@
    }

    /// The platform's path separator.
    pub closed spec fn separator(&self) -> char {
        self.sep
    }

    /// The state of the walk.
    pub closed spec fn walk(&self) -> Walk<Seq<char>> {
        self.it@
    }

    /// A walk below `root` that has not begun.
    pub fn new(root: String, sep: char) -> (r: PathIterator)
        ensures
            r.root() == root@,
            r.separator() == sep,
            r.walk() == (Walk { stack: Seq::<Seq<char>>::empty(), next: Some(root@) }),
    {
        let it = IterDir::new(root.clone());
        PathIterator { root, sep, it }
    }

    /// Takes in what has happened and says what to do next. The path of an
    /// entry has to lie below the root.
    pub fn advance<E>(&mut self, event: Event<String, E>) -> (action: Action<String, E>)
        requires
            event matches Event::Entry { path, .. } ==> is_descendant(
                path@,
                old(self).root(),
                old(self).separator(),
            ),
        ensures
            final(self).root() == old(self).root(),
            final(self).separator() == old(self).separator(),
            (final(self).walk(), action_view(action)) == path_step(
                old(self).walk(),
                event_view(event),
                old(self).root(),
                old(self).separator(),
            ),
    {
        match event {
            Event::Entry { path, is_dir } => {
                let plain = normalize_path(path.as_str(), self.root.as_str(), self.sep, is_dir);
                let _ = self.it.advance::<E>(Event::Entry { path, is_dir });
                Action::Yield(plain)
            },
            _ => self.it.advance(event),
        }
    }
}

/// What has happened since a hashed walk last said what to do.
#[derive(Debug, PartialEq, Eq)]
pub enum HashedEvent<P, E> {
    /// An event of the walk itself.
    Walk(Event<P, E>),
    /// The digest of the file that was to be hashed.
    Hashed(P),
    /// The file that was to be hashed could not be read; this is the error.
    HashFailed(E),
}

/// What the caller of a hashed walk has to do next.
#[derive(Debug, PartialEq, Eq)]
pub enum HashedAction<P, E> {
    /// Open the listing of this directory, then report `Opened`.
    Open(P),
    /// Read the next entry of the innermost listing.
    Read,
    /// Hash the file at this path; report `Hashed` or `HashFailed`.
    Hash(P),
    /// Hand this normalized path and this digest out as the next entry.
    Yield(P, P),
    /// The walk is complete.
    Finish,
    /// The walk has failed: close every listing and hand out this error,
    /// the one that was reported.
    Abort(E),
    /// A file could not be hashed: hand out this error, the one that was
    /// reported. The walk itself stands as it was.
    Fail(E),
}

/// The state of a hashed walk: the walk, and the normalized path of the file
/// whose digest is awaited.
pub struct HashedWalk<P> {
    pub walk: Walk<P>,
    pub hashing: Option<P>,
}

/// An action of the walk as an action of the hashed walk. A yield does not
/// pass: the hashed walk yields pairs.
pub open spec fn lifted<P, E>(action: Action<P, E>) -> HashedAction<P, E> {
    match action {
        Action::Open(dir) => HashedAction::Open(dir),
        Action::Read => HashedAction::Read,
        Action::Yield(_) => HashedAction::Read,
        Action::Finish => HashedAction::Finish,
        Action::Abort(error) => HashedAction::Abort(error),
    }
}

/// One step of a hashed walk. A directory is yielded at once with the digest
/// that stands for directories; a file is sent to be hashed and yielded when
/// its digest comes back.
pub open spec fn hashed_step<E>(
    state: HashedWalk<Seq<char>>,
    event: HashedEvent<Seq<char>, E>,
    root: Seq<char>,
    sep: char,
) -> (HashedWalk<Seq<char>>, HashedAction<Seq<char>, E>) {
    match event {
        HashedEvent::Walk(Event::Entry { path, is_dir }) => {
            let w1 = step::<Seq<char>, E>(state.walk, Event::Entry { path, is_dir }).0;
            let plain = normalized(path, root, sep, is_dir);
            if is_dir {
                (
                    HashedWalk { walk: w1, hashing: state.hashing },
                    HashedAction::Yield(plain, dir_digest()),
                )
            } else {
                (HashedWalk { walk: w1, hashing: Some(plain) }, HashedAction::Hash(path))
            }
        },
        HashedEvent::Walk(Event::Failed(error)) => (
            HashedWalk { walk: step(state.walk, Event::Failed(error)).0, hashing: None },
            HashedAction::Abort(error),
        ),
        HashedEvent::Walk(other) => {
            let (w1, action) = step(state.walk, other);
            (HashedWalk { walk: w1, hashing: state.hashing }, lifted(action))
        },
        HashedEvent::Hashed(digest) => match state.hashing {
            Some(plain) => (
                HashedWalk { walk: state.walk, hashing: None },
                HashedAction::Yield(plain, digest),
            ),
            None => {
                let (w1, action) = step::<Seq<char>, E>(state.walk, Event::Pull);
                (HashedWalk { walk: w1, hashing: None }, lifted(action))
            },
        },
        HashedEvent::HashFailed(error) => (
            HashedWalk { walk: state.walk, hashing: None },
            HashedAction::Fail(error),
        ),
    }
}

/// An event of a hashed walk with its texts as plain values.
pub open spec fn hashed_event_view<E>(event: HashedEvent<String, E>) -> HashedEvent<
    Seq<char>,
    E,
> {
    match event {
        HashedEvent::Walk(e) => HashedEvent::Walk(event_view(e)),
        HashedEvent::Hashed(digest) => HashedEvent::Hashed(digest@),
        HashedEvent::HashFailed(error) => HashedEvent::HashFailed(error),
    }
}

/// An action of a hashed walk with its texts as plain values.
pub open spec fn hashed_action_view<E>(action: HashedAction<String, E>) -> HashedAction<
    Seq<char>,
    E,
> {
    match action {
        HashedAction::Open(dir) => HashedAction::Open(dir@),
        HashedAction::Read => HashedAction::Read,
        HashedAction::Hash(path) => HashedAction::Hash(path@),
        HashedAction::Yield(path, digest) => HashedAction::Yield(path@, digest@),
        HashedAction::Finish => HashedAction::Finish,
        HashedAction::Abort(error) => HashedAction::Abort(error),
        HashedAction::Fail(error) => HashedAction::Fail(error),
    }
}

/// The normalized form of `path` below `base`, and with it the digest that
/// stands for directories where the path is one. A file's digest has to be
/// made of its content.
pub fn hash_and_normalize(path: &str, base: &str, sep: char, is_dir: bool) -> (r: (
    String,
    Option<String>,
))
    requires
        is_descendant(path@, base@, sep),
    ensures
        r.0@ == normalized(path@, base@, sep, is_dir),
        is_dir ==> (r.1 matches Some(digest) && digest@ == dir_digest()),
        !is_dir ==> r.1 is None,
{
    let plain = normalize_path(path, base, sep, is_dir);
    if is_dir {
        (plain, Some(dir_hash()))
    } else {
        (plain, None)
    }
}

fn lift<E>(action: Action<String, E>) -> (r: HashedAction<String, E>)
    ensures
        hashed_action_view(r) == lifted(action_view(action)),
{
    match action {
        Action::Open(dir) => HashedAction::Open(dir),
        Action::Read => HashedAction::Read,
        Action::Yield(_) => HashedAction::Read,
        Action::Finish => HashedAction::Finish,
        Action::Abort(error) => HashedAction::Abort(error),
    }
}

/// A walk over the tree below a root that yields normalized paths with
/// digests.
pub struct HashedPathIterator {
    root: String,
    sep: char,
    it: IterDir,
    hashing: Option<String>,
}

impl HashedPathIterator {
    /// The root of the walk.
    pub closed spec fn root(&self) -> Seq<char> {
        self.root@
    }

    /// The platform's path separator.
    pub closed spec fn separator(&self) -> char {
        self.sep
    }

    /// The state of the walk.
    pub closed spec fn state(&self) -> HashedWalk<Seq<char>> {
        HashedWalk {
            walk: self.it@,
            hashing: match self.hashing {
                Some(plain) => Some(plain@),
                None => None,
            },
        }
    }

    /// A walk below `root` that has not begun.
    pub fn new(root: String, sep: char) -> (r: HashedPathIterator)
        ensures
            r.root() == root@,
            r.separator() == sep,
            r.state() == (HashedWalk {
                walk: Walk { stack: Seq::<Seq<char>>::empty(), next: Some(root@) },
                hashing: None,
            }),
    {
        let it = IterDir::new(root.clone());
        HashedPathIterator { root, sep, it, hashing: None }
    }

    /// Takes in what has happened and says what to do next. The path of an
    /// entry has to lie below the root.
    pub fn advance<E>(&mut self, event: HashedEvent<String, E>) -> (action: HashedAction<
        String,
        E,
    >)
        requires
            event matches HashedEvent::Walk(Event::Entry { path, .. }) ==> is_descendant(
                path@,
                old(self).root(),
                old(self).separator(),
            ),
        ensures
            final(self).root() == old(self).root(),
            final(self).separator() == old(self).separator(),
            (final(self).state(), hashed_action_view(action)) == hashed_step(
                old(self).state(),
                hashed_event_view(event),
                old(self).root(),
                old(self).separator(),
            ),
    {
        match event {
            HashedEvent::Walk(Event::Entry { path, is_dir }) => {
                let (plain, digest) = hash_and_normalize(
                    path.as_str(),
                    self.root.as_str(),
                    self.sep,
                    is_dir,
                );
                let file = path.clone();
                let _ = self.it.advance::<E>(Event::Entry { path, is_dir });
                match digest {
                    Some(digest) => HashedAction::Yield(plain, digest),
                    None => {
                        self.hashing = Some(plain);
                        HashedAction::Hash(file)
                    },
                }
            },
            HashedEvent::Walk(Event::Failed(error)) => {
                self.hashing = None;
                lift(self.it.advance(Event::Failed(error)))
            },
            HashedEvent::Walk(other) => lift(self.it.advance(other)),
            HashedEvent::Hashed(digest) => {
                match self.hashing.take() {
                    Some(plain) => HashedAction::Yield(plain, digest),
                    None => lift(self.it.advance::<E>(Event::Pull)),
                }
            },
            HashedEvent::HashFailed(error) => {
                self.hashing = None;
                HashedAction::Fail(error)
            },
        }
    }
}

} // verus!
