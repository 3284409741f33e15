//! Walking a directory tree, depth first, as a state machine.
//!
//! The walker holds no directory handle and reads nothing. Each call of
//! `advance` takes what has just happened and says what to do next; the
//! caller keeps one open listing per level, opens, reads and closes them as
//! asked, and pulls again after each entry.

use vstd::prelude::*;

verus! {

/// What has happened since the walker last said what to do.
#[derive(Debug, PartialEq, Eq)]
pub enum Event<P, E> {
    /// The caller wants the next entry.
    Pull,
    /// The directory that the walker asked for is open; its listing is now
    /// the innermost one.
    Opened,
    /// The innermost listing gave an entry.
    Entry { path: P, is_dir: bool },
    /// The innermost listing is at its end and has been closed.
    Exhausted,
    /// A directory could not be opened or read; this is the error.
    Failed(E),
}

/// What the caller has to do next.
#[derive(Debug, PartialEq, Eq)]
pub enum Action<P, E> {
    /// Open the listing of this directory, then report `Opened`.
    Open(P),
    /// Read the next entry of the innermost listing; report `Entry` or
    /// `Exhausted`.
    Read,
    /// Hand this path out as the next entry of the walk.
    Yield(P),
    /// The walk is complete: there is no further entry.
    Finish,
    /// The walk has failed: close every listing and hand out this error,
    /// the one that was reported.
    Abort(E),
}

/// The state of a walk: the directories whose listings are open, outermost
/// first, and the directory that is to be opened next.
pub struct Walk<P> {
    pub stack: Seq<P>,
    pub next: Option<P>,
}

/// Read on where a listing is open, finish where none is.
pub open spec fn read_or_finish<P, E>(w: Walk<P>) -> Action<P, E> {
    if w.stack.len() > 0 {
        Action::Read
    } else {
        Action::Finish
    }
}

/// One step of the walk. A pull opens the directory that is waiting, if one
/// is, and else reads on. An entry is handed out at once; if it is a
/// directory it waits to be opened by the next pull, so that what it holds
/// comes behind it and before the rest of its parent. A listing at its end
/// gives way to the one around it. A failure ends the walk: its error is
/// handed out, and nothing is open and nothing waits after it.
pub open spec fn step<P, E>(w: Walk<P>, event: Event<P, E>) -> (Walk<P>, Action<P, E>) {
    match event {
        Event::Pull => match w.next {
            Some(dir) => (w, Action::Open(dir)),
            None => (w, read_or_finish(w)),
        },
        Event::Opened => {
            let opened = match w.next {
                Some(dir) => Walk { stack: w.stack.push(dir), next: None },
                None => w,
            };
            (opened, read_or_finish(opened))
        },
        Event::Entry { path, is_dir } => (
            Walk {
                stack: w.stack,
                next: if is_dir {
                    Some(path)
                } else {
                    w.next
                },
            },
            Action::Yield(path),
        ),
        Event::Exhausted => {
            let closed = Walk {
                stack: if w.stack.len() > 0 {
                    w.stack.drop_last()
                } else {
                    w.stack
                },
                next: w.next,
            };
            (closed, read_or_finish(closed))
        },
        Event::Failed(error) => (Walk { stack: Seq::empty(), next: None }, Action::Abort(error)),
    }
}

/// A failure ends the walk: whatever the state, the error that was reported
/// is handed out, nothing is open and nothing waits after it, and every later
/// pull finishes.
pub proof fn lemma_failure_ends_walk<P, E>(w: Walk<P>, error: E)
    ensures
        step(w, Event::Failed(error)).1 == Action::<P, E>::Abort(error),
        step(w, Event::Failed(error)).0.stack.len() == 0,
        step(w, Event::Failed(error)).0.next is None,
        step(step(w, Event::Failed(error)).0, Event::<P, E>::Pull) == (
            step(w, Event::Failed(error)).0,
            Action::<P, E>::Finish,
        ),
{
}

/// An event with its path as a plain value.
pub open spec fn event_view<E>(event: Event<String, E>) -> Event<Seq<char>, E> {
    match event {
        Event::Pull => Event::Pull,
        Event::Opened => Event::Opened,
        Event::Entry { path, is_dir } => Event::Entry { path: path@, is_dir },
        Event::Exhausted => Event::Exhausted,
        Event::Failed(error) => Event::Failed(error),
    }
}

/// An action with its path as a plain value.
pub open spec fn action_view<E>(action: Action<String, E>) -> Action<Seq<char>, E> {
    match action {
        Action::Open(dir) => Action::Open(dir@),
        Action::Read => Action::Read,
        Action::Yield(path) => Action::Yield(path@),
        Action::Finish => Action::Finish,
        Action::Abort(error) => Action::Abort(error),
    }
}

/// A walk over the tree below a root directory.
pub struct IterDir {
    stack: Vec<String>,
    next: Option<String>,
}

impl View for IterDir {
    type V = Walk<Seq<char>>;

    closed spec fn view(&self) -> Walk<Seq<char>> {
        Walk {
            stack: self.stack@.map_values(|s: String| s@),
            next: match self.next {
                Some(dir) => Some(dir@),
                None => None,
            },
        }
    }
}

impl IterDir {
    /// A walk that has not begun: nothing is open, and the root waits to be
    /// opened.
    pub fn new(root: String) -> (r: IterDir)
        ensures
            r@ == (Walk { stack: Seq::<Seq<char>>::empty(), next: Some(root@) }),
    {
        let r = IterDir { stack: Vec::new(), next: Some(root) };
        assert(r.stack@.map_values(|s: String| s@) =~= Seq::<Seq<char>>::empty());
        r
    }

    /// The number of listings that are open: the depth of the walk.
    pub fn depth(&self) -> (n: usize)
        ensures
            n == self@.stack.len(),
    {
        self.stack.len()
    }

    /// Takes in what has happened and says what to do next.
    pub fn advance<E>(&mut self, event: Event<String, E>) -> (action: Action<String, E>)
        ensures
            (final(self)@, action_view(action)) == step(old(self)@, event_view(event)),
    {
        match event {
            Event::Pull => {
                match &self.next {
                    Some(dir) => Action::Open(dir.clone()),
                    None => self.read_or_finish(),
                }
            },
            Event::Opened => {
                match self.next.take() {
                    Some(dir) => {
                        assert(self.stack@.push(dir).map_values(|s: String| s@)
                            =~= self.stack@.map_values(|s: String| s@).push(dir@));
                        self.stack.push(dir);
                    },
                    None => {},
                }
                self.read_or_finish()
            },
            Event::Entry { path, is_dir } => {
                if is_dir {
                    self.next = Some(path.clone());
                }
                Action::Yield(path)
            },
            Event::Exhausted => {
                if self.stack.len() > 0 {
                    assert(self.stack@.drop_last().map_values(|s: String| s@)
                        =~= self.stack@.map_values(|s: String| s@).drop_last());
                    self.stack.pop();
                }
                self.read_or_finish()
            },
            Event::Failed(error) => {
                self.stack.clear();
                self.next = None;
                assert(self.stack@.map_values(|s: String| s@) =~= Seq::<Seq<char>>::empty());
                Action::Abort(error)
            },
        }
    }

    fn read_or_finish<E>(&self) -> (action: Action<String, E>)
        ensures
            action_view(action) == read_or_finish::<Seq<char>, E>(self@),
    {
        if self.stack.len() > 0 {
            Action::Read
        } else {
            Action::Finish
        }
    }
}

} // verus!
