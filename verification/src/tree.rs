//! What a walk yields on a given directory tree: every entry of the tree
//! once, a directory before what it holds and all of that before the
//! directory's next sibling.
//!
//! The tree and the file system that answers the walker exist in
//! specifications only; the law at the end of this file is stated over them.

use crate::iter_dir::Action;
use crate::iter_dir::Event;
use crate::iter_dir::step;
use crate::iter_dir::Walk;
use vstd::prelude::*;

verus! {

/// An entry of a directory tree: a file, or a directory with its entries in
/// the order in which its listing gives them.
pub enum Node<P> {
    File(P),
    Dir(P, Seq<Node<P>>),
}

/// The path of an entry.
pub open spec fn path_of<P>(node: Node<P>) -> P {
    match node {
        Node::File(path) => path,
        Node::Dir(path, _) => path,
    }
}

/// The entries that an entry holds: those of a directory, none of a file.
pub open spec fn children<P>(node: Node<P>) -> Seq<Node<P>> {
    match node {
        Node::File(_) => Seq::empty(),
        Node::Dir(_, kids) => kids,
    }
}

/// The paths of all entries of the given trees in pre-order: each entry,
/// then what it holds, then its next sibling.
pub open spec fn preorder<P>(nodes: Seq<Node<P>>) -> Seq<P>
    decreases nodes,
{
    if nodes.len() == 0 {
        Seq::empty()
    } else {
        let below = match nodes[0] {
            Node::File(_) => Seq::empty(),
            Node::Dir(_, kids) => preorder(kids),
        };
        seq![path_of(nodes[0])] + below + preorder(nodes.drop_first())
    }
}

/// The number of entries of the given trees.
pub open spec fn count<P>(nodes: Seq<Node<P>>) -> nat
    decreases nodes,
{
    if nodes.len() == 0 {
        0
    } else {
        let below = match nodes[0] {
            Node::File(_) => 0,
            Node::Dir(_, kids) => count(kids),
        };
        1 + below + count(nodes.drop_first())
    }
}

/// The file system as the walker meets it: the entries that each open
/// listing has yet to give, outermost listing first, and the entries of the
/// directory that was read last, which is the one that the walker may ask
/// to open.
pub struct World<P> {
    pub cursors: Seq<Seq<Node<P>>>,
    pub pending: Seq<Node<P>>,
}

/// What the file system does when the walker's caller carries out an action,
/// and what the caller reports back.
pub open spec fn respond<P, E>(world: World<P>, action: Action<P, E>) -> (World<P>, Event<P, E>) {
    match action {
        Action::Open(_) => (
            World { cursors: world.cursors.push(world.pending), pending: Seq::empty() },
            Event::Opened,
        ),
        Action::Read => {
            if world.cursors.len() > 0 && world.cursors.last().len() > 0 {
                let entry = world.cursors.last()[0];
                let rest = world.cursors.last().drop_first();
                (
                    World {
                        cursors: world.cursors.drop_last().push(rest),
                        pending: children(entry),
                    },
                    Event::Entry { path: path_of(entry), is_dir: entry is Dir },
                )
            } else {
                (
                    World {
                        cursors: if world.cursors.len() > 0 {
                            world.cursors.drop_last()
                        } else {
                            world.cursors
                        },
                        pending: world.pending,
                    },
                    Event::Exhausted,
                )
            }
        },
        _ => (world, Event::Pull),
    }
}

/// How far an event is from the end of its pull.
pub open spec fn weight<P, E>(event: Event<P, E>) -> nat {
    match event {
        Event::Pull => 4,
        Event::Opened => 3,
        _ => 0,
    }
}

/// One pull, from the event that begins it: the walker and the file system
/// take turns until the walker yields an entry, finishes or aborts.
pub open spec fn run<P, E>(w: Walk<P>, world: World<P>, event: Event<P, E>) -> (
    Walk<P>,
    World<P>,
    Action<P, E>,
)
    decreases 2 * w.stack.len() + weight(event),
{
    let (w1, action) = step(w, event);
    match action {
        Action::Open(_) | Action::Read => {
            let (world1, answer) = respond(world, action);
            run(w1, world1, answer)
        },
        _ => (w1, world, action),
    }
}

/// The outcomes of `n` pulls, one after the other.
pub open spec fn drain<P, E>(w: Walk<P>, world: World<P>, n: nat) -> Seq<Action<P, E>>
    decreases n,
{
    if n == 0 {
        Seq::empty()
    } else {
        let (w1, world1, outcome) = run::<P, E>(w, world, Event::Pull);
        seq![outcome] + drain(w1, world1, (n - 1) as nat)
    }
}

/// The paths that the open listings have yet to give, innermost listing
/// first.
pub open spec fn agenda_of<P>(cursors: Seq<Seq<Node<P>>>) -> Seq<P>
    decreases cursors.len(),
{
    if cursors.len() == 0 {
        Seq::empty()
    } else {
        preorder(cursors.last()) + agenda_of(cursors.drop_last())
    }
}

/// The paths that the walk has yet to yield, in the order in which they are
/// due.
pub open spec fn agenda<P>(w: Walk<P>, world: World<P>) -> Seq<P> {
    let waiting = if w.next is Some {
        preorder(world.pending)
    } else {
        Seq::empty()
    };
    waiting + agenda_of(world.cursors)
}

/// A pull went as it should: it yielded the path that was due and left the
/// rest due, or nothing was due and it finished.
pub open spec fn pulled<P, E>(due: Seq<P>, after: (Walk<P>, World<P>, Action<P, E>)) -> bool {
    let (w, world, outcome) = after;
    &&& w.stack.len() == world.cursors.len()
    &&& if due.len() == 0 {
        outcome is Finish && agenda(w, world).len() == 0
    } else {
        outcome == Action::<P, E>::Yield(due[0]) && agenda(w, world) == due.drop_first()
    }
}

proof fn lemma_read<P, E>(w: Walk<P>, world: World<P>)
    requires
        w.next is None,
        w.stack.len() == world.cursors.len(),
        w.stack.len() > 0,
    ensures
        pulled(
            agenda(w, world),
            run(
                w,
                respond::<P, E>(world, Action::Read).0,
                respond::<P, E>(world, Action::Read).1,
            ),
        ),
    decreases w.stack.len(),
{
    let due = agenda(w, world);
    let (world1, answer) = respond::<P, E>(world, Action::Read);
    let top = world.cursors.last();
    let outer = world.cursors.drop_last();
    assert(due == preorder(top) + agenda_of(outer));
    if top.len() > 0 {
        let entry = top[0];
        let (w1, action) = step(w, answer);
        assert(action == Action::<P, E>::Yield(path_of(entry)));
        assert(run(w, world1, answer) == (w1, world1, action));
        assert(world1.cursors.last() == top.drop_first());
        assert(world1.cursors.drop_last() == outer);
        assert(agenda_of(world1.cursors) == preorder(top.drop_first()) + agenda_of(outer));
        let below = match entry {
            Node::File(_) => Seq::<P>::empty(),
            Node::Dir(_, kids) => preorder(kids),
        };
        assert(preorder(top) == seq![path_of(entry)] + below + preorder(top.drop_first()));
        assert(agenda(w1, world1) == below + agenda_of(world1.cursors)) by {
            match entry {
                Node::File(_) => {},
                Node::Dir(_, kids) => {
                    assert(world1.pending == kids);
                },
            }
        }
        assert(due[0] == path_of(entry));
        assert(due.drop_first() =~= below + preorder(top.drop_first()) + agenda_of(outer));
        assert(agenda(w1, world1) =~= due.drop_first());
    } else {
        assert(preorder(top) == Seq::<P>::empty());
        assert(due =~= agenda_of(outer));
        let (w1, action) = step(w, answer);
        assert(world1.cursors == outer);
        assert(w1.stack.len() == outer.len());
        assert(w1.next is None);
        assert(agenda(w1, world1) =~= due);
        if w1.stack.len() > 0 {
            assert(action is Read);
            lemma_read::<P, E>(w1, world1);
            assert(run(w, world1, answer) == run(
                w1,
                respond(world1, action).0,
                respond(world1, action).1,
            ));
        } else {
            assert(action is Finish);
            assert(run(w, world1, answer) == (w1, world1, action));
            assert(agenda_of(outer) == Seq::<P>::empty());
        }
    }
}

/// One pull yields the path that is due next, and finishes where none is.
pub proof fn lemma_pull<P, E>(w: Walk<P>, world: World<P>)
    requires
        w.stack.len() == world.cursors.len(),
    ensures
        pulled(agenda(w, world), run::<P, E>(w, world, Event::Pull)),
{
    let due = agenda(w, world);
    let (w1, action) = step::<P, E>(w, Event::Pull);
    match w.next {
        Some(dir) => {
            let (world1, answer) = respond(world, action);
            assert(answer is Opened);
            let (w2, action2) = step(w1, answer);
            assert(w2.next is None);
            assert(action2 is Read);
            assert(world1.cursors.last() == world.pending);
            assert(world1.cursors.drop_last() == world.cursors);
            assert(agenda(w2, world1) =~= due);
            lemma_read::<P, E>(w2, world1);
            assert(run(w1, world1, answer) == run(
                w2,
                respond(world1, action2).0,
                respond(world1, action2).1,
            ));
        },
        None => {
            assert(due =~= agenda_of(world.cursors));
            if w.stack.len() > 0 {
                lemma_read::<P, E>(w, world);
            } else {
                assert(agenda_of(world.cursors) == Seq::<P>::empty());
            }
        },
    }
}

/// As many pulls as paths are due, and one more, yield those paths in their
/// order and then finish.
pub proof fn lemma_drain<P, E>(w: Walk<P>, world: World<P>)
    requires
        w.stack.len() == world.cursors.len(),
    ensures
        drain::<P, E>(w, world, agenda(w, world).len() + 1) == agenda(w, world).map_values(
            |path: P| Action::<P, E>::Yield(path),
        ).push(Action::Finish),
    decreases agenda(w, world).len(),
{
    let due = agenda(w, world);
    let f = |path: P| Action::<P, E>::Yield(path);
    lemma_pull::<P, E>(w, world);
    let (w1, world1, outcome) = run::<P, E>(w, world, Event::Pull);
    if due.len() == 0 {
        assert(drain::<P, E>(w1, world1, 0) == Seq::<Action<P, E>>::empty());
        assert(drain::<P, E>(w, world, 1) =~= due.map_values(f).push(Action::Finish));
    } else {
        lemma_drain::<P, E>(w1, world1);
        assert(agenda(w1, world1) == due.drop_first());
        assert(seq![outcome] + due.drop_first().map_values(f).push(Action::Finish)
            =~= due.map_values(f).push(Action::Finish));
    }
}

/// As many paths are in the pre-order of a tree as the tree has entries.
pub proof fn lemma_preorder_len<P>(nodes: Seq<Node<P>>)
    ensures
        preorder(nodes).len() == count(nodes),
    decreases nodes,
{
    if nodes.len() > 0 {
        match nodes[0] {
            Node::File(_) => {},
            Node::Dir(_, kids) => {
                lemma_preorder_len(kids);
            },
        }
        lemma_preorder_len(nodes.drop_first());
    }
}

/// The walk visits every entry exactly once. Begun at a root that holds the
/// trees `entries`, it yields as many paths as the trees have entries: the
/// path of each entry, in pre-order. The pull after the last of them
/// finishes the walk.
pub proof fn lemma_walk_visits_each_entry_once<P, E>(root: P, entries: Seq<Node<P>>)
    ensures
        drain::<P, E>(
            Walk { stack: Seq::empty(), next: Some(root) },
            World { cursors: Seq::empty(), pending: entries },
            count(entries) + 1,
        ) == preorder(entries).map_values(|path: P| Action::<P, E>::Yield(path)).push(Action::Finish),
{
    let w = Walk { stack: Seq::empty(), next: Some(root) };
    let world = World { cursors: Seq::<Seq<Node<P>>>::empty(), pending: entries };
    assert(agenda(w, world) =~= preorder(entries));
    lemma_preorder_len(entries);
    lemma_drain::<P, E>(w, world);
}

} // verus!
