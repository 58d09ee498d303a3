//! Going through a tree with a stack of open directories.
use vstd::prelude::*;

use crate::bytes::views;
use crate::paths::{join, joined};

verus! {

/// The directory an entry was found in.
#[derive(Clone, Copy, PartialEq, Eq, Debug, Structural)]
pub struct Spot {
    pub sticky: bool,
    pub owner: u32,
}

/// A directory being gone through.
pub struct Frame {
    /// Its name in its parent.
    pub name: Vec<u8>,
    /// Its path relative to the top of the tree.
    pub key: Vec<u8>,
    /// Its path as shown.
    pub rel: Vec<u8>,
    pub spot: Spot,
    /// The names still to be visited.
    pub todo: Vec<Vec<u8>>,
}

/// What a `Frame` holds.
#[verifier::ext_equal]
pub struct FrameView {
    pub name: Seq<u8>,
    pub key: Seq<u8>,
    pub rel: Seq<u8>,
    pub spot: Spot,
    pub todo: Seq<Seq<u8>>,
}

impl View for Frame {
    type V = FrameView;

    open spec fn view(&self) -> FrameView {
        FrameView {
            name: self.name@,
            key: self.key@,
            rel: self.rel@,
            spot: self.spot,
            todo: views(self.todo@),
        }
    }
}

/// What to do next in a tree.
pub enum Turn {
    /// Visit an entry of the innermost directory.
    Visit { name: Vec<u8>, key: Vec<u8>, rel: Vec<u8>, spot: Spot },
    /// The innermost directory is done with.
    Leave { name: Vec<u8>, rel: Vec<u8> },
    /// The whole tree is done with.
    Done,
}

/// What a `Turn` holds.
#[verifier::ext_equal]
pub enum TurnView {
    Visit { name: Seq<u8>, key: Seq<u8>, rel: Seq<u8>, spot: Spot },
    Leave { name: Seq<u8>, rel: Seq<u8> },
    Done,
}

impl View for Turn {
    type V = TurnView;

    open spec fn view(&self) -> TurnView {
        match self {
            Turn::Visit { name, key, rel, spot } => TurnView::Visit {
                name: name@,
                key: key@,
                rel: rel@,
                spot: *spot,
            },
            Turn::Leave { name, rel } => TurnView::Leave { name: name@, rel: rel@ },
            Turn::Done => TurnView::Done,
        }
    }
}

/// The directories that are open, the innermost last. Depth costs memory and
/// open files, not stack.
pub struct Tree {
    pub frames: Vec<Frame>,
}

/// What a list of frames holds.
pub open spec fn frame_views(v: Seq<Frame>) -> Seq<FrameView> {
    Seq::new(v.len(), |i: int| v[i]@)
}

/// The next turn: the last name of the innermost directory, or leaving it.
pub open spec fn turn_of(frames: Seq<FrameView>) -> TurnView {
    if frames.len() == 0 {
        TurnView::Done
    } else {
        let top = frames.last();
        if top.todo.len() == 0 {
            TurnView::Leave { name: top.name, rel: top.rel }
        } else {
            let n = top.todo.last();
            TurnView::Visit {
                name: n,
                key: joined(top.key, n),
                rel: joined(top.rel, n),
                spot: top.spot,
            }
        }
    }
}

/// The open directories after that turn.
pub open spec fn turned(frames: Seq<FrameView>) -> Seq<FrameView> {
    if frames.len() == 0 {
        frames
    } else {
        let top = frames.last();
        if top.todo.len() == 0 {
            frames.drop_last()
        } else {
            frames.drop_last().push(FrameView { todo: top.todo.drop_last(), ..top })
        }
    }
}

/// What is still to be done: a turn for each directory to leave and for each
/// name to visit.
pub open spec fn turns_left(frames: Seq<FrameView>) -> nat
    decreases frames.len(),
{
    if frames.len() == 0 {
        0
    } else {
        turns_left(frames.drop_last()) + 1 + frames.last().todo.len()
    }
}

/// Every turn but the last leaves less to be done, so that going through a tree
/// comes to an end.
pub proof fn turns_run_out(frames: Seq<FrameView>)
    ensures
        frames.len() > 0 ==> turns_left(turned(frames)) + 1 == turns_left(frames),
        turn_of(frames) == TurnView::Done <==> turns_left(frames) == 0,
{
    if frames.len() > 0 {
        let top = frames.last();
        if top.todo.len() > 0 {
            let next = FrameView { todo: top.todo.drop_last(), ..top };
            assert(frames.drop_last().push(next).drop_last() =~= frames.drop_last());
        }
    }
}

/// The open directories after `n` turns.
pub open spec fn turned_times(frames: Seq<FrameView>, n: nat) -> Seq<FrameView>
    decreases n,
{
    if n == 0 {
        frames
    } else {
        turned(turned_times(frames, (n - 1) as nat))
    }
}

proof fn names_come_off(base: Seq<FrameView>, top: FrameView, n: nat)
    requires
        n <= top.todo.len(),
    ensures
        turned_times(base.push(top), n) == base.push(
            FrameView { todo: top.todo.take(top.todo.len() - n), ..top },
        ),
    decreases n,
{
    let all = base.push(top);
    if n == 0 {
        assert(top.todo.take(top.todo.len() as int) =~= top.todo);
    } else {
        let m = (n - 1) as nat;
        names_come_off(base, top, m);
        let t = FrameView { todo: top.todo.take(top.todo.len() - m), ..top };
        let before = base.push(t);
        assert(before.drop_last() =~= base);
        assert(before.last() == t);
        assert(t.todo.drop_last() =~= top.todo.take(top.todo.len() - n));
    }
}

/// Every name in a directory that is gone into has its turn, each once, with its
/// path beneath the directory's; then the directory itself is left, and what was
/// open before it is as it was.
pub proof fn every_name_has_its_turn(base: Seq<FrameView>, top: FrameView, i: nat)
    requires
        i <= top.todo.len(),
    ensures
        ({
            let at = turned_times(base.push(top), i);
            if i < top.todo.len() {
                let n = top.todo[top.todo.len() - 1 - i];
                turn_of(at) == (TurnView::Visit {
                    name: n,
                    key: joined(top.key, n),
                    rel: joined(top.rel, n),
                    spot: top.spot,
                })
            } else {
                turn_of(at) == (TurnView::Leave { name: top.name, rel: top.rel }) && turned(at)
                    == base
            }
        }),
        turn_of(Seq::<FrameView>::empty()) == TurnView::Done,
{
    names_come_off(base, top, i);
    let left = top.todo.take(top.todo.len() - i);
    let t = FrameView { todo: left, ..top };
    assert(base.push(t).drop_last() =~= base);
    if i < top.todo.len() {
        assert(left.last() == top.todo[top.todo.len() - 1 - i]);
    }
}

impl View for Tree {
    type V = Seq<FrameView>;

    open spec fn view(&self) -> Seq<FrameView> {
        frame_views(self.frames@)
    }
}

impl Tree {
    /// No directory open.
    pub fn new() -> (t: Tree)
        ensures
            t@ == Seq::<FrameView>::empty(),
    {
        let t = Tree { frames: Vec::new() };
        assert(t@ =~= Seq::empty());
        t
    }

    /// Goes into a directory whose names are known.
    pub fn enter(&mut self, f: Frame)
        ensures
            final(self)@ == old(self)@.push(f@),
    {
        let ghost was = self@;
        self.frames.push(f);
        assert(self@ =~= was.push(f@));
    }

    /// Takes the next turn.
    pub fn next(&mut self) -> (t: Turn)
        ensures
            t@ == turn_of(old(self)@),
            final(self)@ == turned(old(self)@),
    {
        let ghost was = self@;
        match self.frames.pop() {
            None => {
                assert(self@ =~= was);
                Turn::Done
            },
            Some(f) => {
                let mut f = f;
                assert(self@ =~= was.drop_last());
                assert(f@ == was.last());
                let ghost todo = views(f.todo@);
                match f.todo.pop() {
                    None => {
                        assert(todo.len() == 0);
                        Turn::Leave { name: f.name, rel: f.rel }
                    },
                    Some(n) => {
                        assert(views(f.todo@) =~= todo.drop_last());
                        assert(n@ == todo.last());
                        let key = join(f.key.as_slice(), n.as_slice());
                        let rel = join(f.rel.as_slice(), n.as_slice());
                        let spot = f.spot;
                        assert(f@ =~= FrameView { todo: todo.drop_last(), ..was.last() });
                        let ghost rest = self@;
                        self.frames.push(f);
                        assert(self@ =~= rest.push(f@));
                        Turn::Visit { name: n, key, rel, spot }
                    },
                }
            },
        }
    }
}

} // verus!
