//! The undo/redo history: two stacks of commands, the undo stack bounded so
//! that the oldest entry falls off once the bound is passed.
use crate::command::Command;
use crate::scene::{BoardItem, Scene};
use vstd::prelude::*;

verus! {

/// How many commands the undo stack keeps.
pub const UNDO_STACK_LIMIT: usize = 100;

/// The mathematical state of an [`UndoStack`]: both stacks, top last.
pub struct HistoryView<C> {
    pub undo: Seq<C>,
    pub redo: Seq<C>,
}

/// The undo stack after `cmd` was pushed: the oldest entry falls off once
/// the stack is longer than [`UNDO_STACK_LIMIT`].
pub open spec fn pushed<C>(undo: Seq<C>, cmd: C) -> Seq<C> {
    let u = undo.push(cmd);
    if u.len() > UNDO_STACK_LIMIT {
        u.subrange(1, u.len() as int)
    } else {
        u
    }
}

impl<C> HistoryView<C> {
    /// Both stacks together stay within the bound: undo and redo only move
    /// commands between the stacks, and recording clears the redo stack.
    pub open spec fn wf(self) -> bool {
        self.undo.len() + self.redo.len() <= UNDO_STACK_LIMIT
    }

    /// The history after a new command was recorded: pushed on the undo
    /// stack, redo stack cleared.
    pub open spec fn after_record(self, cmd: C) -> HistoryView<C> {
        HistoryView { undo: pushed(self.undo, cmd), redo: Seq::empty() }
    }

    /// The history after an undo: the top of the undo stack moves to the
    /// redo stack; nothing changes when the undo stack is empty.
    pub open spec fn after_undo(self) -> HistoryView<C> {
        if self.undo.len() == 0 {
            self
        } else {
            HistoryView { undo: self.undo.drop_last(), redo: self.redo.push(self.undo.last()) }
        }
    }

    /// The history after a redo: the top of the redo stack moves back to the
    /// undo stack; nothing changes when the redo stack is empty.
    pub open spec fn after_redo(self) -> HistoryView<C> {
        if self.redo.len() == 0 {
            self
        } else {
            HistoryView { undo: self.undo.push(self.redo.last()), redo: self.redo.drop_last() }
        }
    }
}

/// The undo/redo history of the board.
pub struct UndoStack<T: BoardItem> {
    undo: Vec<Command<T>>,
    redo: Vec<Command<T>>,
}

impl<T: BoardItem> View for UndoStack<T> {
    type V = HistoryView<Command<T>>;

    closed spec fn view(&self) -> HistoryView<Command<T>> {
        HistoryView { undo: self.undo@, redo: self.redo@ }
    }
}

impl<T: BoardItem + Clone> UndoStack<T> {
    /// An empty history.
    pub fn new() -> (s: Self)
        ensures
            s@.undo == Seq::<Command<T>>::empty(),
            s@.redo == Seq::<Command<T>>::empty(),
    {
        UndoStack { undo: Vec::new(), redo: Vec::new() }
    }

    /// The most recent command on the undo stack.
    pub fn last_recorded(&self) -> (r: Option<&Command<T>>)
        ensures
            match r {
                Some(c) => self@.undo.len() > 0 && *c == self@.undo.last(),
                None => self@.undo.len() == 0,
            },
    {
        if self.undo.len() == 0 {
            None
        } else {
            Some(&self.undo[self.undo.len() - 1])
        }
    }

    /// Pushes a command on the undo stack, dropping the oldest one past the
    /// bound, and clears the redo stack.
    fn record(&mut self, cmd: Command<T>)
        requires
            old(self)@.wf(),
        ensures
            final(self)@ == old(self)@.after_record(cmd),
            final(self)@.wf(),
    {
        self.undo.push(cmd);
        if self.undo.len() > UNDO_STACK_LIMIT {
            self.undo.remove(0);
        }
        self.redo.clear();
        proof {
            let u = old(self)@.undo.push(cmd);
            if u.len() > UNDO_STACK_LIMIT {
                assert(u.remove(0) =~= u.subrange(1, u.len() as int));
            }
            assert(self@.redo =~= Seq::<Command<T>>::empty());
        }
    }

    /// Applies `cmd` to the board and records it.
    pub fn execute(&mut self, cmd: Command<T>, scene: &mut Scene<T>)
        requires
            old(self)@.wf(),
            old(scene).wf(),
        ensures
            final(self)@ == old(self)@.after_record(cmd),
            final(self)@.wf(),
            final(scene).wf(),
            cmd.applied(old(scene)@, final(scene)@),
    {
        cmd.apply(scene);
        self.record(cmd);
    }

    /// Records a command whose effect is already on the board.
    pub fn push_already_applied(&mut self, cmd: Command<T>)
        requires
            old(self)@.wf(),
        ensures
            final(self)@ == old(self)@.after_record(cmd),
            final(self)@.wf(),
    {
        self.record(cmd);
    }

    /// Takes back the most recent command and moves it to the redo stack.
    /// Returns whether there was one.
    pub fn undo(&mut self, scene: &mut Scene<T>) -> (done: bool)
        requires
            old(self)@.wf(),
            old(scene).wf(),
        ensures
            done == (old(self)@.undo.len() > 0),
            final(self)@ == old(self)@.after_undo(),
            final(self)@.wf(),
            final(scene).wf(),
            done ==> old(self)@.undo.last().undone(old(scene)@, final(scene)@),
            !done ==> final(scene)@ == old(scene)@,
    {
        match self.undo.pop() {
            Some(cmd) => {
                cmd.undo(scene);
                self.redo.push(cmd);
                true
            },
            None => false,
        }
    }

    /// Applies again the most recently undone command and moves it back to
    /// the undo stack. Returns whether there was one.
    pub fn redo(&mut self, scene: &mut Scene<T>) -> (done: bool)
        requires
            old(self)@.wf(),
            old(scene).wf(),
        ensures
            done == (old(self)@.redo.len() > 0),
            final(self)@ == old(self)@.after_redo(),
            final(self)@.wf(),
            final(scene).wf(),
            done ==> old(self)@.redo.last().applied(old(scene)@, final(scene)@),
            !done ==> final(scene)@ == old(scene)@,
    {
        match self.redo.pop() {
            Some(cmd) => {
                cmd.apply(scene);
                self.undo.push(cmd);
                true
            },
            None => false,
        }
    }
}

/// Undoing and then redoing gives back the history as it was.
pub proof fn lemma_undo_then_redo<C>(h: HistoryView<C>)
    requires
        h.undo.len() > 0,
    ensures
        h.after_undo().after_redo() == h,
{
    assert(h.after_undo().after_redo().undo =~= h.undo);
    assert(h.after_undo().after_redo().redo =~= h.redo);
}

/// Redoing and then undoing gives back the history as it was.
pub proof fn lemma_redo_then_undo<C>(h: HistoryView<C>)
    requires
        h.redo.len() > 0,
    ensures
        h.after_redo().after_undo() == h,
{
    assert(h.after_redo().after_undo().undo =~= h.undo);
    assert(h.after_redo().after_undo().redo =~= h.redo);
}

/// Recording a command always leaves nothing to redo, puts the command on
/// top of the undo stack, and keeps the undo stack within its bound.
pub proof fn lemma_record<C>(h: HistoryView<C>, cmd: C)
    requires
        h.wf(),
    ensures
        h.after_record(cmd).redo.len() == 0,
        h.after_record(cmd).undo.last() == cmd,
        h.after_record(cmd).wf(),
        h.after_record(cmd).undo.len() == if h.undo.len() < UNDO_STACK_LIMIT {
            h.undo.len() + 1
        } else {
            UNDO_STACK_LIMIT as nat
        },
{
}


/// The history after recording each of `cmds` in turn.
pub open spec fn after_records<C>(h: HistoryView<C>, cmds: Seq<C>) -> HistoryView<C>
    decreases cmds.len(),
{
    if cmds.len() == 0 {
        h
    } else {
        after_records(h, cmds.drop_last()).after_record(cmds.last())
    }
}

/// Recording commands one after another, starting from an empty history,
/// leaves exactly the last [`UNDO_STACK_LIMIT`] of them (all of them when
/// there are fewer) on the undo stack, oldest first, and nothing to redo.
pub proof fn lemma_records_keep_last<C>(cmds: Seq<C>)
    ensures
        after_records(HistoryView { undo: Seq::<C>::empty(), redo: Seq::<C>::empty() }, cmds).undo
            == cmds.subrange(
            if cmds.len() > UNDO_STACK_LIMIT {
                cmds.len() - UNDO_STACK_LIMIT
            } else {
                0
            },
            cmds.len() as int,
        ),
        after_records(HistoryView { undo: Seq::<C>::empty(), redo: Seq::<C>::empty() }, cmds).redo.len()
            == 0,
    decreases cmds.len(),
{
    let e = HistoryView { undo: Seq::<C>::empty(), redo: Seq::<C>::empty() };
    if cmds.len() == 0 {
        assert(cmds.subrange(0, 0) =~= Seq::<C>::empty());
    } else {
        let init = cmds.drop_last();
        lemma_records_keep_last(init);
        let n = cmds.len() as int;
        let lo_prev: int = if init.len() > UNDO_STACK_LIMIT {
            init.len() - UNDO_STACK_LIMIT
        } else {
            0
        };
        let prev = init.subrange(lo_prev, n - 1);
        assert(after_records(e, init).undo == prev);
        let u = prev.push(cmds.last());
        if u.len() > UNDO_STACK_LIMIT {
            assert(u.subrange(1, u.len() as int) =~= cmds.subrange(n - UNDO_STACK_LIMIT, n));
        } else {
            assert(u =~= cmds.subrange(0, n));
        }
    }
}

} // verus!
