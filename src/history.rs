//! Undo/redo history of player actions, bounded in length.
use vstd::prelude::*;

verus! {

/// How many actions the undo history keeps.
pub const HISTORY_CAPACITY: usize = 50;

/// The undo history after recording `action`: the oldest entry is dropped
/// when the history is already at capacity.
pub open spec fn pushed_actions(past: Seq<GameAction>, action: GameAction) -> Seq<GameAction> {
    (if past.len() >= HISTORY_CAPACITY {
        past.subrange(1, past.len() as int)
    } else {
        past
    }).push(action)
}

/// A reversible player action on one cell.
#[derive(Debug, Clone, Copy, PartialEq, Eq, Structural)]
pub enum GameAction {
    SetCell { row: usize, col: usize, old_value: Option<u8>, new_value: Option<u8> },
    ToggleCandidate { row: usize, col: usize, digit: u8 },
    ClearCandidates { row: usize, col: usize, old_mask: u16 },
    NewGame,
}

/// Actions that can be undone (`past`, most recent last) and redone
/// (`future`, the next one to redo last).
#[derive(Debug, Clone)]
pub struct ActionHistory {
    past: Vec<GameAction>,
    future: Vec<GameAction>,
}

impl ActionHistory {
    /// The actions that can be undone, oldest first.
    pub closed spec fn past_actions(&self) -> Seq<GameAction> {
        self.past@
    }

    /// The actions that can be redone, the next one last.
    pub closed spec fn future_actions(&self) -> Seq<GameAction> {
        self.future@
    }

    pub fn new() -> (r: Self)
        ensures
            r.past_actions() == Seq::<GameAction>::empty(),
            r.future_actions() == Seq::<GameAction>::empty(),
    {
        ActionHistory { past: Vec::new(), future: Vec::new() }
    }

    /// Records `action`, dropping the oldest one when the history is full, and
    /// forgets everything that could be redone.
    pub fn push(&mut self, action: GameAction)
        ensures
            final(self).past_actions() == pushed_actions(old(self).past_actions(), action),
            final(self).future_actions() == Seq::<GameAction>::empty(),
    {
        if self.past.len() >= HISTORY_CAPACITY {
            self.past.remove(0);
        }
        self.past.push(action);
        self.future.clear();
    }

    /// Takes the most recent action off the history and makes it redoable.
    pub fn undo(&mut self) -> (r: Option<GameAction>)
        ensures
            old(self).past_actions().len() == 0 ==> {
                &&& r is None
                &&& final(self).past_actions() == old(self).past_actions()
                &&& final(self).future_actions() == old(self).future_actions()
            },
            old(self).past_actions().len() > 0 ==> {
                &&& r == Some(old(self).past_actions().last())
                &&& final(self).past_actions() == old(self).past_actions().drop_last()
                &&& final(self).future_actions() == old(self).future_actions().push(
                    old(self).past_actions().last(),
                )
            },
    {
        let action = self.past.pop();
        if let Some(a) = action {
            self.future.push(a);
        }
        action
    }

    /// Takes the next redoable action and puts it back on the history.
    pub fn redo(&mut self) -> (r: Option<GameAction>)
        ensures
            old(self).future_actions().len() == 0 ==> {
                &&& r is None
                &&& final(self).past_actions() == old(self).past_actions()
                &&& final(self).future_actions() == old(self).future_actions()
            },
            old(self).future_actions().len() > 0 ==> {
                &&& r == Some(old(self).future_actions().last())
                &&& final(self).future_actions() == old(self).future_actions().drop_last()
                &&& final(self).past_actions() == old(self).past_actions().push(
                    old(self).future_actions().last(),
                )
            },
    {
        let action = self.future.pop();
        if let Some(a) = action {
            self.past.push(a);
        }
        action
    }
}

impl Default for ActionHistory {
    fn default() -> (r: Self)
        ensures
            r.past_actions() == Seq::<GameAction>::empty(),
            r.future_actions() == Seq::<GameAction>::empty(),
    {
        Self::new()
    }
}

} // verus!
