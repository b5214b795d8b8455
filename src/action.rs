use vstd::prelude::*;

verus! {

/// The two views of the interactive session.
#[derive(PartialEq, Eq, Clone, Copy, Debug)]
pub enum TabId {
    Main,
    Script,
}

/// One recorded filing decision, or a directory that has to exist first.
///
/// Paths are held as text.
#[derive(PartialEq, Eq, Clone, Debug)]
pub enum Action {
    Skip(String),
    Move(String, String),
    Rename(String),
    MkDir(String),
    Delete(String),
}

impl Action {
    /// How many images this action decides: one for skip, move and delete,
    /// none for rename and mkdir.
    pub open spec fn step(&self) -> nat {
        match self {
            Action::Skip(_) | Action::Move(_, _) | Action::Delete(_) => 1,
            Action::Rename(_) | Action::MkDir(_) => 0,
        }
    }

    /// Whether an undo may take this action off the log: all but mkdir.
    pub open spec fn poppable(&self) -> bool {
        !(self is MkDir)
    }

    pub fn is_poppable(&self) -> (r: bool)
        ensures
            r == self.poppable(),
    {
        !matches!(self, Action::MkDir(_))
    }

    pub fn queue_step(&self) -> (r: usize)
        ensures
            r as nat == self.step(),
            r <= 1,
    {
        match self {
            Action::Skip(_) | Action::Move(_, _) | Action::Delete(_) => 1,
            Action::Rename(_) | Action::MkDir(_) => 0,
        }
    }
}

/// The number of images that the actions of `s` decide together.
pub open spec fn steps(s: Seq<Action>) -> nat
    decreases s.len(),
{
    if s.len() == 0 {
        0
    } else {
        steps(s.drop_last()) + s.last().step()
    }
}

} // verus!
