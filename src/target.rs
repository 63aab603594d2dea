//! What to do with an output target that may already exist.
use vstd::prelude::*;

verus! {

/// What the caller asked for when the target already exists.
#[derive(Clone, Copy, Debug, PartialEq, Eq, Structural)]
pub enum Action {
    /// Create the target; fail if it exists.
    New,
    /// Add to or update the existing target.
    Add,
    /// Replace the existing target.
    Replace,
}

/// The step to take on the target before writing.
#[derive(Clone, Copy, Debug, PartialEq, Eq, Structural)]
pub enum TargetStep {
    /// Nothing is there: create it.
    Create,
    /// Write into what is there.
    Merge,
    /// Remove what is there, then create it.
    Clear,
    /// Stop: the target exists.
    Refuse,
}

pub open spec fn directory_step_spec(action: Action, exists: bool) -> TargetStep {
    if !exists {
        TargetStep::Create
    } else {
        match action {
            Action::New => TargetStep::Refuse,
            Action::Add => TargetStep::Merge,
            Action::Replace => TargetStep::Clear,
        }
    }
}

pub open spec fn file_step_spec(action: Action, exists: bool) -> TargetStep {
    if !exists {
        TargetStep::Create
    } else {
        match action {
            Action::New => TargetStep::Refuse,
            _ => TargetStep::Clear,
        }
    }
}

/// The step for an output directory of disassembly.
pub fn directory_step(action: Action, exists: bool) -> (r: TargetStep)
    ensures
        r == directory_step_spec(action, exists),
{
    if !exists {
        TargetStep::Create
    } else {
        match action {
            Action::New => TargetStep::Refuse,
            Action::Add => TargetStep::Merge,
            Action::Replace => TargetStep::Clear,
        }
    }
}

/// The step for an output file of assembly: an existing file is overwritten
/// unless the action is `New`.
pub fn file_step(action: Action, exists: bool) -> (r: TargetStep)
    ensures
        r == file_step_spec(action, exists),
{
    if !exists {
        TargetStep::Create
    } else {
        match action {
            Action::New => TargetStep::Refuse,
            _ => TargetStep::Clear,
        }
    }
}

} // verus!
