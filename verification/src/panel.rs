//! What the dockable panels have in common.
use vstd::prelude::*;

verus! {

/// Where a panel can be docked.
#[derive(Clone, Copy, Debug, PartialEq, Eq, Structural)]
pub enum DockPosition {
    Left,
    Bottom,
    Right,
}

/// The panels of the vault are docked at the sides.
pub open spec fn at_side(position: DockPosition) -> bool {
    position == DockPosition::Left || position == DockPosition::Right
}

/// What a project reports about its worktrees.
#[derive(Clone, Copy, Debug, PartialEq, Eq, Structural)]
pub enum ProjectEvent {
    WorktreeAdded,
    WorktreeRemoved,
    WorktreeUpdatedEntries,
    Other,
}

impl ProjectEvent {
    /// Whether the vault may hold other notes than before.
    pub fn changes_notes(&self) -> (b: bool)
        ensures
            b == (*self != ProjectEvent::Other),
    {
        match self {
            ProjectEvent::WorktreeAdded => true,
            ProjectEvent::WorktreeRemoved => true,
            ProjectEvent::WorktreeUpdatedEntries => true,
            ProjectEvent::Other => false,
        }
    }
}

impl DockPosition {
    /// Whether a panel of the vault can be docked here.
    pub fn is_side(&self) -> (b: bool)
        ensures
            b == at_side(*self),
    {
        match self {
            DockPosition::Left => true,
            DockPosition::Right => true,
            DockPosition::Bottom => false,
        }
    }
}

// ---------------------------------------------------------------------------
// Laws
// ---------------------------------------------------------------------------

/// Left and right are sides, the bottom is none.
pub proof fn two_sides()
    ensures
        at_side(DockPosition::Left),
        at_side(DockPosition::Right),
        !at_side(DockPosition::Bottom),
{
}

} // verus!
