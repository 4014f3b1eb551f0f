//! Library lifecycle events and what the sync layer does about each.
//!
//! The event bus itself (subscription, delivery) is the caller's; this
//! module fixes the one decision the sync layer makes per event: which
//! action to run against the peer-to-peer manager's view of the
//! libraries.

use vstd::prelude::*;

verus! {

/// A library lifecycle transition, carrying the library's id.
#[derive(Clone, Copy, PartialEq, Eq, Structural, Debug)]
pub enum LibraryManagerEvent {
    Load(u128),
    Edit(u128),
    InstancesModified(u128),
    Delete(u128),
}

/// What the sync layer runs in answer to an event.
#[derive(Clone, Copy, PartialEq, Eq, Structural, Debug)]
pub enum LibraryAction {
    Load(u128),
    Edit(u128),
    Delete(u128),
}

/// The action for each event.  A load and a change to a library's
/// instances both (re)load the library's networked state; an edit edits
/// it; a delete removes it.
pub fn library_event_action(event: &LibraryManagerEvent) -> (a: LibraryAction)
    ensures
        match *event {
            LibraryManagerEvent::Load(id) => a == LibraryAction::Load(id),
            LibraryManagerEvent::InstancesModified(id) => a == LibraryAction::Load(id),
            LibraryManagerEvent::Edit(id) => a == LibraryAction::Edit(id),
            LibraryManagerEvent::Delete(id) => a == LibraryAction::Delete(id),
        },
{
    match event {
        LibraryManagerEvent::Load(id) => LibraryAction::Load(*id),
        LibraryManagerEvent::InstancesModified(id) => LibraryAction::Load(*id),
        LibraryManagerEvent::Edit(id) => LibraryAction::Edit(*id),
        LibraryManagerEvent::Delete(id) => LibraryAction::Delete(*id),
    }
}

} // verus!
