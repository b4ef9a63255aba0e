//! Events reported by the host program, one at a time.

use vstd::prelude::*;

verus! {

/// A protocol-relevant event of the monitored program.
#[derive(Debug, Clone, PartialEq, Eq, Hash)]
pub enum PetriEvent {
    ThreadSpawn { parent: u32, child: u32 },
    ThreadJoin { joiner: u32, joinee: u32 },
    Yield { tid: u32 },
    Block { tid: u32, reason: String },
    Wake { tid: u32 },
    LockAcquire { tid: u32, lock_id: u64 },
    LockRelease { tid: u32, lock_id: u64 },
    AtomicLoad { tid: u32, loc_id: u64, ordering: String },
    AtomicStore { tid: u32, loc_id: u64, ordering: String },
    UnsafeRead { tid: u32, region_id: u64, size: u64 },
    UnsafeWrite { tid: u32, region_id: u64, size: u64 },
}

/// The thread an event belongs to: the parent of a spawn, the joiner of a join.
pub open spec fn event_tid(e: PetriEvent) -> u32 {
    match e {
        PetriEvent::ThreadSpawn { parent, .. } => parent,
        PetriEvent::ThreadJoin { joiner, .. } => joiner,
        PetriEvent::Yield { tid } => tid,
        PetriEvent::Block { tid, .. } => tid,
        PetriEvent::Wake { tid } => tid,
        PetriEvent::LockAcquire { tid, .. } => tid,
        PetriEvent::LockRelease { tid, .. } => tid,
        PetriEvent::AtomicLoad { tid, .. } => tid,
        PetriEvent::AtomicStore { tid, .. } => tid,
        PetriEvent::UnsafeRead { tid, .. } => tid,
        PetriEvent::UnsafeWrite { tid, .. } => tid,
    }
}

/// The lock, location or region an event concerns, if any.
pub open spec fn event_object_id(e: PetriEvent) -> Option<u64> {
    match e {
        PetriEvent::LockAcquire { lock_id, .. } => Some(lock_id),
        PetriEvent::LockRelease { lock_id, .. } => Some(lock_id),
        PetriEvent::AtomicLoad { loc_id, .. } => Some(loc_id),
        PetriEvent::AtomicStore { loc_id, .. } => Some(loc_id),
        PetriEvent::UnsafeRead { region_id, .. } => Some(region_id),
        PetriEvent::UnsafeWrite { region_id, .. } => Some(region_id),
        _ => None,
    }
}

/// The stable type name of an event, used to look up its transition.
pub open spec fn event_type(e: PetriEvent) -> Seq<char> {
    match e {
        PetriEvent::ThreadSpawn { .. } => "ThreadSpawn"@,
        PetriEvent::ThreadJoin { .. } => "ThreadJoin"@,
        PetriEvent::Yield { .. } => "Yield"@,
        PetriEvent::Block { .. } => "Block"@,
        PetriEvent::Wake { .. } => "Wake"@,
        PetriEvent::LockAcquire { .. } => "LockAcquire"@,
        PetriEvent::LockRelease { .. } => "LockRelease"@,
        PetriEvent::AtomicLoad { .. } => "AtomicLoad"@,
        PetriEvent::AtomicStore { .. } => "AtomicStore"@,
        PetriEvent::UnsafeRead { .. } => "UnsafeRead"@,
        PetriEvent::UnsafeWrite { .. } => "UnsafeWrite"@,
    }
}

impl PetriEvent {
    /// The thread id associated with this event.
    pub fn tid(&self) -> (r: u32)
        ensures
            r == event_tid(*self),
    {
        match self {
            PetriEvent::ThreadSpawn { parent, .. } => *parent,
            PetriEvent::ThreadJoin { joiner, .. } => *joiner,
            PetriEvent::Yield { tid } => *tid,
            PetriEvent::Block { tid, .. } => *tid,
            PetriEvent::Wake { tid } => *tid,
            PetriEvent::LockAcquire { tid, .. } => *tid,
            PetriEvent::LockRelease { tid, .. } => *tid,
            PetriEvent::AtomicLoad { tid, .. } => *tid,
            PetriEvent::AtomicStore { tid, .. } => *tid,
            PetriEvent::UnsafeRead { tid, .. } => *tid,
            PetriEvent::UnsafeWrite { tid, .. } => *tid,
        }
    }

    /// The lock, location or region id, for the events that carry one.
    pub fn object_id(&self) -> (r: Option<u64>)
        ensures
            r == event_object_id(*self),
    {
        match self {
            PetriEvent::LockAcquire { lock_id, .. } => Some(*lock_id),
            PetriEvent::LockRelease { lock_id, .. } => Some(*lock_id),
            PetriEvent::AtomicLoad { loc_id, .. } => Some(*loc_id),
            PetriEvent::AtomicStore { loc_id, .. } => Some(*loc_id),
            PetriEvent::UnsafeRead { region_id, .. } => Some(*region_id),
            PetriEvent::UnsafeWrite { region_id, .. } => Some(*region_id),
            _ => None,
        }
    }

    /// The event's type name, used for mapping it to a transition.
    pub fn event_type_name(&self) -> (r: &'static str)
        ensures
            r@ == event_type(*self),
    {
        match self {
            PetriEvent::ThreadSpawn { .. } => "ThreadSpawn",
            PetriEvent::ThreadJoin { .. } => "ThreadJoin",
            PetriEvent::Yield { .. } => "Yield",
            PetriEvent::Block { .. } => "Block",
            PetriEvent::Wake { .. } => "Wake",
            PetriEvent::LockAcquire { .. } => "LockAcquire",
            PetriEvent::LockRelease { .. } => "LockRelease",
            PetriEvent::AtomicLoad { .. } => "AtomicLoad",
            PetriEvent::AtomicStore { .. } => "AtomicStore",
            PetriEvent::UnsafeRead { .. } => "UnsafeRead",
            PetriEvent::UnsafeWrite { .. } => "UnsafeWrite",
        }
    }
}

} // verus!
