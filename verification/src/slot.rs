use vstd::prelude::*;

verus! {

/// What one slot of the ring says to the participant that polls it.
#[derive(Debug, Clone, Copy, PartialEq, Eq, Structural)]
pub enum Qstat {
    /// The slot's participant holds the lock.
    Go,
    /// The slot's participant is queued behind the holder.
    Wait,
    /// The slot belongs to nobody.
    Empty,
}

/// Why a ticket was not handed out.
#[derive(Debug, Clone, Copy, PartialEq, Eq, Structural)]
pub enum Qerror {
    /// Every slot is taken: as many tickets are out as the ring has slots.
    OutOfTicket,
}

} // verus!
