//! A bounded, fair, array-based queue lock.
//!
//! Every participant draws a ticket, which is the index of a private slot in
//! a fixed ring, and polls that slot until it reads `Go`. Releasing the lock
//! hands it to the slot that follows the releaser's own.
//!
//! The state of the ring and its three transitions are modelled in
//! [`model`]; [`lock`] holds the executable lock, whose contracts are stated
//! over that model; [`laws`] proves what the transitions guarantee.

pub mod slot;
pub mod model;
pub mod lock;
pub mod laws;
