//! Session bookkeeping for peripherals on a message bus: which devices are
//! alive in each domain, who is waiting for which reply, and what one inbound
//! frame or one timer tick does to both.
//!
//! The library does no input or output and keeps no clock. Its caller owns
//! the locks, the channels and the drivers; it hands in frames as plain
//! values and the time in milliseconds, and gets back what is to be done.
//!
//! - `identity`, `info`, `driver`: how a device is named, what it announces,
//!   and which kind of driver serves it.
//! - `roster`: the devices of one domain as a sequence, with the functions
//!   that say what an announcement and a sweep do to it.
//! - `events`: what can happen to a registry, and the view it leaves.
//! - `manager`: the registry of all domains.
//! - `waiters`: the callers of one domain that wait for a reply.
//! - `frame`, `dispatch`: what is read of an inbound frame, and what the
//!   frame does to the waiters and the registry.
//! - `laws`: what holds whatever happens on the bus.

pub mod identity;
pub mod info;
pub mod driver;
pub mod roster;
pub mod events;
pub mod manager;
pub mod waiters;
pub mod frame;
pub mod dispatch;
pub mod laws;
