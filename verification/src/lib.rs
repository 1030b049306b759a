//! A switching element for discrete-event simulations of interconnect fabrics.
//!
//! A switch takes packets from its input ports, asks a routing policy for the
//! output ports of each packet's destination, lets one packet at a time claim
//! an output within a step, and forwards what it accepted after a fixed
//! latency. It keeps a clock of its own, which only moves forward.
//!
//! The switch decides and leaves the channels to its driver. The driver tells
//! it what the input endpoints report, and carries out what it decides.
//!
//! - `routing`: packets and ports.
//! - `policy`: routing policies, and the static table.
//! - `event`: how far the clock moves and which inputs are served there.
//! - `contention`: who gets an output within one pass.
//! - `simple`: the switch itself.
//! - `drain`: a switch followed to its end; nothing is lost on the way.
//! - `ids`: port ids in ascending order.
//! - `fx`: the hash collections the switch is built on.

pub mod contention;
pub mod drain;
pub mod event;
pub mod fx;
pub mod ids;
pub mod policy;
pub mod routing;
pub mod simple;
