//! A queueing library: an event-driven simulation engine for M/M/c queues, an
//! online analyser of the event stream it produces, the line format that carries
//! that stream between processes, and the closed-form steady-state solutions of
//! the M/M/c and M/M/c/K models in exact rational arithmetic.
//!
//! Time is counted in integer ticks (the line format writes a tick as one
//! microsecond). The largest tick value, [`customer::NEVER`], stands for an
//! instant that never comes.
pub mod arith;
pub mod customer;
pub mod format;
pub mod ratio;
pub mod queues;
pub mod analyser;
pub mod theory;
