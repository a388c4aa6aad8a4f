//! A personal alarm service's verified core: the natural-language time
//! expression parser, the calendar model it rests on, and the pure decision
//! logic of the request server and scheduler — what to store, what to
//! answer, which alarms are due, and when to wake next. The process around
//! it (sockets, files, desktop notifications) only moves plain values in
//! and out.

pub mod clock;
pub mod daemon;
pub mod data;
pub mod text;
pub mod time;
pub mod timestamp;
