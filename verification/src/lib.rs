//! Core of a live-event notification server: per-client admission control
//! and multi-subscriber event fan-out, with the rules of both proved.
//!
//! - `identity`: the identity under which a client's requests are counted.
//! - `admission`: a token bucket per identity, and the reclamation of idle buckets.
//! - `reaper`: the timetable of the reclamation passes.
//! - `fanout`: the registry of subscriptions and their bounded inboxes.
//! - `session`: the life of one streaming connection.
//! - `frame`: the bytes that go over the wire for each event.
//!
//! Nothing here waits, sleeps, locks or reads a clock: time comes in as a
//! number of milliseconds, and shared use is a matter of whoever owns the
//! values.

pub mod admission;
pub mod fanout;
pub mod frame;
pub mod identity;
pub mod reaper;
pub mod session;
