//! The core of a real-time score game: many clients connect, each under a
//! name, and raise and lower each other's scores in a shared store.
//!
//! - [`session`] is the session of one connection as a state machine, from
//!   events to actions; [`laws`] states what holds of every session.
//! - [`membership`] is the set of keys that a session watches.
//! - [`message`] is the binary envelope on the wire, over the leaf encodings
//!   of [`wire`].
//! - [`store`] says what the actions mean to the score store.
//! - [`scoreboard`], [`order`] and [`powerup`] are the client's side: the
//!   scores it shows, and the rules of its board.
//! - [`error`] is the error with a status and its page; [`text`] holds
//!   helpers on strings.

pub mod text;
pub mod membership;
pub mod wire;
pub mod message;
pub mod error;
pub mod session;
pub mod laws;
pub mod store;
pub mod order;
pub mod scoreboard;
pub mod powerup;
