//! A chat server with rooms, line by line over TCP: the registry of
//! handles, the directory of rooms, and the session of a client as a state
//! machine that answers each event with actions. Reading, writing and
//! waiting are left to the program around the library.
//!
//! Beside the server stand the generator of handles, the scripts of the
//! bots that put a server under load, and the layout of the transcript
//! that a terminal client shows.

pub mod bots;
pub mod client;
pub mod generator;
pub mod hub;
pub mod listing;
pub mod names;
pub mod protocol;
pub mod random;
pub mod registry;
pub mod rooms;
pub mod session;
pub mod text;
pub mod transcript;
pub mod words;
