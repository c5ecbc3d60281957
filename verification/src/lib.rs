//! A drawing server's logic: the text protocol spoken over the websocket,
//! the keys that guard it, the table of connected clients and the rooms they
//! are in, the operations on the lists of dots that make up a room, and the
//! routes and password of the HTTP side.

pub mod canvas;
pub mod chat;
pub mod dots;
pub mod handlers;
pub mod protocol;
pub mod registry;
pub mod text;
pub mod trusted;
