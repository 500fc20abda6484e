//! Verified core of `ghosty`, a terminal chat client for ghosty agents:
//! the decoder of the server-sent event stream, the chat state machine,
//! word wrapping, the screen model and the command line.

pub mod search;
pub mod text;
pub mod json;
pub mod sse;
pub mod wrap;
pub mod chat;
pub mod render;
pub mod cli;
pub mod client;
