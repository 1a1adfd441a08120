//! A remote command bridge, reduced to its decisions.
//!
//! A client sends one shell command at a time over a message connection; the
//! bridge runs it, forwards each output line as a text frame (standard-error
//! lines carry an `ERR: ` prefix) and marks the end of each command with a
//! sentinel frame. The [`session::Session`] state machine decides, event by
//! event, what is spawned, what is sent and when the connection is closed;
//! the program around the library performs those actions.
//!
//! Requests are run one at a time; one that arrives while a command runs
//! waits its turn. When the inbound stream ends, or a frame that is not a
//! request arrives, the session takes no further request, lets the running
//! and waiting commands finish, each with its sentinel, and then closes.
//!
//! Extension of the base protocol: a command that cannot be started is
//! reported as one frame `ERR: <reason>` followed by the sentinel, and the
//! session goes on. To a client that frame looks like a standard-error line.
pub mod frame;
pub mod laws;
pub mod session;
