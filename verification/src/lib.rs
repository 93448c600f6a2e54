//! A read-only, puny HTTP file server: the verified core.
//!
//! The crate holds the decisions of the server as functions on plain values:
//! the index of directories that answers "which directories end with this
//! path?", the reading of a request head, the framing of a response, the
//! choice of the one file that a request names, and the long poll that waits
//! for a file to change. Sockets and the file system stay with the caller.
//!
//! Text is modelled by its UTF-8 bytes throughout: a contract that speaks of
//! a `&str` or a `String` speaks of the byte sequence that encodes it.

pub mod dirs_index;
pub mod error;
pub mod file_server;
pub mod http;
pub mod mime;
pub mod path;
pub mod percent;
pub mod resolve;
pub mod serve;
pub mod text;
pub mod tree;
pub mod trie;
pub mod url_path;
pub mod utf8;
pub mod watch;

pub use crate::dirs_index::DirsIndex;
pub use crate::error::{Error, ErrorKind};
