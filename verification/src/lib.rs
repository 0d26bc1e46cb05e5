//! A log-structured key/value store with a verified core.
//!
//! The store keeps every mutation as a framed record in append-only log
//! segments and an index from each live key to its record. It works on the
//! bytes of the segments; reading and writing the files behind them, and
//! the sockets of the server, is left to the program around it.

pub mod bufio;
pub mod common;
pub mod engine;
pub mod error;
pub mod flex;
pub mod index;
pub mod kvs;
pub mod logfile;
pub mod persist;
pub mod record;
pub mod recovery;
pub mod replay;
pub mod server;

pub use bufio::{BufReaderWithPos, BufWriterWithPos};
pub use common::{Commands, NetworkConnection};
pub use error::KvsError;
pub use index::CommandPos;
pub use kvs::{KvStore, Segment};
pub use logfile::{log_path, sorted_gen_list};
pub use persist::{sync_plan, DiskOp, FileLen};
pub use record::KvsLogLine;
pub use engine::resolve_engine;
pub use server::{client_outcome, handle_request};
