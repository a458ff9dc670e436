//! A minimal in-memory key-value server core speaking the RESP wire format.
//!
//! The crate is organised around three verified subsystems:
//! a streaming codec for RESP frames (`proto`, `reply`), the keyspace with
//! entry expiry and its reaper (`keyspace`, `reaper`), and the
//! per-connection command dispatcher (`dispatch`).

pub mod dispatch;
pub mod keyspace;
pub mod proto;
pub mod reaper;
pub mod reply;

pub use dispatch::current_millis;
pub use dispatch::eof_reply;
pub use dispatch::handle_command;
pub use dispatch::handle_echo;
pub use dispatch::respond;
pub use dispatch::run_pipeline;
pub use keyspace::Entry;
pub use keyspace::Keyspace;
pub use keyspace::SetOutcome;
pub use proto::Command;
pub use proto::ParserError;
pub use proto::encode_command;
pub use proto::parse;
pub use reaper::reap;
pub use reaper::sample_expired;
pub use reaper::sweep;
pub use reply::Reply;
pub use reply::encode_reply;
pub use reply::get_bulk_string;
pub use reply::get_null_string;
pub use reply::get_simple_string;
pub use reply::invalid_arg;
pub use reply::wrong_number_args;
