//! A safe resource-lifecycle and error-translation layer for a handle-based
//! embedded key/value storage engine.
//!
//! The engine exposes three hierarchically owned handles — a database
//! [`Connection`], a [`Session`] bound to a connection, and a [`Cursor`]
//! bound to a session — plus a [`Transaction`] state machine scoped to a
//! session. Every fallible operation returns a typed [`Error`] carrying the
//! engine's numeric status code and its message.
//!
//! Handles are indices into arenas owned by the `Connection`, so a child
//! handle can never be used to reach freed state: a stale handle is detected
//! and reported as an error. The storage itself is modelled as sorted
//! row-store tables held by the connection; the durable image of a database
//! is a plain [`Database`] value that the environment loads and stores.

pub mod errors;
pub mod order;
pub mod table;
pub mod config;
pub mod conn;
pub mod laws;

pub use errors::Error;
pub use errors::error_message;
pub use order::CompareStatus;
pub use table::Database;
pub use table::Record;
pub use table::Table;
pub use config::OpenConnectionConfig;
pub use conn::Connection;
pub use conn::Session;
pub use conn::Cursor;
pub use conn::Transaction;
