//! Client driver for SoupDB: the binary protocol v1 codec, the request and
//! reply decisions of a connection, transaction tracking, and the checks of
//! the built-in scenarios. Sockets, terminals and the async runtime live in
//! the program around this library.

pub mod text;
pub mod protocol;
pub mod connection_manager;
pub mod transaction_manager;
pub mod tcp_server;
pub mod scenarios;

pub use connection_manager::{Connection, DriverError, QueryResult};
pub use protocol::{Column, Frame, ResultSet, Value};
pub use transaction_manager::{Transaction, TransactionManager};
