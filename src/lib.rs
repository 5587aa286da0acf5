//! A handle layer over an embedded ordered key-value engine: an environment
//! owns a control interface, which resolves dotted paths into databases and
//! documents; databases, cursors and transactions exchange documents.
pub mod error;
pub mod object;
pub mod ctl;
pub mod db;
pub mod transaction;
pub mod env;
pub mod native;

pub use ctl::Ctl;
pub use db::{Cursor, Db};
pub use env::Sophia;
pub use error::Error;
pub use native::Native;
pub use object::Object;
pub use transaction::Transaction;
