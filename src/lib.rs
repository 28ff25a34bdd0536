//! An embedded, file-backed table store: typed values and schemas, shard
//! addressing, shard-level CRUD, a query builder and schema migrations.
//!
//! The library holds the logic on in-memory values; reading and writing the
//! files of a database directory is left to the caller.
use vstd::prelude::*;

pub mod assoc;
pub mod laws;
pub mod migrate;
pub mod query;
pub mod scan;
pub mod schema;
pub mod shard;
pub mod store;
pub mod update;
pub mod value;

pub use migrate::{DefaultValue, Migration, pending_migrations};
pub use query::{Condition, LogicOp, Operator, QueryBuilder};
pub use schema::{DbError, Row, Slot, TABLE, check_type_regex};
pub use shard::{DATABASE, string_to_numerical_uuid};
pub use store::Shard;
pub use value::{CMP, Data, Type, data_eq, data_eq_type};

verus! {

} // verus!
