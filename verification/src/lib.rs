//! A database engine's memory layer verified with Verus: page-based memory
//! management, free segment bookkeeping and record encoding, together with the
//! schema helpers and the query logic of the DBMS.

pub mod canister;
pub mod encode;
pub mod fixtures;
pub mod free_segment;
pub mod ledger;
pub mod memory;
pub mod metadata;
pub mod order;
pub mod provider;
pub mod query;
pub mod raw_record;
pub mod record;
pub mod schema;
pub mod transaction;
pub mod types;
pub mod validation;
pub mod write_at;
