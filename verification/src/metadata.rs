//! The tables that a DBMS canister manages, as declared by its attributes: the
//! names of the types generated for each table.

use vstd::prelude::*;
use vstd::string::StringExecFns;

verus! {

/// The names belonging to one table of a canister.
#[derive(Debug)]
pub struct TableMetadata {
    /// The table's name.
    pub name: String,
    /// The entity type stored in the table.
    pub table: String,
    /// The record type read from the table.
    pub record: String,
    /// The type of the records to insert.
    pub insert: String,
    /// The type of the updates.
    pub update: String,
}

/// Why the attributes of a canister do not describe its tables.
#[derive(Debug, Clone, Copy, PartialEq, Eq)]
pub enum MetadataError {
    /// The numbers of entities and of table names differ.
    MismatchedCount { tables: usize, names: usize },
    /// No `referenced_tables` attribute was given.
    MissingReferencedTables,
}

/// The metadata of the canister: its tables and the name of the function that
/// lists the tables referencing a table.
#[derive(Debug)]
pub struct CanisterMetadata {
    pub tables: Vec<TableMetadata>,
    pub referenced_tables: String,
}

/// The metadata that the entity `table` stored under `name` has.
pub open spec fn is_table_metadata(m: TableMetadata, table: Seq<char>, name: Seq<char>) -> bool {
    &&& m.table@ == table
    &&& m.name@ == name
    &&& m.record@ == table + "Record"@
    &&& m.insert@ == table + "InsertRequest"@
    &&& m.update@ == table + "UpdateRequest"@
}

/// Collects the metadata of the entity `table` stored under `name`: the names of
/// its record, insert and update types.
pub fn collect_table_metadata(table: String, name: String) -> (r: TableMetadata)
    ensures
        is_table_metadata(r, table@, name@),
{
    let record = table.clone().concat("Record");
    let insert = table.clone().concat("InsertRequest");
    let update = table.clone().concat("UpdateRequest");
    TableMetadata { name, table, record, insert, update }
}

/// Pairs the entities with the table names, in order, and checks that the
/// function listing referenced tables is named.
pub fn collect_canister_metadata(
    entities: Vec<String>,
    names: Vec<String>,
    referenced_tables: Option<String>,
) -> (r: Result<CanisterMetadata, MetadataError>)
    ensures
        entities@.len() != names@.len() ==> r == Err::<CanisterMetadata, MetadataError>(
            MetadataError::MismatchedCount { tables: entities.len(), names: names.len() },
        ),
        entities@.len() == names@.len() && referenced_tables is None ==> r == Err::<
            CanisterMetadata,
            MetadataError,
        >(MetadataError::MissingReferencedTables),
        entities@.len() == names@.len() && referenced_tables is Some ==> (r matches Ok(m) && {
            &&& m.referenced_tables == referenced_tables->0
            &&& m.tables@.len() == entities@.len()
            &&& forall|i: int|
                0 <= i < entities@.len() ==> is_table_metadata(
                    #[trigger] m.tables@[i],
                    entities@[i]@,
                    names@[i]@,
                )
        }),
{
    if entities.len() != names.len() {
        return Err(
            MetadataError::MismatchedCount { tables: entities.len(), names: names.len() },
        );
    }
    let referenced_tables = match referenced_tables {
        Some(ident) => ident,
        None => return Err(MetadataError::MissingReferencedTables),
    };
    let mut tables: Vec<TableMetadata> = Vec::new();
    let mut i: usize = 0;
    while i < entities.len()
        invariant
            i <= entities@.len(),
            entities@.len() == names@.len(),
            tables@.len() == i,
            forall|j: int|
                0 <= j < i ==> is_table_metadata(
                    #[trigger] tables@[j],
                    entities@[j]@,
                    names@[j]@,
                ),
        decreases entities@.len() - i,
    {
        let metadata = collect_table_metadata(entities[i].clone(), names[i].clone());
        tables.push(metadata);
        i = i + 1;
    }
    Ok(CanisterMetadata { tables, referenced_tables })
}

} // verus!
