//! Records of tables: typed records for reading, inserting and updating, and
//! their untyped forms for dynamic operations.

use vstd::prelude::*;
use vstd::string::StringExecFns;

use crate::schema::{ColumnDef, Value};

verus! {

/// A condition on the values of a record.
#[derive(Debug, PartialEq, Eq)]
pub enum Filter {
    Eq(&'static str, Value),
    Ne(&'static str, Value),
    Gt(&'static str, Value),
    Ge(&'static str, Value),
    Lt(&'static str, Value),
    Le(&'static str, Value),
    IsNull(&'static str),
    NotNull(&'static str),
    And(Box<Filter>, Box<Filter>),
    Or(Box<Filter>, Box<Filter>),
    Not(Box<Filter>),
}

impl Clone for Filter {
    fn clone(&self) -> (r: Self)
        ensures
            r == *self,
        decreases self,
    {
        match self {
            Filter::Eq(c, v) => Filter::Eq(c, v.clone()),
            Filter::Ne(c, v) => Filter::Ne(c, v.clone()),
            Filter::Gt(c, v) => Filter::Gt(c, v.clone()),
            Filter::Ge(c, v) => Filter::Ge(c, v.clone()),
            Filter::Lt(c, v) => Filter::Lt(c, v.clone()),
            Filter::Le(c, v) => Filter::Le(c, v.clone()),
            Filter::IsNull(c) => Filter::IsNull(c),
            Filter::NotNull(c) => Filter::NotNull(c),
            Filter::And(a, b) => Filter::And(Box::new((**a).clone()), Box::new((**b).clone())),
            Filter::Or(a, b) => Filter::Or(Box::new((**a).clone()), Box::new((**b).clone())),
            Filter::Not(a) => Filter::Not(Box::new((**a).clone())),
        }
    }
}

/// Errors in building or running a query.
#[derive(Debug, PartialEq, Eq)]
pub enum QueryError {
    /// A field that cannot be null has no value.
    MissingNonNullableField(String),
    /// The query is not valid.
    InvalidQuery(String),
    /// A column that the table does not have.
    UnknownColumn(String),
    /// A delete would leave records referencing the deleted ones behind.
    ForeignKeyConstraintViolation { referencing_table: String, field: String },
}

/// Untyped insert record for dynamic operations: the values by field name.
#[derive(Debug, Clone)]
pub struct UntypedInsertRecord {
    pub fields: Vec<(String, Value)>,
}

/// Untyped update record for dynamic operations: the new values by field name
/// and the condition on the records to update.
#[derive(Debug, Clone)]
pub struct UntypedUpdateRecord {
    pub update_fields: Vec<(String, Value)>,
    pub where_clause: Option<Filter>,
}

/// Named values, with each name seen as its characters.
pub open spec fn named_values_view(fields: Seq<(String, Value)>) -> Seq<(Seq<char>, Value)> {
    fields.map_values(|p: (String, Value)| (p.0@, p.1))
}

/// Column values, with each column replaced by its name.
pub open spec fn column_values_view(values: Seq<(ColumnDef, Value)>) -> Seq<(Seq<char>, Value)> {
    values.map_values(|p: (ColumnDef, Value)| (p.0.name@, p.1))
}

/// The column values named after their columns.
pub fn name_values(values: &Vec<(ColumnDef, Value)>) -> (r: Vec<(String, Value)>)
    ensures
        named_values_view(r@) == column_values_view(values@),
{
    let mut fields: Vec<(String, Value)> = Vec::new();
    let mut i: usize = 0;
    while i < values.len()
        invariant
            i <= values@.len(),
            named_values_view(fields@) == column_values_view(values@.subrange(0, i as int)),
        decreases values@.len() - i,
    {
        let (col_def, value) = &values[i];
        let name = String::from_str(col_def.name);
        let copy = value.clone();
        let ghost before = fields@;
        fields.push((name, copy));
        proof {
            assert(fields@ == before.push((name, copy)));
            assert(column_values_view(values@.subrange(0, i + 1)) =~= column_values_view(
                values@.subrange(0, i as int),
            ).push((values@[i as int].0.name@, values@[i as int].1)));
            assert(named_values_view(before.push((name, copy))) =~= named_values_view(before).push(
                (name@, copy),
            ));
            assert(named_values_view(fields@) =~= column_values_view(
                values@.subrange(0, i + 1),
            ));
        }
        i = i + 1;
    }
    assert(values@.subrange(0, values@.len() as int) =~= values@);
    fields
}

/// A record returned by a query on a table.
pub trait TableRecord: Sized {
    /// Builds the record from column values.
    fn from_values(values: &[(ColumnDef, Value)]) -> Self;

    /// The values of the record's columns.
    fn to_values(&self) -> Vec<Value>;
}

/// A record to insert into a table.
pub trait InsertRecord: Sized {
    /// The column values that [`InsertRecord::into_values`] gives.
    spec fn spec_values(&self) -> Seq<(ColumnDef, Value)>;

    /// The record's column values for insertion.
    fn into_values(self) -> (r: Vec<(ColumnDef, Value)>)
        ensures
            r@ == self.spec_values(),
    ;

    /// Builds the record from its untyped representation.
    fn from_untyped(untyped: UntypedInsertRecord) -> Result<Self, QueryError>;

    /// The untyped representation of the record: its column values, named after
    /// their columns.
    fn into_untyped(self) -> (r: UntypedInsertRecord)
        ensures
            named_values_view(r.fields@) == column_values_view(self.spec_values()),
    {
        let values = self.into_values();
        UntypedInsertRecord { fields: name_values(&values) }
    }
}

/// A record that updates a table.
pub trait UpdateRecord: Sized {
    /// The column values that [`UpdateRecord::update_values`] gives.
    spec fn spec_update_values(&self) -> Seq<(ColumnDef, Value)>;

    /// The condition that [`UpdateRecord::where_clause`] gives.
    spec fn spec_where_clause(&self) -> Option<Filter>;

    /// The column values to update.
    fn update_values(&self) -> (r: Vec<(ColumnDef, Value)>)
        ensures
            r@ == self.spec_update_values(),
    ;

    /// The condition on the records to update.
    fn where_clause(&self) -> (r: Option<Filter>)
        ensures
            r == self.spec_where_clause(),
    ;

    /// Builds the record from its untyped representation.
    fn from_untyped(untyped: UntypedUpdateRecord) -> Result<Self, QueryError>;

    /// The untyped representation of the record: its new column values, named
    /// after their columns, and its condition.
    fn into_untyped(self) -> (r: UntypedUpdateRecord)
        ensures
            named_values_view(r.update_fields@) == column_values_view(
                self.spec_update_values(),
            ),
            r.where_clause == self.spec_where_clause(),
    {
        let values = self.update_values();
        UntypedUpdateRecord {
            update_fields: name_values(&values),
            where_clause: self.where_clause(),
        }
    }
}

} // verus!
