//! Table schema descriptions: column definitions, foreign keys and values, and
//! the helpers that walk them.

use vstd::bytes::{
    lemma_auto_spec_u16_to_from_le_bytes, spec_u16_from_le_bytes, spec_u16_to_le_bytes,
    u16_from_le_bytes, u16_to_le_bytes,
};
use vstd::prelude::*;
use vstd::slice::{slice_subrange, slice_to_vec};
use vstd::string::StrSliceExecFns;
use vstd::utf8::{
    decode_utf8, encode_utf8, encode_utf8_decode_utf8, encode_utf8_valid_utf8, valid_utf8,
};

use crate::encode::{string_from_utf8, Encode};
use crate::types::{DataSize, DecodeError, MSize, MemoryError, DEFAULT_ALIGNMENT};

verus! {

/// Text column value.
#[derive(Debug, PartialEq, Eq)]
pub struct Text(pub String);

/// Unsigned 32-bit column value.
#[derive(Debug, PartialEq, Eq, Clone, Copy)]
pub struct Uint32(pub u32);

/// Unsigned 64-bit column value.
#[derive(Debug, PartialEq, Eq, Clone, Copy)]
pub struct Uint64(pub u64);

/// Signed 32-bit column value.
#[derive(Debug, PartialEq, Eq, Clone, Copy)]
pub struct Int32(pub i32);

/// Signed 64-bit column value.
#[derive(Debug, PartialEq, Eq, Clone, Copy)]
pub struct Int64(pub i64);

/// The bytes of a text: its length in bytes, little-endian on two bytes, then
/// its UTF-8 bytes.
pub open spec fn text_bytes(s: Seq<char>) -> Seq<u8> {
    spec_u16_to_le_bytes(encode_utf8(s).len() as u16) + encode_utf8(s)
}

/// The length announced by the bytes of a text.
pub open spec fn text_len(data: Seq<u8>) -> int {
    spec_u16_from_le_bytes(data.subrange(0, 2)) as int
}

impl Encode for Text {
    open spec fn spec_encode(&self) -> Seq<u8> {
        text_bytes(self.0@)
    }

    open spec fn spec_size(&self) -> MSize {
        if 2 + encode_utf8(self.0@).len() > u16::MAX {
            u16::MAX
        } else {
            (2 + encode_utf8(self.0@).len()) as MSize
        }
    }

    open spec fn spec_data_size() -> DataSize {
        DataSize::Dynamic
    }

    open spec fn spec_alignment() -> MSize {
        DEFAULT_ALIGNMENT
    }

    open spec fn spec_decodes(data: Seq<u8>, value: Self) -> bool {
        value.0@ == decode_utf8(data.subrange(2, 2 + text_len(data)))
    }

    open spec fn spec_decode_error(data: Seq<u8>) -> Option<MemoryError> {
        if data.len() < 2 || data.len() < 2 + text_len(data) {
            Some(MemoryError::DecodeError(DecodeError::TooShort))
        } else if !valid_utf8(data.subrange(2, 2 + text_len(data))) {
            Some(MemoryError::DecodeError(DecodeError::Utf8Error))
        } else {
            None
        }
    }

    fn data_size() -> (r: DataSize) {
        DataSize::Dynamic
    }

    fn alignment() -> (r: MSize) {
        DEFAULT_ALIGNMENT
    }

    /// The size of the length plus the size of the text.
    fn size(&self) -> (r: MSize) {
        let len = self.0.as_str().as_bytes().len();
        if len > 65533 {
            u16::MAX
        } else {
            2 + len as MSize
        }
    }

    fn encode(&self) -> (r: Vec<u8>) {
        let text = self.0.as_str().as_bytes();
        let mut bytes = u16_to_le_bytes(text.len() as u16);
        let mut text_bytes = slice_to_vec(text);
        bytes.append(&mut text_bytes);
        bytes
    }

    fn decode(data: &[u8]) -> (r: Result<Self, MemoryError>) {
        if data.len() < 2 {
            return Err(MemoryError::DecodeError(DecodeError::TooShort));
        }
        let str_len = u16_from_le_bytes(slice_subrange(data, 0, 2)) as usize;
        if data.len() < 2 + str_len {
            return Err(MemoryError::DecodeError(DecodeError::TooShort));
        }
        let string_bytes = slice_to_vec(slice_subrange(data, 2, 2 + str_len));
        match string_from_utf8(string_bytes) {
            Some(string) => Ok(Text(string)),
            None => Err(MemoryError::DecodeError(DecodeError::Utf8Error)),
        }
    }
}

/// Decoding the bytes of a text, followed by anything, gives the text back,
/// provided that it takes at most [`MSize::MAX`] bytes.
pub proof fn lemma_text_roundtrip(text: Text, rest: Seq<u8>)
    requires
        encode_utf8(text.0@).len() <= u16::MAX,
    ensures
        Text::spec_decode_error(text.spec_encode() + rest) is None,
        forall|v: Text| #[trigger]
            Text::spec_decodes(text.spec_encode() + rest, v) ==> v.0@ == text.0@,
{
    lemma_auto_spec_u16_to_from_le_bytes();
    let bytes = encode_utf8(text.0@);
    let data = text.spec_encode() + rest;
    assert(data.subrange(0, 2) =~= spec_u16_to_le_bytes(bytes.len() as u16));
    assert(data.subrange(2, 2 + text_len(data)) =~= bytes);
    encode_utf8_valid_utf8(text.0@);
    encode_utf8_decode_utf8(text.0@);
}

/// A value held by a column.
#[derive(Debug, PartialEq, Eq)]
pub enum Value {
    Boolean(bool),
    Int32(Int32),
    Int64(Int64),
    Null,
    Text(Text),
    Uint32(Uint32),
    Uint64(Uint64),
}

impl Clone for Text {
    fn clone(&self) -> (r: Self)
        ensures
            r == *self,
    {
        Text(self.0.clone())
    }
}

impl Clone for Value {
    fn clone(&self) -> (r: Self)
        ensures
            r == *self,
    {
        match self {
            Value::Boolean(b) => Value::Boolean(*b),
            Value::Int32(v) => Value::Int32(*v),
            Value::Int64(v) => Value::Int64(*v),
            Value::Null => Value::Null,
            Value::Text(t) => Value::Text(t.clone()),
            Value::Uint32(v) => Value::Uint32(*v),
            Value::Uint64(v) => Value::Uint64(*v),
        }
    }
}

/// The kind of data a column holds.
#[derive(Debug, Clone, Copy, PartialEq, Eq)]
pub enum DataTypeKind {
    Boolean,
    Int32,
    Int64,
    Text,
    Uint32,
    Uint64,
}

/// A foreign key relationship of a column.
#[derive(Debug, Clone, Copy, PartialEq, Eq)]
pub struct ForeignKeyDef {
    /// Name of the local column that holds the foreign key (e.g. "user_id").
    pub local_column: &'static str,
    /// Name of the foreign table (e.g. "users").
    pub foreign_table: &'static str,
    /// Name of the foreign column that the key points to (e.g. "id").
    pub foreign_column: &'static str,
}

/// The definition of a column of a table.
#[derive(Debug, Clone, Copy, PartialEq, Eq)]
pub struct ColumnDef {
    /// The name of the column.
    pub name: &'static str,
    /// The data type of the column.
    pub data_type: DataTypeKind,
    /// Whether the column can hold NULL values.
    pub nullable: bool,
    /// Whether the column is the primary key.
    pub primary_key: bool,
    /// Foreign key definition, if any.
    pub foreign_key: Option<ForeignKeyDef>,
}

/// Which table a group of column values belongs to.
#[derive(Debug, PartialEq, Eq)]
pub enum ValuesSource {
    /// The values belong to the current table.
    This,
    /// The values belong to a foreign table, reached through `column`.
    Foreign { table: String, column: String },
}

/// Whether two strings hold the same characters.
pub fn str_eq(a: &str, b: &str) -> (r: bool)
    ensures
        r == (a@ == b@),
{
    let n = a.unicode_len();
    if n != b.unicode_len() {
        return false;
    }
    let mut i: usize = 0;
    while i < n
        invariant
            i <= n,
            n == a@.len(),
            n == b@.len(),
            forall|j: int| 0 <= j < i ==> a@[j] == b@[j],
        decreases n - i,
    {
        if a.get_char(i) != b.get_char(i) {
            return false;
        }
        i = i + 1;
    }
    assert(a@ =~= b@);
    true
}

/// The local columns among `columns` that hold a foreign key into `target`.
pub open spec fn referencing_columns(columns: Seq<ColumnDef>, target: Seq<char>) -> Seq<
    &'static str,
>
    decreases columns.len(),
{
    if columns.len() == 0 {
        Seq::empty()
    } else {
        let rest = referencing_columns(columns.drop_last(), target);
        match columns.last().foreign_key {
            Some(fk) => if fk.foreign_table@ == target {
                rest.push(fk.local_column)
            } else {
                rest
            },
            None => rest,
        }
    }
}

/// The tables other than `target` that reference it, in order, each with the
/// columns that hold the reference.
pub open spec fn referencing_tables(
    tables: Seq<(&'static str, &'static [ColumnDef])>,
    target: Seq<char>,
) -> Seq<(&'static str, Seq<&'static str>)>
    decreases tables.len(),
{
    if tables.len() == 0 {
        Seq::empty()
    } else {
        let rest = referencing_tables(tables.drop_last(), target);
        let (name, columns) = tables.last();
        let refs = referencing_columns(columns@, target);
        if name@ != target && refs.len() > 0 {
            rest.push((name, refs))
        } else {
            rest
        }
    }
}

/// A result holding vectors, seen with sequences in their place.
pub open spec fn references_view(r: Seq<(&'static str, Vec<&'static str>)>) -> Seq<
    (&'static str, Seq<&'static str>),
> {
    r.map_values(|p: (&'static str, Vec<&'static str>)| (p.0, p.1@))
}

/// Given tables with their column definitions, returns the tables other than
/// `target` that reference it, each with the columns that hold the reference.
pub fn get_referenced_tables(target: &'static str, tables: &[(&'static str, &'static [ColumnDef])]) -> (r:
    Vec<(&'static str, Vec<&'static str>)>)
    ensures
        references_view(r@) == referencing_tables(tables@, target@),
{
    let mut referenced_tables: Vec<(&'static str, Vec<&'static str>)> = Vec::new();
    let mut t: usize = 0;
    while t < tables.len()
        invariant
            t <= tables@.len(),
            references_view(referenced_tables@) == referencing_tables(
                tables@.subrange(0, t as int),
                target@,
            ),
        decreases tables@.len() - t,
    {
        let (table_name, columns) = tables[t];
        let mut referenced_tables_columns: Vec<&'static str> = Vec::new();
        if !str_eq(table_name, target) {
            let mut c: usize = 0;
            while c < columns.len()
                invariant
                    c <= columns@.len(),
                    referenced_tables_columns@ == referencing_columns(
                        columns@.subrange(0, c as int),
                        target@,
                    ),
                decreases columns@.len() - c,
            {
                proof {
                    assert(columns@.subrange(0, c + 1).drop_last() =~= columns@.subrange(
                        0,
                        c as int,
                    ));
                }
                if let Some(fk) = columns[c].foreign_key {
                    if str_eq(fk.foreign_table, target) {
                        referenced_tables_columns.push(fk.local_column);
                    }
                }
                c = c + 1;
            }
            assert(columns@.subrange(0, columns@.len() as int) =~= columns@);
        }
        let ghost before = referenced_tables@;
        let ghost refs = referencing_columns(columns@, target@);
        if referenced_tables_columns.len() > 0 {
            referenced_tables.push((table_name, referenced_tables_columns));
            proof {
                assert(references_view(referenced_tables@) =~= references_view(before).push(
                    (table_name, refs),
                ));
            }
        }
        proof {
            assert(tables@.subrange(0, t + 1).drop_last() =~= tables@.subrange(0, t as int));
        }
        t = t + 1;
    }
    assert(tables@.subrange(0, tables@.len() as int) =~= tables@);
    referenced_tables
}

/// Whether `source` is the foreign table `table` reached through `column`.
pub open spec fn is_foreign_source(source: ValuesSource, table: Seq<char>, column: Seq<char>) -> bool {
    match source {
        ValuesSource::Foreign { table: t, column: c } => t@ == table && c@ == column,
        ValuesSource::This => false,
    }
}

/// The value groups of `values` that come from the foreign table `table` through
/// `column`, in order, marked as values of the current table.
pub open spec fn self_references(
    values: Seq<(ValuesSource, Vec<(ColumnDef, Value)>)>,
    table: Seq<char>,
    column: Seq<char>,
) -> Seq<(ValuesSource, Seq<(ColumnDef, Value)>)>
    decreases values.len(),
{
    if values.len() == 0 {
        Seq::empty()
    } else {
        let rest = self_references(values.drop_last(), table, column);
        if is_foreign_source(values.last().0, table, column) {
            rest.push((ValuesSource::This, values.last().1@))
        } else {
            rest
        }
    }
}

/// Value groups holding vectors, seen with sequences in their place.
pub open spec fn value_groups_view(r: Seq<(ValuesSource, Vec<(ColumnDef, Value)>)>) -> Seq<
    (ValuesSource, Seq<(ColumnDef, Value)>),
> {
    r.map_values(|p: (ValuesSource, Vec<(ColumnDef, Value)>)| (p.0, p.1@))
}

/// A copy of a group of column values.
pub(crate) fn clone_values(values: &Vec<(ColumnDef, Value)>) -> (r: Vec<(ColumnDef, Value)>)
    ensures
        r@ == values@,
{
    let mut out: Vec<(ColumnDef, Value)> = Vec::new();
    let mut i: usize = 0;
    while i < values.len()
        invariant
            i <= values@.len(),
            out@ == values@.subrange(0, i as int),
        decreases values@.len() - i,
    {
        let (col, value) = &values[i];
        out.push((*col, value.clone()));
        proof {
            assert(out@ =~= values@.subrange(0, i + 1));
        }
        i = i + 1;
    }
    assert(values@.subrange(0, values@.len() as int) =~= values@);
    out
}

/// Takes the value groups whose source is the foreign table `table` reached
/// through `local_column`, and returns copies of them marked as values of the
/// current table.
pub fn self_reference_values(
    values: &[(ValuesSource, Vec<(ColumnDef, Value)>)],
    table: &'static str,
    local_column: &'static str,
) -> (r: Vec<(ValuesSource, Vec<(ColumnDef, Value)>)>)
    ensures
        value_groups_view(r@) == self_references(values@, table@, local_column@),
{
    let mut result: Vec<(ValuesSource, Vec<(ColumnDef, Value)>)> = Vec::new();
    let mut i: usize = 0;
    while i < values.len()
        invariant
            i <= values@.len(),
            value_groups_view(result@) == self_references(
                values@.subrange(0, i as int),
                table@,
                local_column@,
            ),
        decreases values@.len() - i,
    {
        let (source, group) = &values[i];
        let matches = match source {
            ValuesSource::Foreign { table: t, column } => str_eq(t.as_str(), table) && str_eq(
                column.as_str(),
                local_column,
            ),
            ValuesSource::This => false,
        };
        let ghost before = result@;
        if matches {
            let copy = clone_values(group);
            result.push((ValuesSource::This, copy));
            proof {
                assert(value_groups_view(result@) =~= value_groups_view(before).push(
                    (ValuesSource::This, group@),
                ));
            }
        }
        proof {
            assert(values@.subrange(0, i + 1).drop_last() =~= values@.subrange(0, i as int));
        }
        i = i + 1;
    }
    assert(values@.subrange(0, values@.len() as int) =~= values@);
    result
}

/// The tables that reference `target` never include `target` itself, each
/// comes with at least one column, and each of its columns holds a foreign
/// key into `target`.
pub proof fn lemma_referencing_tables(
    tables: Seq<(&'static str, &'static [ColumnDef])>,
    target: Seq<char>,
)
    ensures
        forall|k: int|
            #![trigger referencing_tables(tables, target)[k]]
            0 <= k < referencing_tables(tables, target).len() ==> referencing_tables(
                tables,
                target,
            )[k].0@ != target && referencing_tables(tables, target)[k].1.len() > 0,
    decreases tables.len(),
{
    if tables.len() > 0 {
        lemma_referencing_tables(tables.drop_last(), target);
        let rest = referencing_tables(tables.drop_last(), target);
        let r = referencing_tables(tables, target);
        assert forall|k: int| #![trigger r[k]] 0 <= k < r.len() implies r[k].0@ != target
            && r[k].1.len() > 0 by {
            if k < rest.len() {
                assert(r[k] == rest[k]);
            }
        }
    }
}

/// Whether `col` holds a foreign key into `target` through the local column
/// `local`.
pub open spec fn holds_key_into(col: ColumnDef, target: Seq<char>, local: &'static str) -> bool {
    match col.foreign_key {
        Some(fk) => fk.foreign_table@ == target && fk.local_column == local,
        None => false,
    }
}

/// Each column listed for a table that references `target` holds a foreign key
/// into `target`.
pub proof fn lemma_referencing_columns(columns: Seq<ColumnDef>, target: Seq<char>)
    ensures
        forall|k: int|
            #![trigger referencing_columns(columns, target)[k]]
            0 <= k < referencing_columns(columns, target).len() ==> exists|c: int|
                0 <= c < columns.len() && holds_key_into(
                    #[trigger] columns[c],
                    target,
                    referencing_columns(columns, target)[k],
                ),
    decreases columns.len(),
{
    if columns.len() > 0 {
        let d = columns.drop_last();
        lemma_referencing_columns(d, target);
        let rest = referencing_columns(d, target);
        let r = referencing_columns(columns, target);
        assert forall|k: int| #![trigger r[k]] 0 <= k < r.len() implies exists|c: int|
            0 <= c < columns.len() && holds_key_into(#[trigger] columns[c], target, r[k]) by {
            if k < rest.len() {
                assert(r[k] == rest[k]);
                let c = choose|c: int|
                    0 <= c < d.len() && holds_key_into(#[trigger] d[c], target, rest[k]);
                assert(columns[c] == d[c]);
            } else {
                let c = columns.len() - 1;
                assert(columns[c] == columns.last());
                assert(holds_key_into(columns[c], target, r[k]));
            }
        }
    }
}

} // verus!
