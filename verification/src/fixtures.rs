//! Sample record types, stored with the memory layer in tests and examples.

use vstd::bytes::{
    lemma_auto_spec_u16_to_from_le_bytes, lemma_auto_spec_u32_to_from_le_bytes,
    spec_u16_from_le_bytes, spec_u16_to_le_bytes, spec_u32_from_le_bytes, spec_u32_to_le_bytes,
    u16_from_le_bytes, u16_to_le_bytes, u32_from_le_bytes, u32_to_le_bytes,
};
use vstd::prelude::*;
use vstd::string::StringExecFns;
use vstd::array::array_as_slice;
use vstd::slice::{slice_subrange, slice_to_vec};
use vstd::utf8::{
    decode_utf8, encode_utf8, encode_utf8_decode_utf8, encode_utf8_valid_utf8, valid_utf8,
};

use crate::encode::{string_from_utf8, Encode};
use crate::record::{
    named_values_view, Filter, InsertRecord, QueryError, UntypedInsertRecord, UntypedUpdateRecord,
    UpdateRecord,
};
use crate::schema::{str_eq, ColumnDef, DataTypeKind, Text, Uint32, Value};
use crate::types::{DataSize, DecodeError, MSize, MemoryError, DEFAULT_ALIGNMENT};

verus! {

/// A user: an id and a name.
#[derive(Debug, Clone, PartialEq, Eq)]
pub struct User {
    pub id: u32,
    pub name: String,
}

/// The bytes of a user: id, name length and name, little-endian.
pub open spec fn user_bytes(id: u32, name: Seq<char>) -> Seq<u8> {
    spec_u32_to_le_bytes(id) + spec_u16_to_le_bytes(encode_utf8(name).len() as u16) + encode_utf8(
        name,
    )
}

/// The name length announced by the bytes of a user.
pub open spec fn user_name_len(data: Seq<u8>) -> int {
    spec_u16_from_le_bytes(data.subrange(4, 6)) as int
}

/// The name bytes of the bytes of a user.
pub open spec fn user_name_bytes(data: Seq<u8>) -> Seq<u8> {
    data.subrange(6, 6 + user_name_len(data))
}

impl Encode for User {
    open spec fn spec_encode(&self) -> Seq<u8> {
        user_bytes(self.id, self.name@)
    }

    open spec fn spec_size(&self) -> MSize {
        if 6 + encode_utf8(self.name@).len() > u16::MAX {
            u16::MAX
        } else {
            (6 + encode_utf8(self.name@).len()) as MSize
        }
    }

    open spec fn spec_data_size() -> DataSize {
        DataSize::Dynamic
    }

    open spec fn spec_alignment() -> MSize {
        DEFAULT_ALIGNMENT
    }

    open spec fn spec_decodes(data: Seq<u8>, value: Self) -> bool {
        &&& value.id == spec_u32_from_le_bytes(data.subrange(0, 4))
        &&& value.name@ == decode_utf8(user_name_bytes(data))
    }

    open spec fn spec_decode_error(data: Seq<u8>) -> Option<MemoryError> {
        if data.len() < 6 || data.len() < 6 + user_name_len(data) {
            Some(MemoryError::DecodeError(DecodeError::TooShort))
        } else if !valid_utf8(user_name_bytes(data)) {
            Some(MemoryError::DecodeError(DecodeError::Utf8Error))
        } else {
            None
        }
    }

    fn data_size() -> (r: DataSize) {
        DataSize::Dynamic
    }

    fn alignment() -> (r: MSize) {
        DEFAULT_ALIGNMENT
    }

    /// The size of the id, of the name length and of the name.
    fn size(&self) -> (r: MSize) {
        let len = self.name.as_str().as_bytes().len();
        if len > 65529 {
            u16::MAX
        } else {
            6 + len as MSize
        }
    }

    fn encode(&self) -> (r: Vec<u8>) {
        let name = self.name.as_str().as_bytes();
        let mut buffer = u32_to_le_bytes(self.id);
        let mut name_len = u16_to_le_bytes(name.len() as u16);
        let mut name_bytes = slice_to_vec(name);
        buffer.append(&mut name_len);
        buffer.append(&mut name_bytes);
        buffer
    }

    fn decode(data: &[u8]) -> (r: Result<Self, MemoryError>) {
        if data.len() < 6 {
            return Err(MemoryError::DecodeError(DecodeError::TooShort));
        }
        let id = u32_from_le_bytes(slice_subrange(data, 0, 4));
        let name_len = u16_from_le_bytes(slice_subrange(data, 4, 6));
        if data.len() < 6 + name_len as usize {
            return Err(MemoryError::DecodeError(DecodeError::TooShort));
        }
        let name_bytes = slice_to_vec(slice_subrange(data, 6, 6 + name_len as usize));
        match string_from_utf8(name_bytes) {
            Some(name) => Ok(User { id, name }),
            None => Err(MemoryError::DecodeError(DecodeError::Utf8Error)),
        }
    }
}

/// Decoding the bytes of a user, followed by anything, gives the user back,
/// provided that the name takes at most [`MSize::MAX`] bytes.
pub proof fn lemma_user_roundtrip(user: User, rest: Seq<u8>)
    requires
        encode_utf8(user.name@).len() <= u16::MAX,
    ensures
        User::spec_decode_error(user.spec_encode() + rest) is None,
        forall|v: User| #[trigger]
            User::spec_decodes(user.spec_encode() + rest, v) ==> v.id == user.id && v.name@
                == user.name@,
{
    lemma_auto_spec_u16_to_from_le_bytes();
    lemma_auto_spec_u32_to_from_le_bytes();
    let name = encode_utf8(user.name@);
    let data = user.spec_encode() + rest;
    assert(data.subrange(0, 4) =~= spec_u32_to_le_bytes(user.id));
    assert(data.subrange(4, 6) =~= spec_u16_to_le_bytes(name.len() as u16));
    assert(user_name_bytes(data) =~= name);
    encode_utf8_valid_utf8(user.name@);
    encode_utf8_decode_utf8(user.name@);
}


/// Two integers stored in six bytes, fixed size.
#[derive(Debug, Clone, Copy, PartialEq, Eq)]
pub struct FixedSizeData {
    pub a: u16,
    pub b: u32,
}

/// The bytes of a pair: `a` then `b`, little-endian.
pub open spec fn pair_bytes(a: u16, b: u32) -> Seq<u8> {
    spec_u16_to_le_bytes(a) + spec_u32_to_le_bytes(b)
}

/// The error of decoding a pair from `data`, if it is too short.
pub open spec fn pair_error(data: Seq<u8>) -> Option<MemoryError> {
    if data.len() < 6 {
        Some(MemoryError::DecodeError(DecodeError::TooShort))
    } else {
        None
    }
}

fn encode_pair(a: u16, b: u32) -> (r: Vec<u8>)
    ensures
        r@ == pair_bytes(a, b),
{
    let mut buf = u16_to_le_bytes(a);
    let mut tail = u32_to_le_bytes(b);
    buf.append(&mut tail);
    buf
}

fn decode_pair(data: &[u8]) -> (r: Result<(u16, u32), MemoryError>)
    ensures
        match r {
            Ok((a, b)) => pair_error(data@) is None && a == spec_u16_from_le_bytes(
                data@.subrange(0, 2),
            ) && b == spec_u32_from_le_bytes(data@.subrange(2, 6)),
            Err(e) => pair_error(data@) == Some(e),
        },
{
    if data.len() < 6 {
        return Err(MemoryError::DecodeError(DecodeError::TooShort));
    }
    let a = u16_from_le_bytes(slice_subrange(data, 0, 2));
    let b = u32_from_le_bytes(slice_subrange(data, 2, 6));
    Ok((a, b))
}

impl Encode for FixedSizeData {
    open spec fn spec_encode(&self) -> Seq<u8> {
        pair_bytes(self.a, self.b)
    }

    open spec fn spec_size(&self) -> MSize {
        6
    }

    open spec fn spec_data_size() -> DataSize {
        DataSize::Fixed(6)
    }

    open spec fn spec_alignment() -> MSize {
        6
    }

    open spec fn spec_decodes(data: Seq<u8>, value: Self) -> bool {
        &&& value.a == spec_u16_from_le_bytes(data.subrange(0, 2))
        &&& value.b == spec_u32_from_le_bytes(data.subrange(2, 6))
    }

    open spec fn spec_decode_error(data: Seq<u8>) -> Option<MemoryError> {
        pair_error(data)
    }

    fn data_size() -> (r: DataSize) {
        DataSize::Fixed(6)
    }

    fn alignment() -> (r: MSize) {
        6
    }

    fn encode(&self) -> (r: Vec<u8>) {
        encode_pair(self.a, self.b)
    }

    fn decode(data: &[u8]) -> (r: Result<Self, MemoryError>) {
        let (a, b) = decode_pair(data)?;
        Ok(FixedSizeData { a, b })
    }

    fn size(&self) -> (r: MSize) {
        6
    }
}

/// Two integers stored in six bytes, with the default alignment of dynamic data.
#[derive(Debug, Clone, Copy, PartialEq, Eq)]
pub struct DataWithAlignment {
    pub a: u16,
    pub b: u32,
}

impl Encode for DataWithAlignment {
    open spec fn spec_encode(&self) -> Seq<u8> {
        pair_bytes(self.a, self.b)
    }

    open spec fn spec_size(&self) -> MSize {
        6
    }

    open spec fn spec_data_size() -> DataSize {
        DataSize::Dynamic
    }

    open spec fn spec_alignment() -> MSize {
        DEFAULT_ALIGNMENT
    }

    open spec fn spec_decodes(data: Seq<u8>, value: Self) -> bool {
        &&& value.a == spec_u16_from_le_bytes(data.subrange(0, 2))
        &&& value.b == spec_u32_from_le_bytes(data.subrange(2, 6))
    }

    open spec fn spec_decode_error(data: Seq<u8>) -> Option<MemoryError> {
        pair_error(data)
    }

    fn data_size() -> (r: DataSize) {
        DataSize::Dynamic
    }

    fn alignment() -> (r: MSize) {
        DEFAULT_ALIGNMENT
    }

    fn encode(&self) -> (r: Vec<u8>) {
        encode_pair(self.a, self.b)
    }

    fn decode(data: &[u8]) -> (r: Result<Self, MemoryError>) {
        let (a, b) = decode_pair(data)?;
        Ok(DataWithAlignment { a, b })
    }

    fn size(&self) -> (r: MSize) {
        6
    }
}

/// A small record of three bytes: `a`, then `b` little-endian.
#[derive(Debug, Clone, Copy, PartialEq, Eq)]
pub struct ShortRecord {
    pub a: u8,
    pub b: u16,
}

impl Encode for ShortRecord {
    open spec fn spec_encode(&self) -> Seq<u8> {
        seq![self.a] + spec_u16_to_le_bytes(self.b)
    }

    open spec fn spec_size(&self) -> MSize {
        3
    }

    open spec fn spec_data_size() -> DataSize {
        DataSize::Fixed(3)
    }

    open spec fn spec_alignment() -> MSize {
        3
    }

    open spec fn spec_decodes(data: Seq<u8>, value: Self) -> bool {
        &&& value.a == data[0]
        &&& value.b == spec_u16_from_le_bytes(data.subrange(1, 3))
    }

    /// Exactly three bytes decode.
    open spec fn spec_decode_error(data: Seq<u8>) -> Option<MemoryError> {
        if data.len() != 3 {
            Some(MemoryError::DecodeError(DecodeError::TooShort))
        } else {
            None
        }
    }

    fn data_size() -> (r: DataSize) {
        DataSize::Fixed(3)
    }

    fn alignment() -> (r: MSize) {
        3
    }

    fn encode(&self) -> (r: Vec<u8>) {
        let mut buf: Vec<u8> = Vec::new();
        buf.push(self.a);
        let mut b = u16_to_le_bytes(self.b);
        buf.append(&mut b);
        buf
    }

    fn decode(data: &[u8]) -> (r: Result<Self, MemoryError>) {
        if data.len() != 3 {
            return Err(MemoryError::DecodeError(DecodeError::TooShort));
        }
        let a = data[0];
        let b = u16_from_le_bytes(slice_subrange(data, 1, 3));
        Ok(ShortRecord { a, b })
    }

    fn size(&self) -> (r: MSize) {
        3
    }
}

/// A record of 100 bytes.
#[derive(Debug, Clone, Copy)]
pub struct TestRecord {
    pub data: [u8; 100],
}

impl Encode for TestRecord {
    open spec fn spec_encode(&self) -> Seq<u8> {
        self.data@
    }

    open spec fn spec_size(&self) -> MSize {
        100
    }

    open spec fn spec_data_size() -> DataSize {
        DataSize::Fixed(100)
    }

    open spec fn spec_alignment() -> MSize {
        100
    }

    open spec fn spec_decodes(data: Seq<u8>, value: Self) -> bool {
        value.data@ == data.subrange(0, 100)
    }

    open spec fn spec_decode_error(data: Seq<u8>) -> Option<MemoryError> {
        if data.len() < 100 {
            Some(MemoryError::DecodeError(DecodeError::TooShort))
        } else {
            None
        }
    }

    fn data_size() -> (r: DataSize) {
        DataSize::Fixed(100)
    }

    fn alignment() -> (r: MSize) {
        100
    }

    fn encode(&self) -> (r: Vec<u8>) {
        slice_to_vec(array_as_slice(&self.data))
    }

    fn decode(data: &[u8]) -> (r: Result<Self, MemoryError>) {
        if data.len() < 100 {
            return Err(MemoryError::DecodeError(DecodeError::TooShort));
        }
        let mut record = TestRecord { data: [0u8; 100] };
        let mut i: usize = 0;
        while i < 100
            invariant
                i <= 100,
                data@.len() >= 100,
                forall|j: int| 0 <= j < i ==> record.data@[j] == data@[j],
            decreases 100 - i,
        {
            record.data[i] = data[i];
            i = i + 1;
        }
        assert(record.data@ =~= data@.subrange(0, 100));
        Ok(record)
    }

    fn size(&self) -> (r: MSize) {
        100
    }
}

/// A record of 200 bytes.
#[derive(Debug, Clone, Copy)]
pub struct BigTestRecord {
    pub data: [u8; 200],
}

impl Encode for BigTestRecord {
    open spec fn spec_encode(&self) -> Seq<u8> {
        self.data@
    }

    open spec fn spec_size(&self) -> MSize {
        200
    }

    open spec fn spec_data_size() -> DataSize {
        DataSize::Fixed(200)
    }

    open spec fn spec_alignment() -> MSize {
        200
    }

    open spec fn spec_decodes(data: Seq<u8>, value: Self) -> bool {
        value.data@ == data.subrange(0, 200)
    }

    open spec fn spec_decode_error(data: Seq<u8>) -> Option<MemoryError> {
        if data.len() < 200 {
            Some(MemoryError::DecodeError(DecodeError::TooShort))
        } else {
            None
        }
    }

    fn data_size() -> (r: DataSize) {
        DataSize::Fixed(200)
    }

    fn alignment() -> (r: MSize) {
        200
    }

    fn encode(&self) -> (r: Vec<u8>) {
        slice_to_vec(array_as_slice(&self.data))
    }

    fn decode(data: &[u8]) -> (r: Result<Self, MemoryError>) {
        if data.len() < 200 {
            return Err(MemoryError::DecodeError(DecodeError::TooShort));
        }
        let mut record = BigTestRecord { data: [0u8; 200] };
        let mut i: usize = 0;
        while i < 200
            invariant
                i <= 200,
                data@.len() >= 200,
                forall|j: int| 0 <= j < i ==> record.data@[j] == data@[j],
            decreases 200 - i,
        {
            record.data[i] = data[i];
            i = i + 1;
        }
        assert(record.data@ =~= data@.subrange(0, 200));
        Ok(record)
    }

    fn size(&self) -> (r: MSize) {
        200
    }
}


/// The value of the first field of `fields` named `name`.
pub open spec fn field_named(fields: Seq<(Seq<char>, Value)>, name: Seq<char>) -> Option<Value>
    decreases fields.len(),
{
    if fields.len() == 0 {
        None
    } else if fields[0].0 == name {
        Some(fields[0].1)
    } else {
        field_named(fields.drop_first(), name)
    }
}

/// The value of the first field named `name`.
pub fn find_field(fields: &Vec<(String, Value)>, name: &str) -> (r: Option<Value>)
    ensures
        r == field_named(named_values_view(fields@), name@),
{
    let ghost view = named_values_view(fields@);
    assert(view.subrange(0, view.len() as int) =~= view);
    let mut i: usize = 0;
    while i < fields.len()
        invariant
            i <= fields@.len(),
            view == named_values_view(fields@),
            field_named(view, name@) == field_named(view.subrange(i as int, view.len() as int), name@),
        decreases fields@.len() - i,
    {
        let ghost rest = view.subrange(i as int, view.len() as int);
        assert(rest.drop_first() =~= view.subrange(i + 1, view.len() as int));
        if str_eq(fields[i].0.as_str(), name) {
            return Some(fields[i].1.clone());
        }
        i = i + 1;
    }
    None
}

/// The `id` column of the users table.
pub open spec fn spec_user_id_column() -> ColumnDef {
    ColumnDef {
        name: "id",
        data_type: DataTypeKind::Uint32,
        nullable: false,
        primary_key: true,
        foreign_key: None,
    }
}

/// The `name` column of the users table.
pub open spec fn spec_user_name_column() -> ColumnDef {
    ColumnDef {
        name: "name",
        data_type: DataTypeKind::Text,
        nullable: false,
        primary_key: false,
        foreign_key: None,
    }
}

/// The `id` column of the users table.
pub fn user_id_column() -> (r: ColumnDef)
    ensures
        r == spec_user_id_column(),
{
    ColumnDef {
        name: "id",
        data_type: DataTypeKind::Uint32,
        nullable: false,
        primary_key: true,
        foreign_key: None,
    }
}

/// The `name` column of the users table.
pub fn user_name_column() -> (r: ColumnDef)
    ensures
        r == spec_user_name_column(),
{
    ColumnDef {
        name: "name",
        data_type: DataTypeKind::Text,
        nullable: false,
        primary_key: false,
        foreign_key: None,
    }
}

/// A user to insert into the users table.
#[derive(Debug, Clone, PartialEq, Eq)]
pub struct UserInsertRequest {
    pub id: Uint32,
    pub name: Text,
}

/// An update of users: the new values, and the condition on the users to update.
#[derive(Debug, Clone, PartialEq, Eq)]
pub struct UserUpdateRequest {
    pub id: Option<Uint32>,
    pub name: Option<Text>,
    pub where_clause: Option<Filter>,
}

/// `r` is the error for a missing field `name`.
pub open spec fn is_missing(r: QueryError, name: Seq<char>) -> bool {
    r matches QueryError::MissingNonNullableField(f) && f@ == name
}

/// `r` is the error for a field holding a value of the wrong type.
pub open spec fn is_invalid(r: QueryError) -> bool {
    r is InvalidQuery
}

impl InsertRecord for UserInsertRequest {
    open spec fn spec_values(&self) -> Seq<(ColumnDef, Value)> {
        seq![
            (spec_user_id_column(), Value::Uint32(self.id)),
            (spec_user_name_column(), Value::Text(self.name)),
        ]
    }

    fn into_values(self) -> (r: Vec<(ColumnDef, Value)>) {
        let mut values: Vec<(ColumnDef, Value)> = Vec::new();
        values.push((user_id_column(), Value::Uint32(self.id)));
        values.push((user_name_column(), Value::Text(self.name)));
        assert(values@ =~= self.spec_values());
        values
    }

    /// Takes `id` from the first field named "id", which must hold an unsigned
    /// 32-bit value, and `name` from the first field named "name", which must
    /// hold a text.
    fn from_untyped(untyped: UntypedInsertRecord) -> (r: Result<Self, QueryError>)
        ensures
            ({
                let fields = named_values_view(untyped.fields@);
                match (field_named(fields, "id"@), field_named(fields, "name"@)) {
                    (Some(Value::Uint32(id)), Some(Value::Text(name))) => r == Ok::<
                        Self,
                        QueryError,
                    >(UserInsertRequest { id, name }),
                    (None, _) => r matches Err(e) && is_missing(e, "id"@),
                    (Some(Value::Uint32(_)), None) => r matches Err(e) && is_missing(e, "name"@),
                    _ => r matches Err(e) && is_invalid(e),
                }
            }),
    {
        let id = match find_field(&untyped.fields, "id") {
            Some(Value::Uint32(id)) => id,
            Some(_) => {
                return Err(QueryError::InvalidQuery(String::from_str("invalid value for field id")));
            },
            None => {
                return Err(QueryError::MissingNonNullableField(String::from_str("id")));
            },
        };
        let name = match find_field(&untyped.fields, "name") {
            Some(Value::Text(name)) => name,
            Some(_) => {
                return Err(
                    QueryError::InvalidQuery(String::from_str("invalid value for field name")),
                );
            },
            None => {
                return Err(QueryError::MissingNonNullableField(String::from_str("name")));
            },
        };
        Ok(UserInsertRequest { id, name })
    }
}

/// The column values of an update of users.
pub open spec fn user_update_values(id: Option<Uint32>, name: Option<Text>) -> Seq<
    (ColumnDef, Value),
> {
    (match id {
        Some(id) => seq![(spec_user_id_column(), Value::Uint32(id))],
        None => Seq::empty(),
    }) + (match name {
        Some(name) => seq![(spec_user_name_column(), Value::Text(name))],
        None => Seq::empty(),
    })
}

impl UpdateRecord for UserUpdateRequest {
    open spec fn spec_update_values(&self) -> Seq<(ColumnDef, Value)> {
        user_update_values(self.id, self.name)
    }

    open spec fn spec_where_clause(&self) -> Option<Filter> {
        self.where_clause
    }

    fn update_values(&self) -> (r: Vec<(ColumnDef, Value)>) {
        let mut values: Vec<(ColumnDef, Value)> = Vec::new();
        if let Some(id) = self.id {
            values.push((user_id_column(), Value::Uint32(id)));
        }
        if let Some(name) = &self.name {
            values.push((user_name_column(), Value::Text(name.clone())));
        }
        assert(values@ =~= self.spec_update_values());
        values
    }

    fn where_clause(&self) -> (r: Option<Filter>) {
        match &self.where_clause {
            Some(filter) => Some(filter.clone()),
            None => None,
        }
    }

    /// Takes `id` and `name` from the first fields so named, if any, which must
    /// hold an unsigned 32-bit value and a text, and the condition as it is.
    fn from_untyped(untyped: UntypedUpdateRecord) -> (r: Result<Self, QueryError>)
        ensures
            ({
                let fields = named_values_view(untyped.update_fields@);
                let id = field_named(fields, "id"@);
                let name = field_named(fields, "name"@);
                if (id is Some && !(id->0 is Uint32)) || (name is Some && !(name->0 is Text)) {
                    r matches Err(e) && is_invalid(e)
                } else {
                    r == Ok::<Self, QueryError>(
                        UserUpdateRequest {
                            id: match id {
                                Some(Value::Uint32(v)) => Some(v),
                                _ => None,
                            },
                            name: match name {
                                Some(Value::Text(v)) => Some(v),
                                _ => None,
                            },
                            where_clause: untyped.where_clause,
                        },
                    )
                }
            }),
    {
        let id = match find_field(&untyped.update_fields, "id") {
            Some(Value::Uint32(id)) => Some(id),
            Some(_) => {
                return Err(QueryError::InvalidQuery(String::from_str("invalid value for field id")));
            },
            None => None,
        };
        let name = match find_field(&untyped.update_fields, "name") {
            Some(Value::Text(name)) => Some(name),
            Some(_) => {
                return Err(
                    QueryError::InvalidQuery(String::from_str("invalid value for field name")),
                );
            },
            None => None,
        };
        Ok(UserUpdateRequest { id, name, where_clause: untyped.where_clause })
    }
}

} // verus!
