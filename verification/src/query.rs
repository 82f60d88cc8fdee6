//! The computing parts of the query engine: which columns a select keeps,
//! which relations it loads, how an update patch applies to a record, and
//! which further updates and deletes follow from a change of primary key or
//! from a delete.

use vstd::prelude::*;
use vstd::string::StringExecFns;

use crate::order::{
    column_value, is_sorted_by, order_keys, order_query_results, stable_sorted_permutation,
    OrderDirection, Row,
};
use crate::record::{Filter, QueryError};
use crate::schema::{
    clone_values, str_eq, value_groups_view, ColumnDef, DataTypeKind, ForeignKeyDef, Value, ValuesSource,
};
use crate::transaction::{DeleteBehavior, IcDbmsError};

verus! {

/// The first column value whose column is the primary key.
pub open spec fn first_primary_key(values: Seq<(ColumnDef, Value)>) -> Option<(ColumnDef, Value)>
    decreases values.len(),
{
    if values.len() == 0 {
        None
    } else if values[0].0.primary_key {
        Some(values[0])
    } else {
        first_primary_key(values.drop_first())
    }
}

/// Finds the first column value whose column is the primary key.
pub fn find_primary_key(values: &[(ColumnDef, Value)]) -> (r: Option<(ColumnDef, Value)>)
    ensures
        r == first_primary_key(values@),
{
    let mut i: usize = 0;
    assert(values@.skip(0) =~= values@);
    while i < values.len()
        invariant
            i <= values@.len(),
            first_primary_key(values@) == first_primary_key(values@.skip(i as int)),
        decreases values@.len() - i,
    {
        assert(values@.skip(i as int).drop_first() =~= values@.skip(i + 1));
        assert(values@.skip(i as int)[0] == values@[i as int]);
        if values[i].0.primary_key {
            return Some((values[i].0, values[i].1.clone()));
        }
        i = i + 1;
    }
    None
}

/// Whether one of `columns` is `name`.
pub open spec fn names_contain(columns: Seq<String>, name: Seq<char>) -> bool {
    exists|k: int| 0 <= k < columns.len() && #[trigger] columns[k]@ == name
}

/// The column values whose column is among `columns`, in order.
pub open spec fn selected_columns(values: Seq<(ColumnDef, Value)>, columns: Seq<String>) -> Seq<
    (ColumnDef, Value),
>
    decreases values.len(),
{
    if values.len() == 0 {
        Seq::empty()
    } else {
        let rest = selected_columns(values.drop_last(), columns);
        if names_contain(columns, values.last().0.name@) {
            rest.push(values.last())
        } else {
            rest
        }
    }
}

/// Whether one of `columns` is `name`.
fn contains_name(columns: &Vec<String>, name: &str) -> (r: bool)
    ensures
        r == names_contain(columns@, name@),
{
    let mut k: usize = 0;
    while k < columns.len()
        invariant
            k <= columns@.len(),
            forall|j: int| 0 <= j < k ==> #[trigger] columns@[j]@ != name@,
        decreases columns@.len() - k,
    {
        if str_eq(columns[k].as_str(), name) {
            return true;
        }
        k = k + 1;
    }
    false
}

/// Keeps the column values whose column is among `columns`, or all of them
/// when `columns` is `None` (every column selected).
pub fn project_columns(values: Vec<(ColumnDef, Value)>, columns: Option<&Vec<String>>) -> (r: Vec<
    (ColumnDef, Value),
>)
    ensures
        r@ == match columns {
            None => values@,
            Some(c) => selected_columns(values@, c@),
        },
{
    match columns {
        None => values,
        Some(cols) => {
            let mut out: Vec<(ColumnDef, Value)> = Vec::new();
            let mut i: usize = 0;
            while i < values.len()
                invariant
                    i <= values@.len(),
                    out@ == selected_columns(values@.subrange(0, i as int), cols@),
                decreases values@.len() - i,
            {
                assert(values@.subrange(0, i + 1).drop_last() =~= values@.subrange(0, i as int));
                if contains_name(cols, values[i].0.name) {
                    out.push((values[i].0, values[i].1.clone()));
                }
                i = i + 1;
            }
            assert(values@.subrange(0, values@.len() as int) =~= values@);
            out
        },
    }
}

/// The foreign keys into `relation` among the column values, each with its
/// value, in order.
pub open spec fn relation_keys(values: Seq<(ColumnDef, Value)>, relation: Seq<char>) -> Seq<
    (ForeignKeyDef, Value),
>
    decreases values.len(),
{
    if values.len() == 0 {
        Seq::empty()
    } else {
        let rest = relation_keys(values.drop_last(), relation);
        match values.last().0.foreign_key {
            Some(fk) => if fk.foreign_table@ == relation {
                rest.push((fk, values.last().1))
            } else {
                rest
            },
            None => rest,
        }
    }
}

/// The foreign keys into `relation` among the column values, each with its
/// value, in order.
pub fn find_relation_keys(values: &[(ColumnDef, Value)], relation: &str) -> (r: Vec<
    (ForeignKeyDef, Value),
>)
    ensures
        r@ == relation_keys(values@, relation@),
{
    let mut out: Vec<(ForeignKeyDef, Value)> = Vec::new();
    let mut i: usize = 0;
    while i < values.len()
        invariant
            i <= values@.len(),
            out@ == relation_keys(values@.subrange(0, i as int), relation@),
        decreases values@.len() - i,
    {
        assert(values@.subrange(0, i + 1).drop_last() =~= values@.subrange(0, i as int));
        if let Some(fk) = values[i].0.foreign_key {
            if str_eq(fk.foreign_table, relation) {
                out.push((fk, values[i].1.clone()));
            }
        }
        i = i + 1;
    }
    assert(values@.subrange(0, values@.len() as int) =~= values@);
    out
}

/// Whether the column value at `i` is the first one of its column.
pub open spec fn first_of_name(values: Seq<(ColumnDef, Value)>, i: int) -> bool {
    forall|j: int| 0 <= j < i ==> #[trigger] values[j].0.name@ != values[i].0.name@
}

/// The value that the last entry of `patch` for the column `name` gives.
pub open spec fn patch_value(patch: Seq<(ColumnDef, Value)>, name: Seq<char>) -> Option<Value>
    decreases patch.len(),
{
    if patch.len() == 0 {
        None
    } else if patch.last().0.name@ == name {
        Some(patch.last().1)
    } else {
        patch_value(patch.drop_last(), name)
    }
}

/// The column values after a patch: the first value of each column that the
/// patch names takes the last value that the patch gives that column; every
/// other value stays.
pub open spec fn patched(values: Seq<(ColumnDef, Value)>, patch: Seq<(ColumnDef, Value)>) -> Seq<
    (ColumnDef, Value),
> {
    Seq::new(
        values.len(),
        |i: int|
            (values[i].0, match patch_value(patch, values[i].0.name@) {
                Some(v) => if first_of_name(values, i) {
                    v
                } else {
                    values[i].1
                },
                None => values[i].1,
            }),
    )
}

/// Applies an update patch to the column values of a record: each entry of
/// the patch, in order, replaces the value of the first column of its name.
pub fn apply_patch(record_values: &mut Vec<(ColumnDef, Value)>, patch: &[(ColumnDef, Value)])
    ensures
        final(record_values)@ == patched(old(record_values)@, patch@),
{
    let ghost start = record_values@;
    let n = record_values.len();
    let mut j: usize = 0;
    assert(record_values@ =~= patched(start, patch@.subrange(0, 0)));
    while j < patch.len()
        invariant
            j <= patch@.len(),
            n == start.len(),
            record_values@ == patched(start, patch@.subrange(0, j as int)),
        decreases patch@.len() - j,
    {
        let ghost before = record_values@;
        let ghost sub = patch@.subrange(0, j as int);
        let ghost sub1 = patch@.subrange(0, j + 1);
        assert(sub1.drop_last() =~= sub);
        assert(sub1.last() == patch@[j as int]);
        let (col, value) = &patch[j];
        let mut i: usize = 0;
        loop
            invariant
                i <= n,
                n == record_values@.len(),
                record_values@ == before,
                forall|k: int| 0 <= k < i ==> #[trigger] before[k].0.name@ != col.name@,
            ensures
                i <= n,
                forall|k: int| 0 <= k < i ==> #[trigger] before[k].0.name@ != col.name@,
                i < n ==> before[i as int].0.name@ == col.name@,
            decreases n - i,
        {
            if i == n {
                break;
            }
            if str_eq(record_values[i].0.name, col.name) {
                break;
            }
            i = i + 1;
        }
        if i < n {
            let c = record_values[i].0;
            record_values.set(i, (c, value.clone()));
        }
        proof {
            assert forall|k: int| 0 <= k < n implies #[trigger] record_values@[k] == patched(
                start,
                sub1,
            )[k] by {
                assert(before[k] == patched(start, sub)[k]);
                assert(before[k].0 == start[k].0);
                if k < i {
                    assert(start[k].0.name@ != col.name@);
                } else if k == i {
                    assert forall|t: int| 0 <= t < k implies #[trigger] start[t].0.name@
                        != start[k].0.name@ by {
                        assert(before[t].0 == patched(start, sub)[t].0);
                    }
                } else if start[k].0.name@ == col.name@ && i < n {
                    assert(before[i as int].0 == patched(start, sub)[i as int].0);
                    assert(!first_of_name(start, k));
                }
            }
            assert(record_values@ =~= patched(start, sub1));
        }
        j = j + 1;
    }
    assert(patch@.subrange(0, patch@.len() as int) =~= patch@);
}

/// The definition of the column `column` that references the primary key
/// `pk_name` of `table`.
pub open spec fn referencing_column_def(
    table: &'static str,
    pk_name: &'static str,
    data_type: DataTypeKind,
    column: &'static str,
) -> ColumnDef {
    ColumnDef {
        name: column,
        data_type,
        nullable: false,
        primary_key: false,
        foreign_key: Some(
            ForeignKeyDef { foreign_table: table, foreign_column: pk_name, local_column: column },
        ),
    }
}

/// The updates of the columns `columns` of `ref_table` that follow a change of
/// the primary key `pk_name` of `table` from `old_pk` to `new_pk`: each is the
/// table, the patch and the filter of one update.
pub open spec fn column_pk_updates(
    table: &'static str,
    pk_name: &'static str,
    data_type: DataTypeKind,
    old_pk: Value,
    new_pk: Value,
    ref_table: &'static str,
    columns: Seq<&'static str>,
) -> Seq<(&'static str, (ColumnDef, Value), Filter)> {
    columns.map_values(
        |c: &'static str|
            (
                ref_table,
                (referencing_column_def(table, pk_name, data_type, c), new_pk),
                Filter::Eq(c, old_pk),
            ),
    )
}

/// The updates of all the referencing columns that follow a change of the
/// primary key `pk_name` of `table`, table by table, column by column.
pub open spec fn pk_updates(
    table: &'static str,
    pk_name: &'static str,
    data_type: DataTypeKind,
    old_pk: Value,
    new_pk: Value,
    referencing: Seq<(&'static str, Vec<&'static str>)>,
) -> Seq<(&'static str, (ColumnDef, Value), Filter)>
    decreases referencing.len(),
{
    if referencing.len() == 0 {
        Seq::empty()
    } else {
        pk_updates(table, pk_name, data_type, old_pk, new_pk, referencing.drop_last())
            + column_pk_updates(
            table,
            pk_name,
            data_type,
            old_pk,
            new_pk,
            referencing.last().0,
            referencing.last().1@,
        )
    }
}

/// The updates that a change of the primary key `pk_name` of `table` from
/// `old_pk` to `new_pk` calls for in the tables that reference it: for each
/// referencing table and column, in order, the table, a patch setting the
/// column to `new_pk`, and a filter on the column equal to `old_pk`.
pub fn pk_update_patches(
    table: &'static str,
    pk_name: &'static str,
    data_type: DataTypeKind,
    old_pk: &Value,
    new_pk: &Value,
    referencing: &[(&'static str, Vec<&'static str>)],
) -> (r: Vec<(&'static str, (ColumnDef, Value), Filter)>)
    ensures
        r@ == pk_updates(table, pk_name, data_type, *old_pk, *new_pk, referencing@),
{
    let mut out: Vec<(&'static str, (ColumnDef, Value), Filter)> = Vec::new();
    let mut t: usize = 0;
    while t < referencing.len()
        invariant
            t <= referencing@.len(),
            out@ == pk_updates(
                table,
                pk_name,
                data_type,
                *old_pk,
                *new_pk,
                referencing@.subrange(0, t as int),
            ),
        decreases referencing@.len() - t,
    {
        let ghost before = out@;
        let (ref_table, columns) = &referencing[t];
        let mut c: usize = 0;
        while c < columns.len()
            invariant
                c <= columns@.len(),
                out@ == before + column_pk_updates(
                    table,
                    pk_name,
                    data_type,
                    *old_pk,
                    *new_pk,
                    *ref_table,
                    columns@.subrange(0, c as int),
                ),
            decreases columns@.len() - c,
        {
            let column = columns[c];
            let def = ColumnDef {
                name: column,
                data_type,
                nullable: false,
                primary_key: false,
                foreign_key: Some(
                    ForeignKeyDef {
                        foreign_table: table,
                        foreign_column: pk_name,
                        local_column: column,
                    },
                ),
            };
            out.push((*ref_table, (def, new_pk.clone()), Filter::Eq(column, old_pk.clone())));
            proof {
                assert(columns@.subrange(0, c + 1) =~= columns@.subrange(0, c as int).push(
                    column,
                ));
                assert(out@ =~= before + column_pk_updates(
                    table,
                    pk_name,
                    data_type,
                    *old_pk,
                    *new_pk,
                    *ref_table,
                    columns@.subrange(0, c + 1),
                ));
            }
            c = c + 1;
        }
        proof {
            assert(columns@.subrange(0, columns@.len() as int) =~= columns@);
            assert(referencing@.subrange(0, t + 1).drop_last() =~= referencing@.subrange(
                0,
                t as int,
            ));
        }
        t = t + 1;
    }
    assert(referencing@.subrange(0, referencing@.len() as int) =~= referencing@);
    out
}

/// The referencing table and column of each reference, table by table.
pub open spec fn reference_columns(referencing: Seq<(&'static str, Vec<&'static str>)>) -> Seq<
    (&'static str, &'static str),
>
    decreases referencing.len(),
{
    if referencing.len() == 0 {
        Seq::empty()
    } else {
        reference_columns(referencing.drop_last()) + referencing.last().1@.map_values(
            |c: &'static str| (referencing.last().0, c),
        )
    }
}

/// The deletes that a cascading delete of a record calls for in the tables
/// that reference it: for each referencing table and column, in order, the
/// table and a filter on the column equal to the record's primary key.
/// A record without a primary key column cannot be followed: that is an
/// unknown column error, naming the first referencing column, when there is
/// one.
pub fn cascade_delete_filters(
    record_values: &[(ColumnDef, Value)],
    referencing: &[(&'static str, Vec<&'static str>)],
) -> (r: Result<Vec<(&'static str, Filter)>, QueryError>)
    ensures
        match first_primary_key(record_values@) {
            Some(pk) => r matches Ok(v) && v@ == reference_columns(referencing@).map_values(
                |t: (&'static str, &'static str)| (t.0, Filter::Eq(t.1, pk.1)),
            ),
            None => if reference_columns(referencing@).len() == 0 {
                r matches Ok(v) && v@.len() == 0
            } else {
                r matches Err(QueryError::UnknownColumn(m)) && m@ == reference_columns(
                    referencing@,
                )[0].1@
            },
        },
{
    let pk = find_primary_key(record_values);
    let mut out: Vec<(&'static str, Filter)> = Vec::new();
    let mut t: usize = 0;
    while t < referencing.len()
        invariant
            t <= referencing@.len(),
            pk == first_primary_key(record_values@),
            pk is Some ==> out@ == reference_columns(referencing@.subrange(0, t as int)).map_values(
                |x: (&'static str, &'static str)| (x.0, Filter::Eq(x.1, pk.unwrap().1)),
            ),
            pk is None ==> reference_columns(referencing@.subrange(0, t as int)).len() == 0,
            pk is None ==> out@.len() == 0,
        decreases referencing@.len() - t,
    {
        let ghost done = reference_columns(referencing@.subrange(0, t as int));
        let (table, columns) = &referencing[t];
        proof {
            assert(referencing@.subrange(0, t + 1).drop_last() =~= referencing@.subrange(
                0,
                t as int,
            ));
            lemma_reference_columns_prefix(referencing@, t as int);
        }
        let mut c: usize = 0;
        while c < columns.len()
            invariant
                c <= columns@.len(),
                t < referencing@.len(),
                *table == referencing@[t as int].0,
                columns@ == referencing@[t as int].1@,
                done == reference_columns(referencing@.subrange(0, t as int)),
                pk == first_primary_key(record_values@),
                pk is Some ==> out@ == (done + columns@.subrange(0, c as int).map_values(
                    |col: &'static str| (*table, col),
                )).map_values(|x: (&'static str, &'static str)| (x.0, Filter::Eq(x.1, pk.unwrap().1))),
                pk is None ==> done.len() == 0,
                pk is None ==> c == 0,
                pk is None ==> out@.len() == 0,
            decreases columns@.len() - c,
        {
            let column = columns[c];
            match &pk {
                Some((_, value)) => {
                    out.push((*table, Filter::Eq(column, value.clone())));
                    proof {
                        assert(columns@.subrange(0, c + 1).map_values(
                            |col: &'static str| (*table, col),
                        ) =~= columns@.subrange(0, c as int).map_values(
                            |col: &'static str| (*table, col),
                        ).push((*table, column)));
                        assert(out@ =~= (done + columns@.subrange(0, c + 1).map_values(
                            |col: &'static str| (*table, col),
                        )).map_values(
                            |x: (&'static str, &'static str)| (x.0, Filter::Eq(x.1, pk.unwrap().1)),
                        ));
                    }
                },
                None => {
                    proof {
                        lemma_reference_columns_prefix(referencing@, t as int);
                        let upto = reference_columns(referencing@.subrange(0, t + 1));
                        let mine = columns@.map_values(|col: &'static str| (*table, col));
                        assert(*table == referencing@[t as int].0);
                        assert(columns@ == referencing@[t as int].1@);
                        assert(upto == done + mine);
                        assert(upto[0] == mine[0]);
                        assert(reference_columns(referencing@)[0] == upto[0]);
                    }
                    return Err(QueryError::UnknownColumn(String::from_str(column)));
                },
            }
            c = c + 1;
        }
        proof {
            assert(columns@.subrange(0, columns@.len() as int) =~= columns@);
            lemma_reference_columns_prefix(referencing@, t as int);
            assert(*table == referencing@[t as int].0);
            assert(columns@ == referencing@[t as int].1@);
            if pk is None {
                assert(columns@.len() == 0);
                assert(reference_columns(referencing@.subrange(0, t + 1)) =~= done);
            }
        }
        t = t + 1;
    }
    assert(referencing@.subrange(0, referencing@.len() as int) =~= referencing@);
    Ok(out)
}

/// The references of the first tables come first among all of them.
proof fn lemma_reference_columns_prefix(
    referencing: Seq<(&'static str, Vec<&'static str>)>,
    t: int,
)
    requires
        0 <= t < referencing.len(),
    ensures
        reference_columns(referencing.subrange(0, t + 1)) == reference_columns(
            referencing.subrange(0, t),
        ) + referencing[t].1@.map_values(|c: &'static str| (referencing[t].0, c)),
        reference_columns(referencing.subrange(0, t)).len() + referencing[t].1@.len()
            <= reference_columns(referencing).len(),
        forall|k: int|
            0 <= k < reference_columns(referencing.subrange(0, t + 1)).len() ==> #[trigger]
            reference_columns(referencing)[k] == reference_columns(referencing.subrange(0, t + 1))[k],
    decreases referencing.len(),
{
    assert(referencing.subrange(0, t + 1).drop_last() =~= referencing.subrange(0, t));
    if t + 1 < referencing.len() {
        lemma_reference_columns_prefix(referencing.drop_last(), t);
        assert(referencing.drop_last().subrange(0, t + 1) =~= referencing.subrange(0, t + 1));
        assert(referencing.drop_last().subrange(0, t) =~= referencing.subrange(0, t));
    } else {
        assert(referencing.subrange(0, t + 1) =~= referencing);
    }
}

/// The sum of counts.
pub open spec fn total(counts: Seq<u64>) -> int
    decreases counts.len(),
{
    if counts.len() == 0 {
        0
    } else {
        total(counts.drop_last()) + counts.last()
    }
}

/// What a delete of the records matching its filter comes to, from the number
/// of referencing records removed with each of them, in order: with
/// [`DeleteBehavior::Cascade`] the count of the records and of those removed
/// with them; with [`DeleteBehavior::Restrict`] the count of the records, or a
/// foreign key constraint violation naming `table` and its primary key
/// `pk_name` when a record was referenced; with [`DeleteBehavior::Break`] the
/// count of the records.
pub fn delete_outcome(
    behaviour: DeleteBehavior,
    table: &str,
    pk_name: &str,
    referencing_removed: &[u64],
) -> (r: Result<u64, QueryError>)
    requires
        behaviour == DeleteBehavior::Cascade ==> referencing_removed@.len() + total(
            referencing_removed@,
        ) <= u64::MAX,
        referencing_removed@.len() <= u64::MAX,
    ensures
        match behaviour {
            DeleteBehavior::Cascade => r matches Ok(n) && n == referencing_removed@.len() + total(
                referencing_removed@,
            ),
            DeleteBehavior::Restrict => if exists|k: int|
                0 <= k < referencing_removed@.len() && #[trigger] referencing_removed@[k] > 0 {
                r matches Err(QueryError::ForeignKeyConstraintViolation { referencing_table, field })
                    && referencing_table@ == table@ && field@ == pk_name@
            } else {
                r matches Ok(n) && n == referencing_removed@.len()
            },
            DeleteBehavior::Break => r matches Ok(n) && n == referencing_removed@.len(),
        },
{
    let mut count: u64 = referencing_removed.len() as u64;
    let mut i: usize = 0;
    while i < referencing_removed.len()
        invariant
            i <= referencing_removed@.len(),
            behaviour == DeleteBehavior::Cascade ==> referencing_removed@.len() + total(
                referencing_removed@,
            ) <= u64::MAX,
            behaviour == DeleteBehavior::Cascade ==> count == referencing_removed@.len() + total(
                referencing_removed@.subrange(0, i as int),
            ),
            behaviour != DeleteBehavior::Cascade ==> count == referencing_removed@.len(),
            behaviour == DeleteBehavior::Restrict ==> forall|k: int|
                0 <= k < i ==> #[trigger] referencing_removed@[k] == 0,
        decreases referencing_removed@.len() - i,
    {
        let removed = referencing_removed[i];
        proof {
            assert(referencing_removed@.subrange(0, i + 1).drop_last()
                =~= referencing_removed@.subrange(0, i as int));
            lemma_total_prefix(referencing_removed@, i + 1);
        }
        match behaviour {
            DeleteBehavior::Cascade => {
                count = count + removed;
            },
            DeleteBehavior::Restrict => {
                if removed > 0 {
                    return Err(
                        QueryError::ForeignKeyConstraintViolation {
                            referencing_table: String::from_str(table),
                            field: String::from_str(pk_name),
                        },
                    );
                }
            },
            DeleteBehavior::Break => {},
        }
        i = i + 1;
    }
    assert(referencing_removed@.subrange(0, referencing_removed@.len() as int)
        =~= referencing_removed@);
    Ok(count)
}

/// A prefix of counts sums to no more than all of them.
proof fn lemma_total_prefix(counts: Seq<u64>, i: int)
    requires
        0 <= i <= counts.len(),
    ensures
        total(counts.subrange(0, i)) <= total(counts),
    decreases counts.len(),
{
    if i < counts.len() {
        lemma_total_prefix(counts.drop_last(), i);
        assert(counts.drop_last().subrange(0, i) =~= counts.subrange(0, i));
    } else {
        assert(counts.subrange(0, i) =~= counts);
    }
}

/// The positions of the matching records, in order.
pub open spec fn matching_indices(matched: Seq<bool>) -> Seq<int>
    decreases matched.len(),
{
    if matched.len() == 0 {
        Seq::empty()
    } else {
        let rest = matching_indices(matched.drop_last());
        if matched.last() {
            rest.push(matched.len() - 1)
        } else {
            rest
        }
    }
}

/// The part of `s` that a select returns: it skips the first `offset` items
/// and returns at most `limit` of the rest.
pub open spec fn window(s: Seq<int>, offset: Option<usize>, limit: Option<usize>) -> Seq<int> {
    let start: int = match offset {
        Some(o) => if o < s.len() {
            o as int
        } else {
            s.len() as int
        },
        None => 0,
    };
    let rest = s.subrange(start, s.len() as int);
    match limit {
        Some(l) => if l < rest.len() {
            rest.take(l as int)
        } else {
            rest
        },
        None => rest,
    }
}

/// The positions of the matching records come in the order of the records,
/// and those of a prefix of the records come first.
proof fn lemma_matching_prefix(matched: Seq<bool>, i: int)
    requires
        0 <= i <= matched.len(),
    ensures
        matching_indices(matched.subrange(0, i)).len() <= matching_indices(matched).len(),
        forall|k: int|
            0 <= k < matching_indices(matched.subrange(0, i)).len() ==> #[trigger] matching_indices(
                matched,
            )[k] == matching_indices(matched.subrange(0, i))[k],
    decreases matched.len(),
{
    if i < matched.len() {
        lemma_matching_prefix(matched.drop_last(), i);
        assert(matched.drop_last().subrange(0, i) =~= matched.subrange(0, i));
    } else {
        assert(matched.subrange(0, i) =~= matched);
    }
}

/// Where the returned part of `count` matching records starts.
pub open spec fn window_start(offset: Option<usize>, count: int) -> int {
    match offset {
        Some(o) => if o < count {
            o as int
        } else {
            count
        },
        None => 0,
    }
}

/// Positions seen as integers.
pub open spec fn positions(v: Seq<usize>) -> Seq<int> {
    v.map_values(|x: usize| x as int)
}

/// Which of the records a select returns, by position: those that matched its
/// filter, in order, skipping the first `offset` of them and taking at most
/// `limit` of the rest.
pub fn select_window(matched: &[bool], offset: Option<usize>, limit: Option<usize>) -> (r: Vec<
    usize,
>)
    ensures
        positions(r@) == window(matching_indices(matched@), offset, limit),
{
    let ghost all = matching_indices(matched@);
    let n = matched.len();
    let mut results: Vec<usize> = Vec::new();
    let mut count: usize = 0;
    let mut i: usize = 0;
    let mut done = false;
    while i < n && !done
        invariant
            i <= n,
            n == matched@.len(),
            count == matching_indices(matched@.subrange(0, i as int)).len(),
            count <= i,
            positions(results@) == matching_indices(matched@.subrange(0, i as int)).subrange(
                window_start(offset, count as int),
                count as int,
            ),
            limit is Some ==> results@.len() <= limit.unwrap(),
            done ==> limit is Some && results@.len() == limit.unwrap(),
        decreases n - i + (if done {
            0int
        } else {
            1int
        }),
    {
        if match limit {
            Some(l) => results.len() >= l,
            None => false,
        } {
            done = true;
        } else {
            let ghost c0 = count;
            let ghost v0 = positions(results@);
            let ghost m0 = matching_indices(matched@.subrange(0, i as int));
            proof {
                assert(matched@.subrange(0, i + 1).drop_last() =~= matched@.subrange(
                    0,
                    i as int,
                ));
            }
            if matched[i] {
                count = count + 1;
                let skipped = match offset {
                    Some(o) => count <= o,
                    None => false,
                };
                let ghost m1 = matching_indices(matched@.subrange(0, i + 1));
                assert(m1 == m0.push(i as int));
                if !skipped {
                    results.push(i);
                    proof {
                        let s0 = window_start(offset, c0 as int);
                        let s1 = window_start(offset, count as int);
                        assert(s0 == s1);
                        assert(positions(results@) =~= v0.push(i as int));
                        assert(positions(results@) =~= m1.subrange(s1, count as int));
                    }
                } else {
                    proof {
                        assert(window_start(offset, c0 as int) == c0);
                        assert(window_start(offset, count as int) == count);
                        assert(positions(results@) =~= m1.subrange(count as int, count as int));
                    }
                }
            } else {
                proof {
                    assert(matching_indices(matched@.subrange(0, i + 1)) == m0);
                }
            }
            i = i + 1;
        }
    }
    proof {
        lemma_matching_prefix(matched@, i as int);
        let view = positions(results@);
        let st = window_start(offset, count as int);
        let rest = all.subrange(window_start(offset, all.len() as int), all.len() as int);
        if done {
            if limit.unwrap() > 0 {
                assert(st == offset.unwrap() || offset is None);
                assert(window_start(offset, all.len() as int) == st);
                assert(view =~= rest.take(limit.unwrap() as int));
            } else {
                assert(view =~= rest.take(0));
            }
        } else {
            assert(matched@.subrange(0, i as int) =~= matched@);
            assert(view =~= rest);
        }
        assert(view =~= window(all, offset, limit));
    }
    results
}

/// Pages follow each other: the page of `s` records from `offset` followed by
/// the page of `t` records from `offset + s` is the page of `s + t` records from
/// `offset`.
pub proof fn lemma_consecutive_pages(matched: Seq<bool>, offset: usize, s: usize, t: usize)
    requires
        offset + s <= usize::MAX,
        s + t <= usize::MAX,
    ensures
        window(matching_indices(matched), Some(offset), Some(s)) + window(
            matching_indices(matched),
            Some((offset + s) as usize),
            Some(t),
        ) == window(matching_indices(matched), Some(offset), Some((s + t) as usize)),
{
    let m = matching_indices(matched);
    let len = m.len() as int;
    let a = if offset < len { offset as int } else { len };
    let b = if offset + s < len { offset + s } else { len };
    let c = if offset + s + t < len { offset + s + t } else { len };
    assert(window(m, Some(offset), Some(s)) =~= m.subrange(a, b));
    assert(window(m, Some((offset + s) as usize), Some(t)) =~= m.subrange(b, c));
    assert(window(m, Some(offset), Some((s + t) as usize)) =~= m.subrange(a, c));
    assert(m.subrange(a, b) + m.subrange(b, c) =~= m.subrange(a, c));
}

/// The value of the first column named `column`.
fn find_column_value(cols: &Vec<(ColumnDef, Value)>, column: &str) -> (r: Option<Value>)
    ensures
        r == column_value(cols@, column@),
{
    let mut c: usize = 0;
    assert(cols@.skip(0) =~= cols@);
    while c < cols.len()
        invariant
            c <= cols@.len(),
            column_value(cols@, column@) == column_value(cols@.skip(c as int), column@),
        decreases cols@.len() - c,
    {
        assert(cols@.skip(c as int).drop_first() =~= cols@.skip(c + 1));
        assert(cols@.skip(c as int)[0] == cols@[c as int]);
        if str_eq(cols[c].0.name, column) {
            return Some(cols[c].1.clone());
        }
        c = c + 1;
    }
    None
}

/// The primary key values of records, in order: for each record, the value of
/// its first column named `pk`, which every record has.
pub fn primary_key_values(records: &[Vec<(ColumnDef, Value)>], pk: &str) -> (r: Vec<Value>)
    requires
        forall|k: int|
            0 <= k < records@.len() ==> #[trigger] column_value(records@[k]@, pk@) is Some,
    ensures
        r@.len() == records@.len(),
        forall|k: int|
            0 <= k < records@.len() ==> Some(#[trigger] r@[k]) == column_value(records@[k]@, pk@),
{
    let mut out: Vec<Value> = Vec::new();
    let mut i: usize = 0;
    while i < records.len()
        invariant
            i <= records@.len(),
            out@.len() == i,
            forall|k: int|
                0 <= k < records@.len() ==> #[trigger] column_value(records@[k]@, pk@) is Some,
            forall|k: int| 0 <= k < i ==> Some(#[trigger] out@[k]) == column_value(records@[k]@, pk@),
        decreases records@.len() - i,
    {
        let value = find_column_value(&records[i], pk);
        assert(column_value(records@[i as int]@, pk@) is Some);
        match value {
            Some(v) => {
                out.push(v);
            },
            None => {
                return out;
            },
        }
        i = i + 1;
    }
    out
}

/// A group of column values together with the table they come from.
pub type ValuesGroup = (ValuesSource, Vec<(ColumnDef, Value)>);

/// The columns that a select keeps of a record's values: those named in
/// `columns`, or all of them when `columns` is `None`.
pub open spec fn projection(values: Seq<(ColumnDef, Value)>, columns: Option<&Vec<String>>) -> Seq<
    (ColumnDef, Value),
> {
    match columns {
        Some(c) => selected_columns(values, c@),
        None => values,
    }
}

/// The fetches that loading the relations `relations` of a record calls for:
/// for each relation in order, one for each foreign key into it, with the
/// relation, the key's local column and the key's value.
pub open spec fn relation_fetches(
    values: Seq<(ColumnDef, Value)>,
    relations: Seq<&'static str>,
) -> Seq<(&'static str, &'static str, Value)>
    decreases relations.len(),
{
    if relations.len() == 0 {
        Seq::empty()
    } else {
        relation_fetches(values, relations.drop_last()) + relation_keys(
            values,
            relations.last()@,
        ).map_values(|k: (ForeignKeyDef, Value)| (relations.last(), k.0.local_column, k.1))
    }
}

/// The number of relations, from the first, that have a foreign key into
/// them among the record's values: the position of the first one that has
/// none, or the number of relations when all have one.
pub open spec fn loadable_prefix(values: Seq<(ColumnDef, Value)>, relations: Seq<&'static str>) -> int
    decreases relations.len(),
{
    if relations.len() == 0 {
        0
    } else {
        let f = loadable_prefix(values, relations.drop_last());
        if f < relations.len() - 1 {
            f
        } else if relation_keys(values, relations.last()@).len() == 0 {
            relations.len() - 1
        } else {
            relations.len() as int
        }
    }
}

/// The groups of the fetched results, in order.
pub open spec fn flatten_groups(fetched: Seq<Vec<ValuesGroup>>) -> Seq<
    (ValuesSource, Seq<(ColumnDef, Value)>),
>
    decreases fetched.len(),
{
    if fetched.len() == 0 {
        Seq::empty()
    } else {
        flatten_groups(fetched.drop_last()) + value_groups_view(fetched.last()@)
    }
}

/// The message of the error for a relation that a record has no foreign key
/// into.
pub open spec fn relation_error(relation: Seq<char>, table: Seq<char>) -> Seq<char> {
    "Cannot load relation '"@ + relation + "' for table '"@ + table
        + "': no foreign key found"@
}

/// The first fetches, in order, returned the results `fetched`.
pub open spec fn fetches_returned<
    F: Fn(&'static str, &'static str, Value) -> Result<Vec<ValuesGroup>, IcDbmsError>,
>(
    fetch: F,
    calls: Seq<(&'static str, &'static str, Value)>,
    fetched: Seq<Vec<ValuesGroup>>,
) -> bool {
    &&& fetched.len() <= calls.len()
    &&& forall|k: int| 0 <= k < fetched.len() ==> #[trigger] fetch.ensures(calls[k], Ok(fetched[k]))
}

proof fn lemma_loadable_bound(values: Seq<(ColumnDef, Value)>, relations: Seq<&'static str>)
    ensures
        0 <= loadable_prefix(values, relations) <= relations.len(),
    decreases relations.len(),
{
    if relations.len() > 0 {
        lemma_loadable_bound(values, relations.drop_last());
    }
}

/// The loadable relations of the first `m` relations settle those of all.
proof fn lemma_loadable_prefix(
    values: Seq<(ColumnDef, Value)>,
    relations: Seq<&'static str>,
    m: int,
)
    requires
        0 <= m <= relations.len(),
    ensures
        loadable_prefix(values, relations.take(m)) < m ==> loadable_prefix(values, relations)
            == loadable_prefix(values, relations.take(m)),
        loadable_prefix(values, relations.take(m)) == m ==> loadable_prefix(values, relations)
            >= m,
    decreases relations.len(),
{
    lemma_loadable_bound(values, relations.take(m));
    if m == relations.len() {
        assert(relations.take(m) =~= relations);
    } else {
        lemma_loadable_prefix(values, relations.drop_last(), m);
        assert(relations.drop_last().take(m) =~= relations.take(m));
        lemma_loadable_bound(values, relations.drop_last());
    }
}

/// The fetches for the first `m` relations come first among those for the
/// first `n`.
proof fn lemma_fetches_prefix(
    values: Seq<(ColumnDef, Value)>,
    relations: Seq<&'static str>,
    m: int,
    n: int,
)
    requires
        0 <= m <= n <= relations.len(),
    ensures
        relation_fetches(values, relations.take(m)).len() <= relation_fetches(
            values,
            relations.take(n),
        ).len(),
        forall|j: int|
            0 <= j < relation_fetches(values, relations.take(m)).len() ==> #[trigger] relation_fetches(
                values,
                relations.take(n),
            )[j] == relation_fetches(values, relations.take(m))[j],
    decreases n - m,
{
    if m < n {
        lemma_fetches_prefix(values, relations, m, n - 1);
        assert(relations.take(n).drop_last() =~= relations.take(n - 1));
    }
}

/// The message of the error for a relation that a record has no foreign key
/// into.
fn relation_error_message(relation: &str, table: &str) -> (r: String)
    ensures
        r@ == relation_error(relation@, table@),
{
    let mut m = String::from_str("Cannot load relation '");
    m.append(relation);
    m.append("' for table '");
    m.append(table);
    m.append("': no foreign key found");
    m
}

/// What loading the fields of a record gives when it succeeds: every relation
/// has a foreign key into it among the record's values, and the groups are
/// those that `fetch` returned for the fetches that the relations call for,
/// in order, followed by the record's own values, keeping the columns named
/// in `columns`.
pub open spec fn queried_fields_ok<
    F: Fn(&'static str, &'static str, Value) -> Result<Vec<ValuesGroup>, IcDbmsError>,
>(
    fetch: F,
    values: Seq<(ColumnDef, Value)>,
    columns: Option<&Vec<String>>,
    relations: Seq<&'static str>,
    groups: Seq<ValuesGroup>,
) -> bool {
    &&& loadable_prefix(values, relations) == relations.len()
    &&& exists|fetched: Seq<Vec<ValuesGroup>>|
        {
            &&& #[trigger] fetches_returned(fetch, relation_fetches(values, relations), fetched)
            &&& fetched.len() == relation_fetches(values, relations).len()
            &&& value_groups_view(groups) == flatten_groups(fetched) + seq![
                (ValuesSource::This, projection(values, columns)),
            ]
        }
}

/// What loading the fields of a record of `table` fails with: the error of
/// the first fetch that failed, the fetches before it having returned; or,
/// all the fetches of the relations before it having returned, an invalid
/// query naming the first relation that the record has no foreign key into.
pub open spec fn queried_fields_err<
    F: Fn(&'static str, &'static str, Value) -> Result<Vec<ValuesGroup>, IcDbmsError>,
>(
    fetch: F,
    values: Seq<(ColumnDef, Value)>,
    relations: Seq<&'static str>,
    table: Seq<char>,
    e: IcDbmsError,
) -> bool {
    let calls = relation_fetches(values, relations.take(loadable_prefix(values, relations)));
    ||| exists|fetched: Seq<Vec<ValuesGroup>>|
        {
            &&& #[trigger] fetches_returned(fetch, calls, fetched)
            &&& fetched.len() < calls.len()
            &&& fetch.ensures(calls[fetched.len() as int], Err(e))
        }
    ||| {
        &&& loadable_prefix(values, relations) < relations.len()
        &&& exists|fetched: Seq<Vec<ValuesGroup>>|
            #[trigger] fetches_returned(fetch, calls, fetched) && fetched.len() == calls.len()
        &&& e matches IcDbmsError::Query(QueryError::InvalidQuery(m)) && m@ == relation_error(
            relations[loadable_prefix(values, relations)]@,
            table,
        )
    }
}

/// The groups of values that a select returns for one record of `table`:
/// first, for each relation of `eager_relations` in order and each foreign key
/// of the record into it, what `fetch` returns for the relation, the key's
/// local column and its value; then the record's own values, keeping the
/// columns named in `columns` (all of them when `columns` is `None`).
///
/// A relation that the record has no foreign key into is an invalid query; an
/// error of `fetch` is returned as it is. Either stops the loading there.
pub fn select_queried_fields<
    F: Fn(&'static str, &'static str, Value) -> Result<Vec<ValuesGroup>, IcDbmsError>,
>(
    record_values: Vec<(ColumnDef, Value)>,
    columns: Option<&Vec<String>>,
    eager_relations: &[&'static str],
    table: &'static str,
    fetch: &F,
) -> (r: Result<Vec<ValuesGroup>, IcDbmsError>)
    requires
        forall|relation: &'static str, column: &'static str, value: Value| #[trigger]
            fetch.requires((relation, column, value)),
    ensures
        match r {
            Ok(groups) => queried_fields_ok(
                *fetch,
                record_values@,
                columns,
                eager_relations@,
                groups@,
            ),
            Err(e) => queried_fields_err(*fetch, record_values@, eager_relations@, table@, e),
        },
{
    let ghost values = record_values@;
    let ghost rels = eager_relations@;
    let mut queried: Vec<ValuesGroup> = Vec::new();
    let ghost mut fetched: Seq<Vec<ValuesGroup>> = Seq::empty();
    let mut r: usize = 0;
    assert(rels.take(0) =~= Seq::<&'static str>::empty());
    while r < eager_relations.len()
        invariant
            r <= rels.len(),
            values == record_values@,
            rels == eager_relations@,
            forall|relation: &'static str, column: &'static str, value: Value| #[trigger]
                fetch.requires((relation, column, value)),
            loadable_prefix(values, rels.take(r as int)) == r,
            fetches_returned(*fetch, relation_fetches(values, rels.take(r as int)), fetched),
            fetched.len() == relation_fetches(values, rels.take(r as int)).len(),
            value_groups_view(queried@) == flatten_groups(fetched),
        decreases rels.len() - r,
    {
        let relation = eager_relations[r];
        let keys = find_relation_keys(&record_values, relation);
        let ghost before = relation_fetches(values, rels.take(r as int));
        let ghost key_calls = keys@.map_values(
            |x: (ForeignKeyDef, Value)| (relation, x.0.local_column, x.1),
        );
        proof {
            assert(rels.take(r + 1).drop_last() =~= rels.take(r as int));
            assert(rels.take(r + 1).last() == relation);
            assert(relation_fetches(values, rels.take(r + 1)) == before + key_calls);
        }
        let mut k: usize = 0;
        while k < keys.len()
            invariant
                k <= keys@.len(),
                r < rels.len(),
                relation == rels[r as int],
                values == record_values@,
                rels == eager_relations@,
                keys@ == relation_keys(values, relation@),
                key_calls == keys@.map_values(
                    |x: (ForeignKeyDef, Value)| (relation, x.0.local_column, x.1),
                ),
                before == relation_fetches(values, rels.take(r as int)),
                relation_fetches(values, rels.take(r + 1)) == before + key_calls,
                forall|relation: &'static str, column: &'static str, value: Value| #[trigger]
                    fetch.requires((relation, column, value)),
                loadable_prefix(values, rels.take(r as int)) == r,
                fetches_returned(*fetch, before + key_calls.take(k as int), fetched),
                fetched.len() == before.len() + k,
                value_groups_view(queried@) == flatten_groups(fetched),
            decreases keys@.len() - k,
        {
            let (fk, value) = &keys[k];
            let call_value = value.clone();
            assert(key_calls[k as int] == (relation, fk.local_column, call_value));
            let res = fetch(relation, fk.local_column, call_value);
            match res {
                Ok(mut groups) => {
                    let ghost old_queried = queried@;
                    let ghost old_fetched = fetched;
                    proof {
                        let cur = before + key_calls.take(k as int);
                        let next = before + key_calls.take(k + 1);
                        assert(next =~= cur.push(key_calls[k as int]));
                        fetched = fetched.push(groups);
                        assert forall|j: int| 0 <= j < fetched.len() implies #[trigger] (*fetch).ensures(
                            next[j],
                            Ok(fetched[j]),
                        ) by {
                            if j < fetched.len() - 1 {
                                assert(next[j] == cur[j]);
                            }
                        }
                    }
                    queried.append(&mut groups);
                    proof {
                        assert(fetched.drop_last() =~= old_fetched);
                        assert(queried@ == old_queried + fetched.last()@);
                        assert(value_groups_view(queried@) =~= value_groups_view(old_queried)
                            + value_groups_view(fetched.last()@));
                        assert(flatten_groups(fetched) == flatten_groups(old_fetched)
                            + value_groups_view(fetched.last()@));
                    }
                },
                Err(e) => {
                    proof {
                        let cur = before + key_calls.take(k as int);
                        assert(rels.take(r + 1).drop_last() =~= rels.take(r as int));
                        assert(rels.take(r + 1).last() == relation);
                        assert(keys@.len() > 0);
                        assert(loadable_prefix(values, rels.take(r + 1)) == r + 1);
                        lemma_loadable_prefix(values, rels, r + 1);
                        let l = loadable_prefix(values, rels);
                        lemma_loadable_bound(values, rels);
                        lemma_fetches_prefix(values, rels, r + 1, l);
                        let calls = relation_fetches(values, rels.take(l));
                        assert(calls[fetched.len() as int] == (before + key_calls)[fetched.len() as int]);
                        assert forall|j: int| 0 <= j < fetched.len() implies #[trigger] (*fetch).ensures(
                            calls[j],
                            Ok(fetched[j]),
                        ) by {
                            assert(calls[j] == (before + key_calls)[j]);
                            assert(cur[j] == (before + key_calls)[j]);
                        }
                        assert(fetches_returned(*fetch, calls, fetched));
                    }
                    return Err(e);
                },
            }
            k = k + 1;
        }
        if keys.len() == 0 {
            let message = relation_error_message(relation, table);
            proof {
                assert(loadable_prefix(values, rels.take(r + 1)) == r);
                lemma_loadable_prefix(values, rels, r + 1);
                assert(loadable_prefix(values, rels) == r);
                assert(key_calls.len() == 0);
                assert(before + key_calls.take(0) =~= before);
                assert(fetches_returned(*fetch, before, fetched));
            }
            return Err(IcDbmsError::Query(QueryError::InvalidQuery(message)));
        }
        proof {
            assert(key_calls.take(k as int) =~= key_calls);
            assert(loadable_prefix(values, rels.take(r + 1)) == r + 1);
        }
        r = r + 1;
    }
    let projected = project_columns(record_values, columns);
    let ghost old_queried = queried@;
    queried.push((ValuesSource::This, projected));
    proof {
        assert(rels.take(r as int) =~= rels);
        assert(value_groups_view(queried@) =~= value_groups_view(old_queried) + seq![
            (ValuesSource::This, projection(values, columns)),
        ]);
        assert(fetches_returned(*fetch, relation_fetches(values, rels), fetched));
    }
    Ok(queried)
}

/// Loading the fields of a record can succeed.
pub open spec fn record_loads<
    F: Fn(&'static str, &'static str, Value) -> Result<Vec<ValuesGroup>, IcDbmsError>,
>(
    fetch: F,
    values: Seq<(ColumnDef, Value)>,
    columns: Option<&Vec<String>>,
    relations: Seq<&'static str>,
) -> bool {
    exists|g: Row| #[trigger] queried_fields_ok(fetch, values, columns, relations, g@)
}

/// The values of the current table in a row that holds only them.
pub open spec fn row_values(row: Row) -> Seq<(ColumnDef, Value)> {
    row@[0].1@
}

/// Whether a row holds only values of the current table.
pub open spec fn is_record_row(row: Row) -> bool {
    row@.len() == 1 && row@[0].0 == ValuesSource::This
}

/// `rows` are the records that matched, in order, each as a row holding only
/// its values.
pub open spec fn candidate_rows(
    rows: Seq<Row>,
    records: Seq<Vec<(ColumnDef, Value)>>,
    matched: Seq<bool>,
) -> bool {
    &&& rows.len() == matching_indices(matched).len()
    &&& forall|k: int|
        0 <= k < rows.len() ==> is_record_row(#[trigger] rows[k]) && row_values(rows[k])
            == records[matching_indices(matched)[k]]@
}

/// `sorted` holds the records that matched, each as a row holding only its
/// values, ordered by the keys in turn, records of equal values in all of them
/// keeping their order.
pub open spec fn sorted_candidates(
    records: Seq<Vec<(ColumnDef, Value)>>,
    matched: Seq<bool>,
    keys: Seq<(Seq<char>, OrderDirection)>,
    sorted: Seq<Row>,
) -> bool {
    &&& is_sorted_by(sorted, keys)
    &&& exists|rows: Seq<Row>, perm: Seq<int>|
        #[trigger] candidate_rows(rows, records, matched) && #[trigger] stable_sorted_permutation(
            rows,
            sorted,
            perm,
            keys,
        )
}

/// Where the page of `len` ordered records starts.
pub open spec fn page_start(len: int, offset: Option<usize>) -> int {
    match offset {
        Some(o) => if o < len {
            o as int
        } else {
            len
        },
        None => 0,
    }
}

/// Where the page of `len` ordered records ends.
pub open spec fn page_end(len: int, offset: Option<usize>, limit: Option<usize>) -> int {
    match limit {
        Some(l) => if l < len - page_start(len, offset) {
            page_start(len, offset) + l
        } else {
            len
        },
        None => len,
    }
}

/// Pages of the ordered records follow each other: the page of `s` records
/// from `offset` ends where the page from `offset + s` starts, and the page of
/// `s + t` records from `offset` ends where the page of `t` records from
/// `offset + s` ends.
pub proof fn lemma_pages_tile(len: nat, offset: usize, s: usize, t: usize)
    requires
        offset + s <= usize::MAX,
        s + t <= usize::MAX,
    ensures
        page_end(len as int, Some(offset), Some(s)) == page_start(
            len as int,
            Some((offset + s) as usize),
        ),
        page_end(len as int, Some(offset), Some((s + t) as usize)) == page_end(
            len as int,
            Some((offset + s) as usize),
            Some(t),
        ),
        page_start(len as int, Some(offset)) <= page_end(len as int, Some(offset), Some(s)),
{
}

/// The page `start .. end` of the ordered records had its fields loaded into
/// `rows`, in order.
pub open spec fn page_loaded<
    F: Fn(&'static str, &'static str, Value) -> Result<Vec<ValuesGroup>, IcDbmsError>,
>(
    fetch: F,
    sorted: Seq<Row>,
    start: int,
    end: int,
    columns: Option<&Vec<String>>,
    relations: Seq<&'static str>,
    rows: Seq<Row>,
) -> bool {
    &&& rows.len() == end - start
    &&& forall|k: int|
        0 <= k < rows.len() ==> #[trigger] queried_fields_ok(
            fetch,
            row_values(sorted[start + k]),
            columns,
            relations,
            rows[k]@,
        )
}

/// Loading the fields of the ordered record at `k`, in the page
/// `start .. end`, failed with `e`, those of the records of the page before it
/// having been loaded.
pub open spec fn page_failed_at<
    F: Fn(&'static str, &'static str, Value) -> Result<Vec<ValuesGroup>, IcDbmsError>,
>(
    fetch: F,
    sorted: Seq<Row>,
    start: int,
    end: int,
    columns: Option<&Vec<String>>,
    relations: Seq<&'static str>,
    table: Seq<char>,
    k: int,
    e: IcDbmsError,
) -> bool {
    &&& start <= k < end
    &&& queried_fields_err(fetch, row_values(sorted[k]), relations, table, e)
    &&& forall|j: int|
        start <= j < k ==> #[trigger] record_loads(fetch, row_values(sorted[j]), columns, relations)
}

/// The rows that a select on `table` returns from its records, given which of
/// them matched its filter: the matching records are ordered by the columns of
/// `order_by` (see [`order_query_results`]); of them, the first `offset` are
/// skipped and at most `limit` of the rest are kept; each kept record then has
/// its columns selected and its relations loaded (see
/// [`select_queried_fields`]). The first failure to load the fields of a kept
/// record is returned.
pub fn select_records<
    F: Fn(&'static str, &'static str, Value) -> Result<Vec<ValuesGroup>, IcDbmsError>,
>(
    records: &[Vec<(ColumnDef, Value)>],
    matched: &[bool],
    offset: Option<usize>,
    limit: Option<usize>,
    columns: Option<&Vec<String>>,
    eager_relations: &[&'static str],
    order_by: &[(String, OrderDirection)],
    table: &'static str,
    fetch: &F,
) -> (r: Result<Vec<Row>, IcDbmsError>)
    requires
        matched@.len() == records@.len(),
        forall|relation: &'static str, column: &'static str, value: Value| #[trigger]
            fetch.requires((relation, column, value)),
    ensures
        match r {
            Ok(rows) => exists|sorted: Seq<Row>|
                {
                    &&& #[trigger] sorted_candidates(
                        records@,
                        matched@,
                        order_keys(order_by@),
                        sorted,
                    )
                    &&& page_loaded(
                        *fetch,
                        sorted,
                        page_start(sorted.len() as int, offset),
                        page_end(sorted.len() as int, offset, limit),
                        columns,
                        eager_relations@,
                        rows@,
                    )
                },
            Err(e) => exists|sorted: Seq<Row>, k: int|
                {
                    &&& #[trigger] sorted_candidates(
                        records@,
                        matched@,
                        order_keys(order_by@),
                        sorted,
                    )
                    &&& #[trigger] page_failed_at(
                        *fetch,
                        sorted,
                        page_start(sorted.len() as int, offset),
                        page_end(sorted.len() as int, offset, limit),
                        columns,
                        eager_relations@,
                        table@,
                        k,
                        e,
                    )
                },
        },
{
    let mut candidates: Vec<Row> = Vec::new();
    let n = records.len();
    let mut i: usize = 0;
    while i < n
        invariant
            i <= n,
            n == records@.len(),
            matched@.len() == records@.len(),
            candidate_rows(candidates@, records@, matched@.subrange(0, i as int)),
        decreases n - i,
    {
        let ghost before = candidates@;
        let ghost m0 = matching_indices(matched@.subrange(0, i as int));
        proof {
            assert(matched@.subrange(0, i + 1).drop_last() =~= matched@.subrange(0, i as int));
        }
        if matched[i] {
            let values = clone_values(&records[i]);
            let mut row: Row = Vec::new();
            row.push((ValuesSource::This, values));
            candidates.push(row);
            proof {
                let m1 = matching_indices(matched@.subrange(0, i + 1));
                assert(m1 == m0.push(i as int));
                assert forall|k: int| 0 <= k < candidates@.len() implies is_record_row(
                    #[trigger] candidates@[k],
                ) && row_values(candidates@[k]) == records@[m1[k]]@ by {
                    if k < before.len() {
                        assert(candidates@[k] == before[k]);
                        assert(m1[k] == m0[k]);
                    }
                }
            }
        } else {
            proof {
                assert(matching_indices(matched@.subrange(0, i + 1)) == m0);
            }
        }
        i = i + 1;
    }
    assert(matched@.subrange(0, n as int) =~= matched@);
    let ghost unsorted = candidates@;
    let ghost keys = order_keys(order_by@);
    order_query_results(&mut candidates, order_by);
    let ghost sorted = candidates@;
    proof {
        let perm = choose|perm: Seq<int>| stable_sorted_permutation(unsorted, sorted, perm, keys);
        assert(candidate_rows(unsorted, records@, matched@));
        assert(stable_sorted_permutation(unsorted, sorted, perm, keys));
        assert(sorted_candidates(records@, matched@, keys, sorted));
        assert forall|k: int| 0 <= k < sorted.len() implies is_record_row(#[trigger] sorted[k]) by {
            assert(sorted[k] == unsorted[perm[k]]);
        }
    }
    let len = candidates.len();
    let start = match offset {
        Some(o) => if o < len {
            o
        } else {
            len
        },
        None => 0,
    };
    let end = match limit {
        Some(l) => if l < len - start {
            start + l
        } else {
            len
        },
        None => len,
    };
    assert(start == page_start(len as int, offset));
    assert(end == page_end(len as int, offset, limit));
    let mut rows: Vec<Row> = Vec::new();
    let mut k: usize = start;
    while k < end
        invariant
            start <= k <= end <= len,
            len == sorted.len(),
            start == page_start(len as int, offset),
            end == page_end(len as int, offset, limit),
            candidates@ == sorted,
            sorted_candidates(records@, matched@, order_keys(order_by@), sorted),
            forall|j: int| 0 <= j < sorted.len() ==> is_record_row(#[trigger] sorted[j]),
            forall|relation: &'static str, column: &'static str, value: Value| #[trigger]
                fetch.requires((relation, column, value)),
            rows@.len() == k - start,
            forall|j: int|
                0 <= j < rows@.len() ==> #[trigger] queried_fields_ok(
                    *fetch,
                    row_values(sorted[start + j]),
                    columns,
                    eager_relations@,
                    rows@[j]@,
                ),
        decreases end - k,
    {
        assert(is_record_row(sorted[k as int]));
        let values = clone_values(&candidates[k][0].1);
        let ghost values_view = values@;
        assert(values_view == row_values(sorted[k as int]));
        match select_queried_fields(values, columns, eager_relations, table, fetch) {
            Ok(groups) => {
                rows.push(groups);
            },
            Err(e) => {
                proof {
                    assert forall|j: int| start <= j < k implies #[trigger] record_loads(
                        *fetch,
                        row_values(sorted[j]),
                        columns,
                        eager_relations@,
                    ) by {
                        assert(queried_fields_ok(
                            *fetch,
                            row_values(sorted[start + (j - start)]),
                            columns,
                            eager_relations@,
                            rows@[j - start]@,
                        ));
                    }
                    assert(page_failed_at(
                        *fetch,
                        sorted,
                        start as int,
                        end as int,
                        columns,
                        eager_relations@,
                        table@,
                        k as int,
                        e,
                    ));
                }
                return Err(e);
            },
        }
        k = k + 1;
    }
    assert(page_loaded(
        *fetch,
        sorted,
        start as int,
        end as int,
        columns,
        eager_relations@,
        rows@,
    ));
    Ok(rows)
}

/// The entry of the patch at `k`, the last one for its column, gives its
/// value, whatever it is, `Null` included.
proof fn lemma_patch_value_last(patch: Seq<(ColumnDef, Value)>, name: Seq<char>, k: int)
    requires
        0 <= k < patch.len(),
        patch[k].0.name@ == name,
        forall|j: int| k < j < patch.len() ==> #[trigger] patch[j].0.name@ != name,
    ensures
        patch_value(patch, name) == Some(patch[k].1),
    decreases patch.len(),
{
    if k < patch.len() - 1 {
        let d = patch.drop_last();
        assert forall|j: int| k < j < d.len() implies #[trigger] d[j].0.name@ != name by {
            assert(d[j] == patch[j]);
        }
        lemma_patch_value_last(d, name, k);
        assert(d[k] == patch[k]);
    }
}

/// A patch that names no column `name` gives it no value.
proof fn lemma_patch_value_none(patch: Seq<(ColumnDef, Value)>, name: Seq<char>)
    requires
        forall|j: int| 0 <= j < patch.len() ==> #[trigger] patch[j].0.name@ != name,
    ensures
        patch_value(patch, name) is None,
    decreases patch.len(),
{
    if patch.len() > 0 {
        let d = patch.drop_last();
        assert forall|j: int| 0 <= j < d.len() implies #[trigger] d[j].0.name@ != name by {
            assert(d[j] == patch[j]);
        }
        lemma_patch_value_none(d, name);
    }
}

/// What a patch does to the column values of a record: the columns stay in
/// place; the first column of a name that the patch names takes the value of
/// the last entry of the patch for that name, whatever that value is (`Null`
/// included); every other column keeps its value.
pub proof fn lemma_patch_sets_named_columns(
    values: Seq<(ColumnDef, Value)>,
    patch: Seq<(ColumnDef, Value)>,
    i: int,
    k: int,
)
    requires
        0 <= i < values.len(),
    ensures
        patched(values, patch).len() == values.len(),
        patched(values, patch)[i].0 == values[i].0,
        (forall|j: int| 0 <= j < i ==> #[trigger] values[j].0.name@ != values[i].0.name@) && 0 <= k
            < patch.len() && patch[k].0.name@ == values[i].0.name@ && (forall|j: int|
            k < j < patch.len() ==> #[trigger] patch[j].0.name@ != values[i].0.name@)
            ==> patched(values, patch)[i].1 == patch[k].1,
        (forall|j: int| 0 <= j < patch.len() ==> #[trigger] patch[j].0.name@ != values[i].0.name@)
            ==> patched(values, patch)[i].1 == values[i].1,
        (exists|j: int| 0 <= j < i && #[trigger] values[j].0.name@ == values[i].0.name@)
            ==> patched(values, patch)[i].1 == values[i].1,
{
    let name = values[i].0.name@;
    if 0 <= k < patch.len() && patch[k].0.name@ == name && (forall|j: int|
        k < j < patch.len() ==> #[trigger] patch[j].0.name@ != name) {
        lemma_patch_value_last(patch, name, k);
    }
    if forall|j: int| 0 <= j < patch.len() ==> #[trigger] patch[j].0.name@ != name {
        lemma_patch_value_none(patch, name);
    }
}

/// The page of `len` ordered records that an offset and a limit leave starts
/// at the offset, or at the end when the offset is past it, and holds the
/// `limit` records that follow, or all the rest when there are fewer or when
/// there is no limit.
pub proof fn lemma_page_bounds(len: int, offset: Option<usize>, limit: Option<usize>)
    requires
        len >= 0,
    ensures
        page_start(len, offset) == match offset {
            Some(o) => if (o as int) < len {
                o as int
            } else {
                len
            },
            None => 0,
        },
        0 <= page_start(len, offset) <= page_end(len, offset, limit) <= len,
        limit is None ==> page_end(len, offset, limit) == len,
        limit is Some && page_start(len, offset) + limit.unwrap() <= len ==> page_end(
            len,
            offset,
            limit,
        ) - page_start(len, offset) == limit.unwrap(),
        limit is Some && page_start(len, offset) + limit.unwrap() > len ==> page_end(
            len,
            offset,
            limit,
        ) == len,
{
}

/// The positions of the matching records are exactly the positions of the
/// records that matched, in increasing order.
pub proof fn lemma_matching_indices(matched: Seq<bool>)
    ensures
        forall|k: int|
            0 <= k < matching_indices(matched).len() ==> 0 <= #[trigger] matching_indices(
                matched,
            )[k] < matched.len() && matched[matching_indices(matched)[k]],
        forall|j: int, k: int|
            0 <= j < k < matching_indices(matched).len() ==> #[trigger] matching_indices(matched)[j]
                < #[trigger] matching_indices(matched)[k],
        forall|i: int|
            0 <= i < matched.len() && #[trigger] matched[i] ==> matching_indices(matched).contains(
                i,
            ),
    decreases matched.len(),
{
    if matched.len() > 0 {
        let d = matched.drop_last();
        lemma_matching_indices(d);
        let rest = matching_indices(d);
        let m = matching_indices(matched);
        assert forall|k: int| 0 <= k < m.len() implies 0 <= #[trigger] m[k] < matched.len()
            && matched[m[k]] by {
            if k < rest.len() {
                assert(m[k] == rest[k]);
                assert(matched[rest[k]] == d[rest[k]]);
            }
        }
        assert forall|j: int, k: int| 0 <= j < k < m.len() implies #[trigger] m[j] < #[trigger] m[k] by {
            if k < rest.len() {
                assert(m[k] == rest[k] && m[j] == rest[j]);
            } else {
                assert(m[j] == rest[j]);
            }
        }
        assert forall|i: int| 0 <= i < matched.len() && #[trigger] matched[i] implies m.contains(
            i,
        ) by {
            if i < d.len() {
                assert(d[i] == matched[i]);
                let k = choose|k: int| 0 <= k < rest.len() && rest[k] == i;
                assert(m[k] == rest[k]);
            } else {
                assert(m[m.len() - 1] == i);
            }
        }
    }
}

/// The primary key found is the first column value whose column is the
/// primary key; none is found only when no column is the primary key.
pub proof fn lemma_first_primary_key(values: Seq<(ColumnDef, Value)>)
    ensures
        first_primary_key(values) is None ==> forall|i: int|
            0 <= i < values.len() ==> !(#[trigger] values[i]).0.primary_key,
        first_primary_key(values) is Some ==> exists|i: int|
            0 <= i < values.len() && #[trigger] values[i] == first_primary_key(values).unwrap()
                && values[i].0.primary_key && forall|j: int|
                0 <= j < i ==> !(#[trigger] values[j]).0.primary_key,
    decreases values.len(),
{
    if values.len() > 0 {
        let d = values.drop_first();
        lemma_first_primary_key(d);
        if !values[0].0.primary_key {
            assert forall|i: int| 1 <= i < values.len() implies #[trigger] values[i] == d[i - 1] by {}
            if first_primary_key(d) is Some {
                let i = choose|i: int|
                    0 <= i < d.len() && #[trigger] d[i] == first_primary_key(d).unwrap()
                        && d[i].0.primary_key && forall|j: int|
                        0 <= j < i ==> !(#[trigger] d[j]).0.primary_key;
                assert(values[i + 1] == d[i]);
                assert forall|j: int| 0 <= j < i + 1 implies !(#[trigger] values[j]).0.primary_key by {
                    if j > 0 {
                        assert(values[j] == d[j - 1]);
                    }
                }
            } else {
                assert forall|i: int| 0 <= i < values.len() implies !(
                #[trigger] values[i]).0.primary_key by {
                    if i > 0 {
                        assert(values[i] == d[i - 1]);
                    }
                }
            }
        }
    }
}

/// The columns a select keeps are the column values whose column is named in
/// `columns`, all of them, and no others.
pub proof fn lemma_selected_columns(values: Seq<(ColumnDef, Value)>, columns: Seq<String>)
    ensures
        forall|k: int|
            0 <= k < selected_columns(values, columns).len() ==> values.contains(
                #[trigger] selected_columns(values, columns)[k],
            ) && names_contain(columns, selected_columns(values, columns)[k].0.name@),
        forall|i: int|
            0 <= i < values.len() && names_contain(columns, (#[trigger] values[i]).0.name@)
                ==> selected_columns(values, columns).contains(values[i]),
    decreases values.len(),
{
    if values.len() > 0 {
        let d = values.drop_last();
        lemma_selected_columns(d, columns);
        let rest = selected_columns(d, columns);
        let r = selected_columns(values, columns);
        assert forall|k: int| 0 <= k < r.len() implies values.contains(#[trigger] r[k])
            && names_contain(columns, r[k].0.name@) by {
            if k < rest.len() {
                assert(r[k] == rest[k]);
                let j = choose|j: int| 0 <= j < d.len() && d[j] == rest[k];
                assert(values[j] == d[j]);
            } else {
                assert(values[values.len() - 1] == r[k]);
            }
        }
        assert forall|i: int|
            0 <= i < values.len() && names_contain(columns, (#[trigger] values[i]).0.name@)
                implies r.contains(values[i]) by {
            if i < d.len() {
                assert(d[i] == values[i]);
                let k = choose|k: int| 0 <= k < rest.len() && rest[k] == d[i];
                assert(r[k] == rest[k]);
            } else {
                assert(r[r.len() - 1] == values[i]);
            }
        }
    }
}

/// The keys found for a relation are foreign keys into it, each with the value
/// of its column, and every foreign key into it is found.
pub proof fn lemma_relation_keys(values: Seq<(ColumnDef, Value)>, relation: Seq<char>)
    ensures
        forall|k: int|
            0 <= k < relation_keys(values, relation).len() ==> exists|i: int|
                0 <= i < values.len() && (#[trigger] values[i]).0.foreign_key == Some(
                    (#[trigger] relation_keys(values, relation)[k]).0,
                ) && relation_keys(values, relation)[k].0.foreign_table@ == relation
                    && relation_keys(values, relation)[k].1 == values[i].1,
        forall|i: int|
            0 <= i < values.len() && (#[trigger] values[i]).0.foreign_key is Some
                && values[i].0.foreign_key.unwrap().foreign_table@ == relation
                ==> relation_keys(values, relation).contains(
                (values[i].0.foreign_key.unwrap(), values[i].1),
            ),
    decreases values.len(),
{
    if values.len() > 0 {
        let d = values.drop_last();
        lemma_relation_keys(d, relation);
        let rest = relation_keys(d, relation);
        let r = relation_keys(values, relation);
        assert forall|k: int| 0 <= k < r.len() implies exists|i: int|
            0 <= i < values.len() && (#[trigger] values[i]).0.foreign_key == Some(
                (#[trigger] r[k]).0,
            ) && r[k].0.foreign_table@ == relation && r[k].1 == values[i].1 by {
            if k < rest.len() {
                assert(r[k] == rest[k]);
                let i = choose|i: int|
                    0 <= i < d.len() && (#[trigger] d[i]).0.foreign_key == Some(
                        (#[trigger] rest[k]).0,
                    ) && rest[k].0.foreign_table@ == relation && rest[k].1 == d[i].1;
                assert(values[i] == d[i]);
            } else {
                assert(values[values.len() - 1] == values.last());
            }
        }
        assert forall|i: int|
            0 <= i < values.len() && (#[trigger] values[i]).0.foreign_key is Some
                && values[i].0.foreign_key.unwrap().foreign_table@ == relation implies r.contains(
            (values[i].0.foreign_key.unwrap(), values[i].1),
        ) by {
            if i < d.len() {
                assert(d[i] == values[i]);
                let k = choose|k: int|
                    0 <= k < rest.len() && rest[k] == (
                        d[i].0.foreign_key.unwrap(),
                        d[i].1,
                    );
                assert(r[k] == rest[k]);
            } else {
                assert(r[r.len() - 1] == (values[i].0.foreign_key.unwrap(), values[i].1));
            }
        }
    }
}

} // verus!
