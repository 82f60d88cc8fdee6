//! Ordering of query results by the value of a column.
//!
//! Values are ordered first by their kind (in the order of the variants of
//! [`Value`]), then by their content: booleans with `false` first, integers by
//! value, texts by their UTF-8 bytes. A row without the column comes before any
//! row that has it, whatever the direction.

use vstd::prelude::*;
use vstd::utf8::encode_utf8;

use crate::schema::{str_eq, ColumnDef, Int32, Int64, Uint32, Uint64, Value, ValuesSource};

verus! {

/// The direction of an ordering.
#[derive(Debug, Clone, Copy, PartialEq, Eq)]
pub enum OrderDirection {
    Ascending,
    Descending,
}

/// A row of a query result: groups of column values, each with its source.
pub type Row = Vec<(ValuesSource, Vec<(ColumnDef, Value)>)>;

/// What a value is ordered by: the rank of its kind, its number and its bytes.
pub type SortKey = (int, int, Seq<u8>);

/// The sort key of a value.
pub open spec fn value_key(v: Value) -> SortKey {
    match v {
        Value::Boolean(b) => (0, if b {
            1
        } else {
            0
        }, Seq::empty()),
        Value::Int32(x) => (1, x.0 as int, Seq::empty()),
        Value::Int64(x) => (2, x.0 as int, Seq::empty()),
        Value::Null => (3, 0, Seq::empty()),
        Value::Text(t) => (4, 0, encode_utf8(t.0@)),
        Value::Uint32(x) => (5, x.0 as int, Seq::empty()),
        Value::Uint64(x) => (6, x.0 as int, Seq::empty()),
    }
}

/// Lexicographic order of byte sequences.
pub open spec fn bytes_lt(a: Seq<u8>, b: Seq<u8>) -> bool
    decreases a.len(),
{
    if a.len() == 0 {
        b.len() > 0
    } else if b.len() == 0 {
        false
    } else if a[0] != b[0] {
        a[0] < b[0]
    } else {
        bytes_lt(a.drop_first(), b.drop_first())
    }
}

/// Lexicographic order of sort keys.
pub open spec fn key_lt(a: SortKey, b: SortKey) -> bool {
    a.0 < b.0 || (a.0 == b.0 && (a.1 < b.1 || (a.1 == b.1 && bytes_lt(a.2, b.2))))
}

/// Whether a row whose key is `a` goes before a row whose key is `b`.
pub open spec fn sorts_before(a: Option<SortKey>, b: Option<SortKey>, dir: OrderDirection) -> bool {
    match (a, b) {
        (Some(x), Some(y)) => match dir {
            OrderDirection::Ascending => key_lt(x, y),
            OrderDirection::Descending => key_lt(y, x),
        },
        (None, Some(_)) => true,
        _ => false,
    }
}

/// The value of the first column named `column`.
pub open spec fn column_value(cols: Seq<(ColumnDef, Value)>, column: Seq<char>) -> Option<Value>
    decreases cols.len(),
{
    if cols.len() == 0 {
        None
    } else if cols[0].0.name@ == column {
        Some(cols[0].1)
    } else {
        column_value(cols.drop_first(), column)
    }
}

/// The column values of the first group of the current table.
pub open spec fn this_group(groups: Seq<(ValuesSource, Vec<(ColumnDef, Value)>)>) -> Option<
    Seq<(ColumnDef, Value)>,
>
    decreases groups.len(),
{
    if groups.len() == 0 {
        None
    } else if groups[0].0 == ValuesSource::This {
        Some(groups[0].1@)
    } else {
        this_group(groups.drop_first())
    }
}

/// The value of `column` in the current table's values of a row, if any.
pub open spec fn row_value(row: Row, column: Seq<char>) -> Option<Value> {
    match this_group(row@) {
        Some(cols) => column_value(cols, column),
        None => None,
    }
}

/// The sort key of a row.
pub open spec fn row_key(row: Row, column: Seq<char>) -> Option<SortKey> {
    match row_value(row, column) {
        Some(v) => Some(value_key(v)),
        None => None,
    }
}

/// No row goes before a row that precedes it.
pub open spec fn is_sorted(rows: Seq<Row>, column: Seq<char>, dir: OrderDirection) -> bool {
    forall|p: int, q: int|
        0 <= p < q < rows.len() ==> !sorts_before(
            #[trigger] row_key(rows[q], column),
            #[trigger] row_key(rows[p], column),
            dir,
        )
}

/// `after` holds the rows of `before`, the row at `k` coming from position
/// `perm[k]`, and two rows changed their relative order only when the one now
/// first goes before the other.
pub open spec fn stable_permutation(
    before: Seq<Row>,
    after: Seq<Row>,
    perm: Seq<int>,
    column: Seq<char>,
    dir: OrderDirection,
) -> bool {
    &&& perm.len() == after.len() == before.len()
    &&& forall|k: int| 0 <= k < after.len() ==> 0 <= #[trigger] perm[k] < before.len()
    &&& forall|k: int| 0 <= k < after.len() ==> #[trigger] after[k] == before[perm[k]]
    &&& forall|p: int, q: int| 0 <= p < q < perm.len() ==> #[trigger] perm[p] != #[trigger] perm[q]
    &&& forall|p: int, q: int|
        0 <= p < q < perm.len() && #[trigger] perm[p] > #[trigger] perm[q] ==> sorts_before(
            row_key(after[p], column),
            row_key(after[q], column),
            dir,
        )
}

proof fn lemma_bytes_lt(a: Seq<u8>, b: Seq<u8>)
    ensures
        !bytes_lt(a, a),
        bytes_lt(a, b) ==> !bytes_lt(b, a),
        bytes_lt(a, b) || bytes_lt(b, a) || a == b,
    decreases a.len(),
{
    if a.len() > 0 && b.len() > 0 {
        lemma_bytes_lt(a.drop_first(), b.drop_first());
        if a[0] == b[0] && a.drop_first() == b.drop_first() {
            assert forall|j: int| 0 <= j < a.len() implies a[j] == b[j] by {
                if j > 0 {
                    assert(a[j] == a.drop_first()[j - 1]);
                    assert(b[j] == b.drop_first()[j - 1]);
                }
            }
            assert(a =~= b);
        }
    } else if a.len() == 0 && b.len() == 0 {
        assert(a =~= b);
    }
    if a.len() > 0 {
        lemma_bytes_lt(a.drop_first(), a.drop_first());
    }
}

proof fn lemma_bytes_lt_trans(a: Seq<u8>, b: Seq<u8>, c: Seq<u8>)
    requires
        bytes_lt(a, b),
        bytes_lt(b, c),
    ensures
        bytes_lt(a, c),
    decreases a.len(),
{
    if a.len() > 0 && b.len() > 0 && c.len() > 0 && a[0] == b[0] && b[0] == c[0] {
        lemma_bytes_lt_trans(a.drop_first(), b.drop_first(), c.drop_first());
    }
}

/// Going before is a strict total order of the row keys: irreflexive,
/// asymmetric, transitive, and any two different keys are comparable.
pub proof fn lemma_sorts_before(
    a: Option<SortKey>,
    b: Option<SortKey>,
    c: Option<SortKey>,
    dir: OrderDirection,
)
    ensures
        !sorts_before(a, a, dir),
        sorts_before(a, b, dir) ==> !sorts_before(b, a, dir),
        sorts_before(a, b, dir) && sorts_before(b, c, dir) ==> sorts_before(a, c, dir),
        sorts_before(a, b, dir) || sorts_before(b, a, dir) || a == b,
{
    if let (Some(x), Some(y)) = (a, b) {
        lemma_bytes_lt(x.2, y.2);
        if let Some(z) = c {
            if bytes_lt(x.2, y.2) && bytes_lt(y.2, z.2) {
                lemma_bytes_lt_trans(x.2, y.2, z.2);
            }
            if bytes_lt(z.2, y.2) && bytes_lt(y.2, x.2) {
                lemma_bytes_lt_trans(z.2, y.2, x.2);
            }
        }
    }
    if let Some(x) = a {
        lemma_bytes_lt(x.2, x.2);
    }
}

/// Not going before is transitive too.
proof fn lemma_not_before_trans(
    a: Option<SortKey>,
    b: Option<SortKey>,
    c: Option<SortKey>,
    dir: OrderDirection,
)
    requires
        !sorts_before(a, b, dir),
        !sorts_before(b, c, dir),
    ensures
        !sorts_before(a, c, dir),
{
    lemma_sorts_before(b, a, c, dir);
    lemma_sorts_before(a, c, b, dir);
}

/// Sorting rows already sorted by a second column by a first column orders
/// them by the first column and, among rows of equal value there, by the
/// second column: sorting by the columns from the last to the first orders by
/// all of them.
pub proof fn lemma_sort_by_two_columns(
    sorted_second: Seq<Row>,
    result: Seq<Row>,
    perm: Seq<int>,
    first: Seq<char>,
    first_dir: OrderDirection,
    second: Seq<char>,
    second_dir: OrderDirection,
)
    requires
        is_sorted(sorted_second, second, second_dir),
        is_sorted(result, first, first_dir),
        stable_permutation(sorted_second, result, perm, first, first_dir),
    ensures
        forall|p: int, q: int|
            0 <= p < q < result.len() ==> {
                &&& !sorts_before(
                    #[trigger] row_key(result[q], first),
                    #[trigger] row_key(result[p], first),
                    first_dir,
                )
                &&& (row_key(result[p], first) == row_key(result[q], first) ==> !sorts_before(
                    row_key(result[q], second),
                    row_key(result[p], second),
                    second_dir,
                ))
            },
{
    assert forall|p: int, q: int| 0 <= p < q < result.len() implies {
        &&& !sorts_before(
            #[trigger] row_key(result[q], first),
            #[trigger] row_key(result[p], first),
            first_dir,
        )
        &&& (row_key(result[p], first) == row_key(result[q], first) ==> !sorts_before(
            row_key(result[q], second),
            row_key(result[p], second),
            second_dir,
        ))
    } by {
        if row_key(result[p], first) == row_key(result[q], first) {
            let kp = row_key(result[p], first);
            lemma_sorts_before(kp, kp, kp, first_dir);
            assert(perm[p] != perm[q]);
            assert(perm[p] < perm[q]);
            assert(result[p] == sorted_second[perm[p]]);
            assert(result[q] == sorted_second[perm[q]]);
        }
    }
}

/// Lexicographic comparison of two byte slices.
fn bytes_less(a: &[u8], b: &[u8]) -> (r: bool)
    ensures
        r == bytes_lt(a@, b@),
{
    let mut i: usize = 0;
    assert(a@.skip(0) =~= a@);
    assert(b@.skip(0) =~= b@);
    while i < a.len() && i < b.len()
        invariant
            i <= a@.len(),
            i <= b@.len(),
            bytes_lt(a@, b@) == bytes_lt(a@.skip(i as int), b@.skip(i as int)),
        decreases a@.len() - i,
    {
        let ghost sa = a@.skip(i as int);
        let ghost sb = b@.skip(i as int);
        assert(sa[0] == a@[i as int] && sb[0] == b@[i as int]);
        if a[i] != b[i] {
            return a[i] < b[i];
        }
        assert(sa.drop_first() =~= a@.skip(i + 1));
        assert(sb.drop_first() =~= b@.skip(i + 1));
        i = i + 1;
    }
    a.len() - i < b.len() - i
}

/// The rank of the kind of a value.
fn value_rank(v: &Value) -> (r: u8)
    ensures
        r == value_key(*v).0,
{
    match v {
        Value::Boolean(_) => 0,
        Value::Int32(_) => 1,
        Value::Int64(_) => 2,
        Value::Null => 3,
        Value::Text(_) => 4,
        Value::Uint32(_) => 5,
        Value::Uint64(_) => 6,
    }
}

/// Whether `a` is ordered before `b`.
fn value_less(a: &Value, b: &Value) -> (r: bool)
    ensures
        r == key_lt(value_key(*a), value_key(*b)),
{
    let (ra, rb) = (value_rank(a), value_rank(b));
    if ra != rb {
        return ra < rb;
    }
    match (a, b) {
        (Value::Boolean(x), Value::Boolean(y)) => !*x && *y,
        (Value::Int32(x), Value::Int32(y)) => x.0 < y.0,
        (Value::Int64(x), Value::Int64(y)) => x.0 < y.0,
        (Value::Text(x), Value::Text(y)) => bytes_less(x.0.as_str().as_bytes(), y.0.as_str().as_bytes()),
        (Value::Uint32(x), Value::Uint32(y)) => x.0 < y.0,
        (Value::Uint64(x), Value::Uint64(y)) => x.0 < y.0,
        _ => {
            proof {
                lemma_bytes_lt(Seq::<u8>::empty(), Seq::<u8>::empty());
            }
            false
        },
    }
}

/// The value of `column` in the current table's values of `row`, if any.
fn find_row_value(row: &Row, column: &str) -> (r: Option<Value>)
    ensures
        r == row_value(*row, column@),
{
    let mut g: usize = 0;
    assert(row@.subrange(0, row@.len() as int) =~= row@);
    while g < row.len()
        invariant
            g <= row@.len(),
            this_group(row@) == this_group(row@.subrange(g as int, row@.len() as int)),
        decreases row@.len() - g,
    {
        assert(row@.subrange(g as int, row@.len() as int).drop_first() =~= row@.subrange(
            g + 1,
            row@.len() as int,
        ));
        let (source, cols) = &row[g];
        if let ValuesSource::This = source {
            assert(this_group(row@) == Some(cols@));
            let mut c: usize = 0;
            assert(cols@.subrange(0, cols@.len() as int) =~= cols@);
            while c < cols.len()
                invariant
                    c <= cols@.len(),
                    this_group(row@) == Some(cols@),
                    column_value(cols@, column@) == column_value(
                        cols@.subrange(c as int, cols@.len() as int),
                        column@,
                    ),
                decreases cols@.len() - c,
            {
                assert(cols@.subrange(c as int, cols@.len() as int).drop_first()
                    =~= cols@.subrange(c + 1, cols@.len() as int));
                if str_eq(cols[c].0.name, column) {
                    return Some(cols[c].1.clone());
                }
                c = c + 1;
            }
            return None;
        }
        g = g + 1;
    }
    None
}

/// The sort key of an optional value.
pub open spec fn option_key(v: Option<Value>) -> Option<SortKey> {
    match v {
        Some(v) => Some(value_key(v)),
        None => None,
    }
}

/// Whether a row with value `a` goes before a row with value `b`.
fn goes_before(a: &Option<Value>, b: &Option<Value>, direction: OrderDirection) -> (r: bool)
    ensures
        r == sorts_before(option_key(*a), option_key(*b), direction),
{
    match (a, b) {
        (Some(x), Some(y)) => match direction {
            OrderDirection::Ascending => value_less(x, y),
            OrderDirection::Descending => value_less(y, x),
        },
        (None, Some(_)) => true,
        _ => false,
    }
}

/// Sorts rows by the value of `column` in the current table's values, in the
/// given direction; rows of equal value keep their order.
pub fn sort_query_results(results: &mut Vec<Row>, column: &str, direction: OrderDirection)
    ensures
        is_sorted(final(results)@, column@, direction),
        exists|perm: Seq<int>|
            stable_permutation(old(results)@, final(results)@, perm, column@, direction),
{
    let ghost start = results@;
    let ghost col = column@;
    let n = results.len();
    let ghost mut perm: Seq<int> = Seq::new(n as nat, |k: int| k);
    if n == 0 {
        assert(stable_permutation(start, results@, perm, col, direction));
        return;
    }
    let mut i: usize = 1;
    while i < n
        invariant
            1 <= i <= n,
            n == start.len(),
            results@.len() == n,
            perm.len() == n,
            forall|k: int| 0 <= k < n ==> #[trigger] results@[k] == start[perm[k]],
            forall|k: int| 0 <= k < i ==> 0 <= #[trigger] perm[k] < i,
            forall|k: int| i <= k < n ==> #[trigger] perm[k] == k,
            forall|p: int, q: int| 0 <= p < q < i ==> #[trigger] perm[p] != #[trigger] perm[q],
            forall|p: int, q: int|
                0 <= p < q < i ==> !sorts_before(
                    #[trigger] row_key(results@[q], col),
                    #[trigger] row_key(results@[p], col),
                    direction,
                ),
            forall|p: int, q: int|
                0 <= p < q < i && #[trigger] perm[p] > #[trigger] perm[q] ==> sorts_before(
                    row_key(results@[p], col),
                    row_key(results@[q], col),
                    direction,
                ),
            col == column@,
        decreases n - i,
    {
        let key = find_row_value(&results[i], column);
        let ghost kx = row_key(results@[i as int], col);
        assert(option_key(key) == kx);
        let mut k: usize = i;
        while k > 0
            invariant
                k <= i,
                i < n,
                results@.len() == n,
                option_key(key) == kx,
                col == column@,
                forall|t: int| k <= t < i ==> sorts_before(kx, row_key(#[trigger] results@[t], col), direction),
            ensures
                k <= i,
                forall|t: int| k <= t < i ==> sorts_before(kx, row_key(#[trigger] results@[t], col), direction),
                k == 0 || !sorts_before(kx, row_key(results@[k - 1], col), direction),
            decreases k,
        {
            let prev = find_row_value(&results[k - 1], column);
            if !goes_before(&key, &prev, direction) {
                break;
            }
            k = k - 1;
        }
        let ghost before = results@;
        let ghost before_perm = perm;
        let row = results.remove(i);
        results.insert(k, row);
        proof {
            perm = before_perm.remove(i as int).insert(k as int, i as int);
            let after = results@;
            assert(after =~= before.remove(i as int).insert(k as int, before[i as int]));
            assert forall|t: int| 0 <= t < n implies #[trigger] after[t] == (if t < k {
                before[t]
            } else if t == k {
                before[i as int]
            } else if t <= i {
                before[t - 1]
            } else {
                before[t]
            }) && perm[t] == (if t < k {
                before_perm[t]
            } else if t == k {
                i as int
            } else if t <= i {
                before_perm[t - 1]
            } else {
                before_perm[t]
            }) by {}
            assert forall|k2: int| 0 <= k2 < n implies #[trigger] results@[k2] == start[perm[k2]] by {
            }
            // the key is placed after every row that does not go after it
            assert forall|p: int, q: int| 0 <= p < q < i + 1 implies !sorts_before(
                #[trigger] row_key(after[q], col),
                #[trigger] row_key(after[p], col),
                direction,
            ) by {
                let kp = row_key(after[p], col);
                let kq = row_key(after[q], col);
                if q == k {
                    if k > 0 {
                        let kl = row_key(before[k - 1], col);
                        assert(!sorts_before(kx, kl, direction));
                        if p < k - 1 {
                            assert(!sorts_before(kl, row_key(before[p], col), direction));
                            lemma_not_before_trans(kx, kl, kp, direction);
                        }
                    }
                } else if p == k {
                    assert(sorts_before(kx, row_key(before[q - 1], col), direction));
                    lemma_sorts_before(kx, kq, kq, direction);
                }
            }
            assert forall|p: int, q: int|
                0 <= p < q < i + 1 && #[trigger] perm[p] > #[trigger] perm[q] implies sorts_before(
                row_key(after[p], col),
                row_key(after[q], col),
                direction,
            ) by {
                if p == k {
                    assert(sorts_before(kx, row_key(before[q - 1], col), direction));
                }
            }
        }
        i = i + 1;
    }
    assert(stable_permutation(start, results@, perm, col, direction));
}

/// The keys of an ordering: each column's name with its direction.
pub open spec fn order_keys(order_by: Seq<(String, OrderDirection)>) -> Seq<
    (Seq<char>, OrderDirection),
> {
    order_by.map_values(|p: (String, OrderDirection)| (p.0@, p.1))
}

/// Whether row `a` goes before row `b` by the keys in turn: by the first key,
/// and among rows of equal value there, by the keys that follow.
pub open spec fn lex_before(a: Row, b: Row, keys: Seq<(Seq<char>, OrderDirection)>) -> bool
    decreases keys.len(),
{
    if keys.len() == 0 {
        false
    } else {
        let ka = row_key(a, keys[0].0);
        let kb = row_key(b, keys[0].0);
        sorts_before(ka, kb, keys[0].1) || (ka == kb && lex_before(a, b, keys.drop_first()))
    }
}

/// No row goes before a row that precedes it, by the keys in turn.
pub open spec fn is_sorted_by(rows: Seq<Row>, keys: Seq<(Seq<char>, OrderDirection)>) -> bool {
    forall|p: int, q: int|
        0 <= p < q < rows.len() ==> !lex_before(#[trigger] rows[q], #[trigger] rows[p], keys)
}

/// `after` holds the rows of `before`, the row at `k` coming from position
/// `perm[k]`, and two rows changed their relative order only when the one now
/// first goes before the other by the keys in turn.
pub open spec fn stable_sorted_permutation(
    before: Seq<Row>,
    after: Seq<Row>,
    perm: Seq<int>,
    keys: Seq<(Seq<char>, OrderDirection)>,
) -> bool {
    &&& perm.len() == after.len() == before.len()
    &&& forall|k: int| 0 <= k < after.len() ==> 0 <= #[trigger] perm[k] < before.len()
    &&& forall|k: int| 0 <= k < after.len() ==> #[trigger] after[k] == before[perm[k]]
    &&& forall|p: int, q: int| 0 <= p < q < perm.len() ==> #[trigger] perm[p] != #[trigger] perm[q]
    &&& forall|p: int, q: int|
        0 <= p < q < perm.len() && #[trigger] perm[p] > #[trigger] perm[q] ==> lex_before(
            after[p],
            after[q],
            keys,
        )
}

/// Sorting rows that are sorted by some keys, stably, by one more column gives
/// rows sorted by that column first and then by those keys.
proof fn lemma_sort_step(
    start: Seq<Row>,
    before: Seq<Row>,
    after: Seq<Row>,
    perm1: Seq<int>,
    perm2: Seq<int>,
    column: Seq<char>,
    dir: OrderDirection,
    rest: Seq<(Seq<char>, OrderDirection)>,
    keys: Seq<(Seq<char>, OrderDirection)>,
)
    requires
        keys.len() > 0,
        keys[0] == (column, dir),
        keys.drop_first() == rest,
        is_sorted_by(before, rest),
        stable_sorted_permutation(start, before, perm1, rest),
        is_sorted(after, column, dir),
        stable_permutation(before, after, perm2, column, dir),
    ensures
        is_sorted_by(after, keys),
        stable_sorted_permutation(
            start,
            after,
            Seq::new(perm2.len(), |k: int| perm1[perm2[k]]),
            keys,
        ),
{
    let perm3 = Seq::new(perm2.len(), |k: int| perm1[perm2[k]]);
    assert forall|p: int, q: int| 0 <= p < q < after.len() implies !lex_before(
        #[trigger] after[q],
        #[trigger] after[p],
        keys,
    ) by {
        let kp = row_key(after[p], column);
        let kq = row_key(after[q], column);
        assert(!sorts_before(kq, kp, dir));
        if kp == kq {
            lemma_sorts_before(kp, kp, kp, dir);
            assert(perm2[p] != perm2[q]);
            assert(perm2[p] < perm2[q]);
            assert(after[p] == before[perm2[p]]);
            assert(after[q] == before[perm2[q]]);
            assert(!lex_before(before[perm2[q]], before[perm2[p]], rest));
        }
    }
    assert forall|k: int| 0 <= k < after.len() implies 0 <= #[trigger] perm3[k] < start.len()
        && after[k] == start[perm3[k]] by {
        assert(0 <= perm2[k] < before.len());
        assert(after[k] == before[perm2[k]]);
        assert(before[perm2[k]] == start[perm1[perm2[k]]]);
    }
    assert forall|p: int, q: int| 0 <= p < q < perm3.len() implies #[trigger] perm3[p]
        != #[trigger] perm3[q] by {
        assert(perm2[p] != perm2[q]);
        if perm2[p] < perm2[q] {
            assert(perm1[perm2[p]] != perm1[perm2[q]]);
        } else {
            assert(perm1[perm2[q]] != perm1[perm2[p]]);
        }
    }
    assert forall|p: int, q: int|
        0 <= p < q < perm3.len() && #[trigger] perm3[p] > #[trigger] perm3[q] implies lex_before(
        after[p],
        after[q],
        keys,
    ) by {
        let kp = row_key(after[p], column);
        let kq = row_key(after[q], column);
        if perm2[p] > perm2[q] {
            assert(sorts_before(kp, kq, dir));
        } else {
            assert(perm2[p] != perm2[q]);
            let (p2, q2) = (perm2[p], perm2[q]);
            assert(perm1[p2] > perm1[q2]);
            assert(lex_before(before[p2], before[q2], rest));
            assert(after[p] == before[p2]);
            assert(after[q] == before[q2]);
            assert(!sorts_before(kq, kp, dir));
            lemma_sorts_before(kp, kq, kp, dir);
        }
    }
}

/// Orders query results by the columns of `order_by` in turn: by the first
/// column, among rows of equal value there by the second, and so on, rows of
/// equal values in all of them keeping their order. The columns are sorted by
/// from the last to the first, each sort keeping the order of equal rows.
pub fn order_query_results(results: &mut Vec<Row>, order_by: &[(String, OrderDirection)])
    ensures
        is_sorted_by(final(results)@, order_keys(order_by@)),
        exists|perm: Seq<int>|
            stable_sorted_permutation(old(results)@, final(results)@, perm, order_keys(order_by@)),
{
    let ghost start = results@;
    let ghost keys = order_keys(order_by@);
    let ghost mut perm: Seq<int> = Seq::new(results@.len(), |k: int| k);
    let mut j: usize = order_by.len();
    assert(keys.skip(j as int) =~= Seq::<(Seq<char>, OrderDirection)>::empty());
    while j > 0
        invariant
            j <= order_by@.len(),
            keys == order_keys(order_by@),
            is_sorted_by(results@, keys.skip(j as int)),
            stable_sorted_permutation(start, results@, perm, keys.skip(j as int)),
        decreases j,
    {
        j = j - 1;
        let (column, direction) = &order_by[j];
        let ghost before = results@;
        sort_query_results(results, column.as_str(), *direction);
        proof {
            let perm2 = choose|p: Seq<int>|
                stable_permutation(before, results@, p, column@, *direction);
            let k2 = keys.skip(j as int);
            assert(k2.drop_first() =~= keys.skip(j + 1));
            assert(k2[0] == (column@, *direction));
            lemma_sort_step(
                start,
                before,
                results@,
                perm,
                perm2,
                column@,
                *direction,
                keys.skip(j + 1),
                k2,
            );
            perm = Seq::new(perm2.len(), |k: int| perm[perm2[k]]);
        }
    }
    assert(keys.skip(0) =~= keys);
}

/// The kind and the number of an integer value: 1 for `Int32`, 2 for
/// `Int64`, 5 for `Uint32`, 6 for `Uint64`.
pub open spec fn integer_of(v: Value) -> Option<(int, int)> {
    match v {
        Value::Int32(x) => Some((1, x.0 as int)),
        Value::Int64(x) => Some((2, x.0 as int)),
        Value::Uint32(x) => Some((5, x.0 as int)),
        Value::Uint64(x) => Some((6, x.0 as int)),
        _ => None,
    }
}

/// Integers of one kind are ordered by their number: in an ascending order
/// `Int32(a)` goes before `Int32(b)` exactly when `a < b`, and likewise for
/// `Int64`, `Uint32` and `Uint64`; `false` goes before `true`.
pub proof fn lemma_integer_keys_ordered(
    a: i32,
    b: i32,
    c: i64,
    d: i64,
    e: u32,
    f: u32,
    g: u64,
    h: u64,
)
    ensures
        key_lt(value_key(Value::Int32(Int32(a))), value_key(Value::Int32(Int32(b)))) <==> a < b,
        key_lt(value_key(Value::Int64(Int64(c))), value_key(Value::Int64(Int64(d)))) <==> c < d,
        key_lt(value_key(Value::Uint32(Uint32(e))), value_key(Value::Uint32(Uint32(f)))) <==> e
            < f,
        key_lt(value_key(Value::Uint64(Uint64(g))), value_key(Value::Uint64(Uint64(h)))) <==> g
            < h,
        key_lt(value_key(Value::Boolean(false)), value_key(Value::Boolean(true))),
        !key_lt(value_key(Value::Boolean(true)), value_key(Value::Boolean(false))),
{
    lemma_bytes_lt(Seq::<u8>::empty(), Seq::<u8>::empty());
}

/// In rows sorted by a column, the integers of one kind that the column holds
/// come in increasing order when ascending and in decreasing order when
/// descending.
pub proof fn lemma_sorted_integers(
    rows: Seq<Row>,
    column: Seq<char>,
    dir: OrderDirection,
    p: int,
    q: int,
    kind: int,
    a: int,
    b: int,
)
    requires
        is_sorted(rows, column, dir),
        0 <= p < q < rows.len(),
        row_value(rows[p], column) matches Some(vp) && integer_of(vp) == Some((kind, a)),
        row_value(rows[q], column) matches Some(vq) && integer_of(vq) == Some((kind, b)),
    ensures
        dir == OrderDirection::Ascending ==> a <= b,
        dir == OrderDirection::Descending ==> a >= b,
{
    lemma_bytes_lt(Seq::<u8>::empty(), Seq::<u8>::empty());
    assert(!sorts_before(row_key(rows[q], column), row_key(rows[p], column), dir));
}

/// Texts are ordered by their UTF-8 bytes, lexicographically: a byte
/// sequence goes before another when it is a proper prefix of it, or when at
/// the first position where they differ its byte is the smaller.
pub proof fn lemma_bytes_lexicographic(a: Seq<u8>, b: Seq<u8>, i: int)
    requires
        0 <= i <= a.len(),
        i <= b.len(),
        a.subrange(0, i) == b.subrange(0, i),
    ensures
        i == a.len() && i < b.len() ==> bytes_lt(a, b),
        i < a.len() && i < b.len() && a[i] < b[i] ==> bytes_lt(a, b),
        i < a.len() && i < b.len() && a[i] > b[i] ==> !bytes_lt(a, b),
        i == b.len() ==> !bytes_lt(a, b),
    decreases i,
{
    if i > 0 {
        assert(a[0] == a.subrange(0, i)[0]);
        assert(b[0] == b.subrange(0, i)[0]);
        assert(a.drop_first().subrange(0, i - 1) =~= a.subrange(0, i).drop_first());
        assert(b.drop_first().subrange(0, i - 1) =~= b.subrange(0, i).drop_first());
        lemma_bytes_lexicographic(a.drop_first(), b.drop_first(), i - 1);
        if i < a.len() {
            assert(a.drop_first()[i - 1] == a[i]);
        }
        if i < b.len() {
            assert(b.drop_first()[i - 1] == b[i]);
        }
    }
}

/// In rows sorted by a column, in either direction, no row that has the column
/// comes before a row that lacks it.
pub proof fn lemma_sorted_missing_first(
    rows: Seq<Row>,
    column: Seq<char>,
    dir: OrderDirection,
    p: int,
    q: int,
)
    requires
        is_sorted(rows, column, dir),
        0 <= p < q < rows.len(),
        row_value(rows[q], column) is None,
    ensures
        row_value(rows[p], column) is None,
{
    assert(!sorts_before(row_key(rows[q], column), row_key(rows[p], column), dir));
}

} // verus!
