//! The storage engine on the contents of shard files: the id a row is
//! stored under, insert with the conflict policy, point reads and deletes,
//! and batched inserts.
//!
//! A shard is held as a list of `(numeric id, row)` entries with distinct ids;
//! reading and writing its file is the caller's part.
use vstd::prelude::*;
use crate::assoc::{has_key, keys_unique, lemma_map, to_map, find_key, put, take};
use crate::schema::{DbError, Row, Slot, TABLE, check_type_regex, validation};
use crate::shard::{DATABASE, numeric_id, shard_file, string_to_numerical_uuid};
use crate::value::{Data, copy_data, data_same};

verus! {

/// The rows of one shard file, keyed by numeric id.
pub type Shard = Vec<(String, Row)>;

/// A row after a copy: the same names, values and auxiliary texts.
pub open spec fn rows_same(a: Seq<(String, Slot)>, b: Seq<(String, Slot)>) -> bool {
    a.len() == b.len() && forall|i: int|
        0 <= i < a.len() ==> #[trigger] a[i].0 == b[i].0 && data_same(a[i].1.0, b[i].1.0)
            && a[i].1.1 == b[i].1.1
}

/// The numeric id of a row, from the text in its id column.
pub open spec fn row_id(row: Seq<(String, Slot)>, id_column: Seq<char>) -> Result<
    Seq<char>,
    DbError,
> {
    if !to_map(row).contains_key(id_column) {
        Err(DbError::MissingField)
    } else {
        match to_map(row)[id_column].0 {
            Data::STRING(s) => Ok(numeric_id(s@)),
            _ => Err(DbError::IdNotText),
        }
    }
}

/// The id under which a row is stored in a table, once it passes validation.
pub open spec fn admit_row(row: Seq<(String, Slot)>, schema: TABLE) -> Result<
    Seq<char>,
    DbError,
> {
    match validation(row, schema.field_names@) {
        Err(e) => Err(e),
        Ok(false) => Err(DbError::SchemaMismatch),
        Ok(true) => row_id(row, schema.id_column@),
    }
}

/// The shard contents after inserting a row, or the error that refuses it.
pub open spec fn insert_outcome(
    schema: TABLE,
    m: Map<Seq<char>, Row>,
    row: Row,
    overwrite: bool,
) -> Result<Map<Seq<char>, Row>, DbError> {
    match admit_row(row@, schema) {
        Err(e) => Err(e),
        Ok(id) => if m.contains_key(id) && !overwrite {
            Err(DbError::IdConflict)
        } else {
            Ok(m.insert(id, row))
        },
    }
}

/// The row stored under the identifying text `raw`, if any.
pub open spec fn lookup(m: Map<Seq<char>, Row>, raw: Seq<char>) -> Option<Row> {
    if m.contains_key(numeric_id(raw)) {
        Some(m[numeric_id(raw)])
    } else {
        None
    }
}

/// Equality of two texts.
fn str_equal(a: &String, b: &String) -> (r: bool)
    ensures
        r == (a@ == b@),
{
    crate::value::str_eq(a.as_str(), b.as_str())
}

/// A copy of a row.
pub fn copy_row(row: &Row) -> (r: Row)
    ensures
        rows_same(r@, row@),
{
    let mut out: Row = Vec::new();
    let mut i: usize = 0;
    while i < row.len()
        invariant
            0 <= i <= row@.len(),
            out@.len() == i,
            forall|k: int|
                0 <= k < i ==> #[trigger] out@[k].0 == row@[k].0 && data_same(
                    out@[k].1.0,
                    row@[k].1.0,
                ) && out@[k].1.1 == row@[k].1.1,
        decreases row.len() - i,
    {
        let name = row[i].0.clone();
        let value = copy_data(&row[i].1.0);
        let aux = row[i].1.1.clone();
        out.push((name, (value, aux)));
        i = i + 1;
    }
    out
}

/// Every row of a list of entries has distinct field names.
pub open spec fn rows_wf(s: Seq<(String, Row)>) -> bool {
    forall|i: int| 0 <= i < s.len() ==> keys_unique(#[trigger] s[i].1@)
}

/// A shard as the engine keeps it: distinct ids, and rows with distinct
/// field names.
pub open spec fn shard_wf(s: Seq<(String, Row)>) -> bool {
    keys_unique(s) && rows_wf(s)
}

impl DATABASE {
    /// The numeric id of a row, from the text in its id column.
    pub fn id_of_row(row: &Row, id_column: &str) -> (r: Result<String, DbError>)
        requires
            keys_unique(row@),
        ensures
            r matches Ok(id) ==> row_id(row@, id_column@) == Ok::<Seq<char>, DbError>(id@),
            r matches Err(e) ==> row_id(row@, id_column@) == Err::<Seq<char>, DbError>(e),
    {
        proof {
            lemma_map(row@);
        }
        match find_key(row, id_column) {
            None => Err(DbError::MissingField),
            Some(i) => match &row[i].1.0 {
                Data::STRING(s) => Ok(string_to_numerical_uuid(s.as_str())),
                _ => Err(DbError::IdNotText),
            },
        }
    }

    /// Validates a row and gives the id under which it is stored.
    pub fn accept_row(schema: &TABLE, row: &Row) -> (r: Result<String, DbError>)
        requires
            keys_unique(row@),
        ensures
            r matches Ok(id) ==> admit_row(row@, *schema) == Ok::<Seq<char>, DbError>(id@),
            r matches Err(e) ==> admit_row(row@, *schema) == Err::<Seq<char>, DbError>(e),
    {
        match check_type_regex(row, schema) {
            Err(e) => Err(e),
            Ok(false) => Err(DbError::SchemaMismatch),
            Ok(true) => Self::id_of_row(row, schema.id_column.as_str()),
        }
    }

    /// The name of the shard file that a row belongs in.
    pub fn shard_for_row(schema: &TABLE, row: &Row) -> (r: Result<String, DbError>)
        requires
            keys_unique(row@),
        ensures
            r matches Ok(f) ==> exists|id: Seq<char>|
                admit_row(row@, *schema) == Ok::<Seq<char>, DbError>(id) && f@ == shard_file(id),
            r matches Err(e) ==> admit_row(row@, *schema) == Err::<Seq<char>, DbError>(e),
    {
        let id = Self::accept_row(schema, row)?;
        Ok(Self::get_file_by_id(id))
    }

    /// Inserts a row into the shard it belongs in. With `overwrite` false an
    /// existing row of the same id is a conflict and the shard is left as it
    /// was; with `overwrite` true it is replaced.
    pub fn add_row(schema: &TABLE, shard: &mut Shard, row: Row, overwrite: bool) -> (r: Result<
        (),
        DbError,
    >)
        requires
            keys_unique(row@),
            keys_unique(old(shard)@),
        ensures
            keys_unique(final(shard)@),
            match insert_outcome(*schema, to_map(old(shard)@), row, overwrite) {
                Ok(m) => r is Ok && to_map(final(shard)@) == m,
                Err(e) => r == Err::<(), DbError>(e) && final(shard)@ == old(shard)@,
            },
    {
        let id = Self::accept_row(schema, &row)?;
        Self::add_to_file(shard, row, id, overwrite)
    }

    /// Inserts a row, replacing any row of the same id.
    pub fn insert(schema: &TABLE, shard: &mut Shard, row: Row) -> (r: Result<(), DbError>)
        requires
            keys_unique(row@),
            keys_unique(old(shard)@),
        ensures
            keys_unique(final(shard)@),
            match insert_outcome(*schema, to_map(old(shard)@), row, true) {
                Ok(m) => r is Ok && to_map(final(shard)@) == m,
                Err(e) => r == Err::<(), DbError>(e) && final(shard)@ == old(shard)@,
            },
    {
        Self::add_row(schema, shard, row, true)
    }

    /// Puts a row under an id that was derived for it, by the conflict policy.
    pub fn add_to_file(shard: &mut Shard, row: Row, id: String, overwrite: bool) -> (r: Result<
        (),
        DbError,
    >)
        requires
            keys_unique(old(shard)@),
        ensures
            keys_unique(final(shard)@),
            to_map(old(shard)@).contains_key(id@) && !overwrite ==> r == Err::<(), DbError>(
                DbError::IdConflict,
            ) && final(shard)@ == old(shard)@,
            !(to_map(old(shard)@).contains_key(id@) && !overwrite) ==> r is Ok && to_map(
                final(shard)@,
            ) == to_map(old(shard)@).insert(id@, row),
    {
        proof {
            lemma_map(shard@);
        }
        if !overwrite && find_key(shard, id.as_str()).is_some() {
            return Err(DbError::IdConflict);
        }
        put(shard, id, row);
        Ok(())
    }

    /// The row stored under an identifying text.
    pub fn get_by_id(shard: &Shard, id_input: &str) -> (r: Option<Row>)
        requires
            keys_unique(shard@),
        ensures
            match lookup(to_map(shard@), id_input@) {
                None => r is None,
                Some(x) => r matches Some(y) && rows_same(y@, x@),
            },
    {
        let id = string_to_numerical_uuid(id_input);
        proof {
            lemma_map(shard@);
        }
        match find_key(shard, id.as_str()) {
            None => None,
            Some(i) => Some(copy_row(&shard[i].1)),
        }
    }

    /// Removes the row stored under an identifying text and hands it back;
    /// a text with no row leaves the shard as it was.
    pub fn delete_row_by_id(shard: &mut Shard, id_: &str) -> (r: Option<Row>)
        requires
            keys_unique(old(shard)@),
        ensures
            keys_unique(final(shard)@),
            to_map(final(shard)@) == to_map(old(shard)@).remove(numeric_id(id_@)),
            r == lookup(to_map(old(shard)@), id_@),
    {
        let id = string_to_numerical_uuid(id_);
        take(shard, id.as_str())
    }
}

/// Whether a batch of entries clashes with a shard or with itself.
pub open spec fn batch_conflicts(m: Map<Seq<char>, Row>, entries: Seq<(String, Row)>) -> bool {
    (exists|i: int| 0 <= i < entries.len() && m.contains_key(#[trigger] entries[i].0@)) || (exists|
        i: int,
        j: int,
    | 0 <= i < j < entries.len() && #[trigger] entries[i].0@ == #[trigger] entries[j].0@)
}

/// Rows grouped by the shard file they belong in: each file once, each
/// entry the id derived for one of `rows` and that row, in the batch of the
/// file that owns the id, and each of `rows` in some batch.
pub open spec fn batched(
    schema: TABLE,
    rows: Seq<Row>,
    batches: Seq<(String, Vec<(String, Row)>)>,
) -> bool {
    &&& forall|a: int, b: int|
        0 <= a < b < batches.len() ==> #[trigger] batches[a].0@ != #[trigger] batches[b].0@
    &&& forall|b: int, j: int|
        0 <= b < batches.len() && 0 <= j < batches[b].1@.len() ==> {
            let e = #[trigger] batches[b].1@[j];
            &&& admit_row(e.1@, schema) == Ok::<Seq<char>, DbError>(e.0@)
            &&& batches[b].0@ == shard_file(e.0@)
            &&& rows.contains(e.1)
        }
    &&& forall|i: int|
        0 <= i < rows.len() ==> exists|b: int, j: int|
            0 <= b < batches.len() && 0 <= j < batches[b].1@.len() && #[trigger] batches[b].1@[j].1
                == #[trigger] rows[i]
}

/// The shard file a row that passes validation belongs in.
pub open spec fn file_of(schema: TABLE, r: Row) -> Seq<char> {
    shard_file(admit_row(r@, schema)->Ok_0)
}

/// Whether a row belongs in shard file `f`.
pub open spec fn in_file(schema: TABLE, f: Seq<char>) -> spec_fn(Row) -> bool {
    |r: Row| file_of(schema, r) == f
}

/// The rows of a batch's entries.
pub open spec fn batch_rows(es: Seq<(String, Row)>) -> Seq<Row> {
    es.map_values(|e: (String, Row)| e.1)
}

/// Each batch holds exactly the rows of its file, in input order, and each
/// row's file has a batch.
pub open spec fn batches_in_order(
    schema: TABLE,
    rows: Seq<Row>,
    batches: Seq<(String, Vec<(String, Row)>)>,
) -> bool {
    &&& forall|b: int|
        0 <= b < batches.len() ==> batch_rows(#[trigger] batches[b].1@) == rows.filter(
            in_file(schema, batches[b].0@),
        )
    &&& forall|i: int|
        0 <= i < rows.len() ==> exists|b: int|
            0 <= b < batches.len() && #[trigger] batches[b].0@ == file_of(schema, #[trigger] rows[i])
}

impl DATABASE {
    /// Groups rows by the shard file they belong in, after validating each;
    /// the first row that fails gives the error.
    pub fn add_rows(schema: &TABLE, rows: Vec<Row>) -> (r: Result<Vec<(String, Vec<(String, Row)>)>, DbError>)
        requires
            forall|i: int| 0 <= i < rows@.len() ==> keys_unique(#[trigger] rows@[i]@),
        ensures
            r is Ok ==> batched(*schema, rows@, r->Ok_0@),
            r is Ok ==> batches_in_order(*schema, rows@, r->Ok_0@),
            r is Ok <==> forall|i: int| 0 <= i < rows@.len() ==> #[trigger] admit_row(rows@[i]@, *schema) is Ok,
            r is Err ==> exists|i: int|
                0 <= i < rows@.len() && admit_row(rows@[i]@, *schema) == Err::<Seq<char>, DbError>(r->Err_0)
                    && forall|j: int| 0 <= j < i ==> #[trigger] admit_row(rows@[j]@, *schema) is Ok,
    {
        let ghost s0 = rows@;
        let mut src = rows;
        let mut batches: Vec<(String, Vec<(String, Row)>)> = Vec::new();
        let n = src.len();
        let mut i: usize = 0;
        while i < n
            invariant
                n == s0.len(),
                s0 == rows@,
                src@.len() == n,
                0 <= i <= n,
                forall|j: int| 0 <= j < n ==> keys_unique(#[trigger] s0[j]@),
                forall|j: int| i <= j < n ==> #[trigger] src@[j] == s0[j],
                forall|j: int| 0 <= j < i ==> #[trigger] admit_row(s0[j]@, *schema) is Ok,
                batched(*schema, s0.subrange(0, i as int), batches@),
                batches_in_order(*schema, s0.subrange(0, i as int), batches@),
            decreases n - i,
        {
            let mut row: Row = Vec::new();
            src.set_and_swap(i, &mut row);
            assert(keys_unique(s0[i as int]@));
            let id = match Self::accept_row(schema, &row) {
                Ok(id) => id,
                Err(e) => {
                    return Err(e);
                },
            };
            let file = Self::get_file_by_id(id.clone());
            let ghost pre = s0.subrange(0, i as int);
            let ghost now = s0.subrange(0, i + 1);
            proof {
                assert(now == pre.push(row));
                assert forall|x: Row| pre.contains(x) implies now.contains(x) by {
                    let q = choose|q: int| 0 <= q < pre.len() && pre[q] == x;
                    assert(now[q] == x);
                };
                assert(now.contains(row)) by {
                    assert(now[i as int] == row);
                };
            }
            let mut k: usize = 0;
            while k < batches.len()
                invariant
                    0 <= k <= batches@.len(),
                    forall|q: int| 0 <= q < k ==> #[trigger] batches@[q].0@ != file@,
                ensures
                    0 <= k <= batches@.len(),
                    forall|q: int| 0 <= q < k ==> #[trigger] batches@[q].0@ != file@,
                    k < batches@.len() ==> batches@[k as int].0@ == file@,
                decreases batches.len() - k,
            {
                if str_equal(&batches[k].0, &file) {
                    break;
                }
                k = k + 1;
            }
            let ghost b0 = batches@;
            proof {
                assert(file_of(*schema, row) == file@);
                assert(in_file(*schema, file@)(row));
            }
            if k < batches.len() {
                let mut batch: (String, Vec<(String, Row)>) = (String::new(), Vec::new());
                batches.set_and_swap(k, &mut batch);
                let ghost entries0 = batch.1@;
                batch.1.push((id, row));
                let ghost nb = batch;
                batches.set_and_swap(k, &mut batch);
                proof {
                    assert(batches@ =~= b0.update(k as int, nb));
                    assert forall|b: int, j: int|
                        0 <= b < batches@.len() && 0 <= j < batches@[b].1@.len() implies {
                            let e = #[trigger] batches@[b].1@[j];
                            &&& admit_row(e.1@, *schema) == Ok::<Seq<char>, DbError>(e.0@)
                            &&& batches@[b].0@ == shard_file(e.0@)
                            &&& now.contains(e.1)
                        } by {
                        if b != k || j < entries0.len() {
                            assert(batches@[b].1@[j] == b0[b].1@[j]);
                            assert(pre.contains(b0[b].1@[j].1));
                        } else {
                            assert(batches@[b].1@[j] == (id, row));
                            assert(batches@[b].0 == b0[b].0);
                        }
                    };
                    assert forall|q: int| 0 <= q < now.len() implies exists|b: int, j: int|
                        0 <= b < batches@.len() && 0 <= j < batches@[b].1@.len() && #[trigger] batches@[b].1@[j].1
                            == #[trigger] now[q] by {
                        if q < i {
                            let (b, j) = choose|b: int, j: int|
                                0 <= b < b0.len() && 0 <= j < b0[b].1@.len() && #[trigger] b0[b].1@[j].1 == pre[q];
                            assert(batches@[b].1@[j] == b0[b].1@[j]);
                        } else {
                            assert(batches@[k as int].1@[entries0.len() as int].1 == now[q]);
                        }
                    };
                    assert forall|b: int| 0 <= b < batches@.len() implies batch_rows(#[trigger] batches@[b].1@)
                        == now.filter(in_file(*schema, batches@[b].0@)) by {
                        pre.lemma_filter_push(row, in_file(*schema, batches@[b].0@));
                        if b == k {
                            assert(batch_rows(nb.1@) =~= batch_rows(entries0).push(row));
                        } else {
                            assert(batches@[b] == b0[b]);
                        }
                    };
                    assert forall|q: int| 0 <= q < now.len() implies exists|b: int|
                        0 <= b < batches@.len() && #[trigger] batches@[b].0@ == file_of(*schema, #[trigger] now[q]) by {
                        if q < i {
                            assert(now[q] == pre[q]);
                            let b = choose|b: int| 0 <= b < b0.len() && #[trigger] b0[b].0@ == file_of(*schema, pre[q]);
                            assert(batches@[b].0 == b0[b].0);
                        } else {
                            assert(batches@[k as int].0 == b0[k as int].0);
                        }
                    };
                }
            } else {
                let mut entries: Vec<(String, Row)> = Vec::new();
                entries.push((id, row));
                batches.push((file, entries));
                proof {
                    assert forall|b: int, j: int|
                        0 <= b < batches@.len() && 0 <= j < batches@[b].1@.len() implies {
                            let e = #[trigger] batches@[b].1@[j];
                            &&& admit_row(e.1@, *schema) == Ok::<Seq<char>, DbError>(e.0@)
                            &&& batches@[b].0@ == shard_file(e.0@)
                            &&& now.contains(e.1)
                        } by {
                        if b < b0.len() {
                            assert(batches@[b] == b0[b]);
                        }
                    };
                    assert forall|q: int| 0 <= q < now.len() implies exists|b: int, j: int|
                        0 <= b < batches@.len() && 0 <= j < batches@[b].1@.len() && #[trigger] batches@[b].1@[j].1
                            == #[trigger] now[q] by {
                        if q < i {
                            let (b, j) = choose|b: int, j: int|
                                0 <= b < b0.len() && 0 <= j < b0[b].1@.len() && #[trigger] b0[b].1@[j].1 == pre[q];
                            assert(batches@[b] == b0[b]);
                        } else {
                            assert(batches@[b0.len() as int].1@[0].1 == now[q]);
                        }
                    };
                    let nf = in_file(*schema, file@);
                    assert(pre.all(|x: Row| !nf(x))) by {
                        assert forall|q: int| 0 <= q < pre.len() implies !nf(pre[q]) by {
                            let b = choose|b: int| 0 <= b < b0.len() && #[trigger] b0[b].0@ == file_of(*schema, #[trigger] pre[q]);
                        };
                    };
                    pre.lemma_all_neg_filter_empty(nf);
                    assert forall|b: int| 0 <= b < batches@.len() implies batch_rows(#[trigger] batches@[b].1@)
                        == now.filter(in_file(*schema, batches@[b].0@)) by {
                        pre.lemma_filter_push(row, in_file(*schema, batches@[b].0@));
                        if b < b0.len() {
                            assert(batches@[b] == b0[b]);
                        } else {
                            assert(batches@[b].0@ == file@);
                            assert(batch_rows(batches@[b].1@) =~= pre.filter(nf).push(row));
                        }
                    };
                    assert forall|q: int| 0 <= q < now.len() implies exists|b: int|
                        0 <= b < batches@.len() && #[trigger] batches@[b].0@ == file_of(*schema, #[trigger] now[q]) by {
                        if q < i {
                            assert(now[q] == pre[q]);
                            let b = choose|b: int| 0 <= b < b0.len() && #[trigger] b0[b].0@ == file_of(*schema, pre[q]);
                            assert(batches@[b] == b0[b]);
                        } else {
                            assert(batches@[b0.len() as int].0@ == file@);
                        }
                    };
                }
            }
            i = i + 1;
        }
        proof {
            assert(s0.subrange(0, n as int) == s0);
        }
        Ok(batches)
    }

    /// Puts a batch of entries into a shard at once. Without `overwrite`, an
    /// id already in the shard or twice in the batch is a conflict and the
    /// shard is left as it was.
    pub fn add_many_to_file(shard: &mut Shard, entries: Vec<(String, Row)>, overwrite: bool) -> (r: Result<
        (),
        DbError,
    >)
        requires
            keys_unique(old(shard)@),
        ensures
            keys_unique(final(shard)@),
            !overwrite && batch_conflicts(to_map(old(shard)@), entries@) ==> r == Err::<(), DbError>(
                DbError::IdConflict,
            ) && final(shard)@ == old(shard)@,
            !(!overwrite && batch_conflicts(to_map(old(shard)@), entries@)) ==> r is Ok && to_map(
                final(shard)@,
            ) == to_map(old(shard)@).union_prefer_right(to_map(entries@)),
    {
        proof {
            lemma_map(shard@);
        }
        if !overwrite {
            let mut i: usize = 0;
            while i < entries.len()
                invariant
                    0 <= i <= entries@.len(),
                    !overwrite,
                    shard@ == old(shard)@,
                    keys_unique(shard@),
                    forall|k: Seq<char>| #[trigger] to_map(shard@).contains_key(k) <==> has_key(shard@, k),
                    forall|j: int| 0 <= j < i ==> !to_map(shard@).contains_key(#[trigger] entries@[j].0@),
                    forall|a: int, b: int| 0 <= a < b < i ==> #[trigger] entries@[a].0@ != #[trigger] entries@[b].0@,
                decreases entries.len() - i,
            {
                if find_key(shard, entries[i].0.as_str()).is_some() {
                    assert(to_map(shard@).contains_key(entries@[i as int].0@));
                    return Err(DbError::IdConflict);
                }
                let mut j: usize = 0;
                while j < i
                    invariant
                        0 <= j <= i < entries@.len(),
                        !overwrite,
                        shard@ == old(shard)@,
                        keys_unique(shard@),
                        forall|a: int| 0 <= a < j ==> #[trigger] entries@[a].0@ != entries@[i as int].0@,
                    decreases i - j,
                {
                    if str_equal(&entries[j].0, &entries[i].0) {
                        assert(entries@[j as int].0@ == entries@[i as int].0@);
                        return Err(DbError::IdConflict);
                    }
                    j = j + 1;
                }
                i = i + 1;
            }
        }
        let ghost p0 = entries@;
        let ghost m0 = to_map(shard@);
        let mut src = entries;
        let n = src.len();
        let mut i: usize = 0;
        proof {
            assert(to_map(p0.subrange(0, 0)) == Map::<Seq<char>, Row>::empty());
            assert(m0.union_prefer_right(Map::<Seq<char>, Row>::empty()) =~= m0);
        }
        while i < n
            invariant
                n == p0.len(),
                src@.len() == n,
                0 <= i <= n,
                forall|j: int| i <= j < n ==> #[trigger] src@[j] == p0[j],
                keys_unique(shard@),
                to_map(shard@) == m0.union_prefer_right(to_map(p0.subrange(0, i as int))),
            decreases n - i,
        {
            let mut e: (String, Row) = (String::new(), Vec::new());
            src.set_and_swap(i, &mut e);
            let ghost before = to_map(p0.subrange(0, i as int));
            proof {
                assert(p0.subrange(0, i + 1).drop_last() == p0.subrange(0, i as int));
                assert(to_map(p0.subrange(0, i + 1)) == before.insert(e.0@, e.1));
                assert(m0.union_prefer_right(before.insert(e.0@, e.1)) =~= m0.union_prefer_right(
                    before,
                ).insert(e.0@, e.1));
            }
            put(shard, e.0, e.1);
            i = i + 1;
        }
        proof {
            assert(p0.subrange(0, n as int) == p0);
        }
        Ok(())
    }

}

} // verus!
