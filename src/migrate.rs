//! Schema migrations: the operations, their effect on a table's schema and
//! rows, and which migration files a run applies.
use vstd::prelude::*;
use crate::assoc::{has_key, keys_unique, lemma_map, to_map, find_key, put, take};
use crate::schema::{DbError, FieldSpec, Row, Slot, TABLE};
use crate::shard::DATABASE;
use crate::store::{Shard, shard_wf};
use crate::value::{Data, copy_data, Type, str_eq, text_compare, text_lt, lemma_text_lt_transitive};

verus! {

/// The value that an added column takes in rows that lack it.
#[derive(Debug)]
pub enum DefaultValue {
    Text(String),
    /// The bit pattern of a binary64 number.
    Number(u64),
    Boolean(bool),
    /// A value of another shape, which cannot fill a column.
    Unsupported,
}

/// One schema-evolution operation on a table.
#[derive(Debug)]
pub enum Migration {
    CreateTable { table: String, id_column: String, fields: Vec<(String, String)> },
    AddColumn { table: String, field: String, datatype: String, default: DefaultValue },
    RenameColumn { table: String, old_field: String, new_field: String },
    DropColumn { table: String, field: String },
    DeleteTable { table: String },
}

/// The stored value of a default, if it has a supported shape.
pub open spec fn default_data(d: DefaultValue) -> Option<Data> {
    match d {
        DefaultValue::Text(s) => Some(Data::STRING(s)),
        DefaultValue::Number(n) => Some(Data::NUMBER(n)),
        DefaultValue::Boolean(b) => Some(Data::BOOLEAN(b)),
        DefaultValue::Unsupported => None,
    }
}

/// A change made to every row of a table.
pub enum RowEdit {
    /// Give rows lacking `field` the slot `(value, aux)`.
    Fill { field: String, value: Data, aux: String },
    /// Move the slot of `old` to `new`.
    Rename { old: String, new: String },
    /// Remove `field`.
    Remove { field: String },
}

/// What an edit does to one row's map.
pub open spec fn edited(e: RowEdit, m: Map<Seq<char>, Slot>) -> Map<Seq<char>, Slot> {
    match e {
        RowEdit::Fill { field, value, aux } => if m.contains_key(field@) {
            m
        } else {
            m.insert(field@, (value, aux))
        },
        RowEdit::Rename { old, new } => if m.contains_key(old@) {
            m.remove(old@).insert(new@, m[old@])
        } else {
            m
        },
        RowEdit::Remove { field } => m.remove(field@),
    }
}

/// Whether the value that an edit fills in holds no list.
pub open spec fn edit_plain(e: RowEdit) -> bool {
    match e {
        RowEdit::Fill { value, .. } => !(value is ARRAY) && !(value is ARRAYNULL),
        _ => true,
    }
}

/// Applies an edit to one row.
fn edit_row(row: &mut Row, e: &RowEdit)
    requires
        keys_unique(old(row)@),
        edit_plain(*e),
    ensures
        keys_unique(final(row)@),
        to_map(final(row)@) == edited(*e, to_map(old(row)@)),
{
    proof {
        lemma_map(row@);
    }
    match e {
        RowEdit::Fill { field, value, aux } => {
            if find_key(row, field.as_str()).is_none() {
                let v = copy_data(value);
                assert(v == *value);
                put(row, field.clone(), (v, aux.clone()));
            }
        },
        RowEdit::Rename { old, new } => {
            match take(row, old.as_str()) {
                Some(slot) => {
                    put(row, new.clone(), slot);
                },
                None => {},
            }
        },
        RowEdit::Remove { field } => {
            take(row, field.as_str());
        },
    }
}


/// `new` is `old` with an edit applied to every row, ids unchanged.
pub open spec fn shard_edited(e: RowEdit, old: Seq<(String, Row)>, new: Seq<(String, Row)>) -> bool {
    new.len() == old.len() && forall|j: int|
        0 <= j < old.len() ==> #[trigger] new[j].0 == old[j].0 && to_map(new[j].1@) == edited(
            e,
            to_map(old[j].1@),
        )
}

/// Every shard of `new` is the same shard of `old` with an edit applied.
pub open spec fn table_edited(e: RowEdit, old: Seq<Shard>, new: Seq<Shard>) -> bool {
    new.len() == old.len() && forall|k: int|
        0 <= k < old.len() ==> shard_edited(e, old[k]@, #[trigger] new[k]@)
}

/// Every shard is well formed.
pub open spec fn shards_wf(s: Seq<Shard>) -> bool {
    forall|k: int| 0 <= k < s.len() ==> shard_wf(#[trigger] s[k]@)
}

/// Applies an edit to every row of one shard.
fn edit_shard(shard: &mut Shard, e: &RowEdit)
    requires
        shard_wf(old(shard)@),
        edit_plain(*e),
    ensures
        shard_wf(final(shard)@),
        shard_edited(*e, old(shard)@, final(shard)@),
{
    let ghost s0 = shard@;
    let n = shard.len();
    let mut j: usize = 0;
    while j < n
        invariant
            n == s0.len(),
            s0 == old(shard)@,
            shard_wf(s0),
            edit_plain(*e),
            shard@.len() == n,
            0 <= j <= n,
            forall|i: int| j <= i < n ==> #[trigger] shard@[i] == s0[i],
            forall|i: int|
                0 <= i < j ==> #[trigger] shard@[i].0 == s0[i].0 && to_map(shard@[i].1@) == edited(
                    *e,
                    to_map(s0[i].1@),
                ) && keys_unique(shard@[i].1@),
        decreases n - j,
    {
        let mut entry: (String, Row) = (String::new(), Vec::new());
        shard.set_and_swap(j, &mut entry);
        assert(keys_unique(s0[j as int].1@));
        edit_row(&mut entry.1, e);
        let ghost edited_entry = entry;
        let ghost prev = shard@;
        shard.set_and_swap(j, &mut entry);
        proof {
            assert(shard@[j as int] == edited_entry);
            assert(edited_entry.0 == s0[j as int].0);
            assert(forall|i: int| 0 <= i < j ==> shard@[i] == prev[i]);
            assert forall|i: int| 0 <= i < j + 1 implies #[trigger] shard@[i].0 == s0[i].0 && to_map(shard@[i].1@) == edited(
                *e,
                to_map(s0[i].1@),
            ) && keys_unique(shard@[i].1@) by {
                if i < j {
                    assert(shard@[i] == prev[i]);
                }
            };
        }
        j = j + 1;
    }
    proof {
        assert forall|a: int, b: int|
            0 <= a < shard@.len() && 0 <= b < shard@.len() && #[trigger] shard@[a].0@
                == #[trigger] shard@[b].0@ implies a == b by {
            assert(shard@[a].0 == s0[a].0 && shard@[b].0 == s0[b].0);
        };
        assert forall|a: int| 0 <= a < shard@.len() implies keys_unique(#[trigger] shard@[a].1@) by {
            assert(shard@[a].0 == s0[a].0);
        };
    }
}

/// Applies an edit to every row of every shard.
fn edit_table(shards: &mut Vec<Shard>, e: &RowEdit)
    requires
        shards_wf(old(shards)@),
        edit_plain(*e),
    ensures
        shards_wf(final(shards)@),
        table_edited(*e, old(shards)@, final(shards)@),
{
    let ghost s0 = shards@;
    let n = shards.len();
    let mut k: usize = 0;
    while k < n
        invariant
            n == s0.len(),
            s0 == old(shards)@,
            shards_wf(s0),
            edit_plain(*e),
            shards@.len() == n,
            0 <= k <= n,
            forall|i: int| k <= i < n ==> #[trigger] shards@[i] == s0[i],
            forall|i: int|
                0 <= i < k ==> shard_edited(*e, s0[i]@, #[trigger] shards@[i]@) && shard_wf(
                    shards@[i]@,
                ),
        decreases n - k,
    {
        let mut shard: Shard = Vec::new();
        shards.set_and_swap(k, &mut shard);
        assert(shard_wf(s0[k as int]@));
        edit_shard(&mut shard, e);
        shards.set_and_swap(k, &mut shard);
        k = k + 1;
    }
}

/// Whether some row of some shard lacks `field`.
fn some_row_lacks(shards: &Vec<Shard>, field: &str) -> (r: bool)
    requires
        shards_wf(shards@),
    ensures
        r == exists|k: int, j: int|
            0 <= k < shards@.len() && 0 <= j < shards@[k]@.len() && !to_map(
                #[trigger] shards@[k]@[j].1@,
            ).contains_key(field@),
{
    let mut k: usize = 0;
    while k < shards.len()
        invariant
            0 <= k <= shards@.len(),
            shards_wf(shards@),
            forall|a: int, j: int|
                0 <= a < k && 0 <= j < shards@[a]@.len() ==> to_map(
                    #[trigger] shards@[a]@[j].1@,
                ).contains_key(field@),
        decreases shards.len() - k,
    {
        let shard = &shards[k];
        let mut j: usize = 0;
        while j < shard.len()
            invariant
                0 <= j <= shard@.len(),
                k < shards@.len(),
                shard@ == shards@[k as int]@,
                shard_wf(shard@),
                forall|i: int| 0 <= i < j ==> to_map(#[trigger] shard@[i].1@).contains_key(field@),
            decreases shard.len() - j,
        {
            assert(keys_unique(shard@[j as int].1@));
            proof {
                lemma_map(shard@[j as int].1@);
            }
            if find_key(&shard[j].1, field).is_none() {
                assert(!to_map(shards@[k as int]@[j as int].1@).contains_key(field@));
                return true;
            }
            j = j + 1;
        }
        k = k + 1;
    }
    false
}

/// The type tag a migration may give a column when it creates a table.
pub open spec fn created_type(name: Seq<char>) -> Option<Type> {
    if name == "STRING"@ {
        Some(Type::STRING)
    } else if name == "NUMBER"@ {
        Some(Type::NUMBER)
    } else if name == "BOOLEAN"@ {
        Some(Type::BOOLEAN)
    } else {
        None
    }
}

/// Whether a text names a type tag.
pub open spec fn is_type_name(name: Seq<char>) -> bool {
    exists|t: Type| crate::value::tag_text(t) == name
}

/// The schema after a column is given a type and no pattern.
pub open spec fn with_column(old: TABLE, new: TABLE, field: Seq<char>, t: Type) -> bool {
    &&& new.name == old.name
    &&& new.id_column == old.id_column
    &&& new.fields().contains_key(field)
    &&& new.fields()[field].0 == t
    &&& new.fields()[field].1@.len() == 0
    &&& new.fields().remove(field) == old.fields().remove(field)
}

/// The names of a list of texts.
pub open spec fn names(v: Seq<String>) -> Seq<Seq<char>> {
    v.map_values(|s: String| s@)
}

/// A hidden file name, such as that of the applied-ledger.
pub open spec fn hidden(name: Seq<char>) -> bool {
    name.len() > 0 && name[0] == '.'
}

/// `run` is what a run applies, in order, given the migration files and the
/// ledger: each file that is not hidden and not applied yet, once, sorted by
/// name.
pub open spec fn pending_ok(files: Seq<Seq<char>>, applied: Seq<Seq<char>>, run: Seq<Seq<char>>) -> bool {
    &&& forall|j: int|
        0 <= j < run.len() ==> files.contains(#[trigger] run[j]) && !applied.contains(run[j])
            && !hidden(run[j])
    &&& forall|i: int|
        0 <= i < files.len() && !hidden(#[trigger] files[i]) && !applied.contains(files[i])
            ==> run.contains(files[i])
    &&& forall|i: int, j: int|
        0 <= i < j < run.len() ==> !text_lt(#[trigger] run[j], #[trigger] run[i]) && run[i]
            != run[j]
}

/// Whether a list of texts holds one with the given name.
fn contains_name(v: &Vec<String>, name: &str) -> (r: bool)
    ensures
        r == names(v@).contains(name@),
{
    let mut i: usize = 0;
    while i < v.len()
        invariant
            0 <= i <= v@.len(),
            forall|j: int| 0 <= j < i ==> #[trigger] v@[j]@ != name@,
        decreases v.len() - i,
    {
        if str_eq(v[i].as_str(), name) {
            assert(names(v@)[i as int] == name@);
            return true;
        }
        i = i + 1;
    }
    proof {
        if names(v@).contains(name@) {
            let j = choose|j: int| 0 <= j < names(v@).len() && names(v@)[j] == name@;
            assert(v@[j]@ == name@);
        }
    }
    false
}

/// The migration files a run applies, in the order it applies them.
pub fn pending_migrations(files: &Vec<String>, applied: &Vec<String>) -> (r: Vec<String>)
    ensures
        pending_ok(names(files@), names(applied@), names(r@)),
{
    let mut rest: Vec<String> = Vec::new();
    let mut i: usize = 0;
    while i < files.len()
        invariant
            0 <= i <= files@.len(),
            forall|j: int|
                0 <= j < rest@.len() ==> names(files@).contains(#[trigger] names(rest@)[j])
                    && !names(applied@).contains(names(rest@)[j]) && !hidden(names(rest@)[j]),
            forall|j: int|
                0 <= j < i && !hidden(#[trigger] names(files@)[j]) && !names(applied@).contains(
                    names(files@)[j],
                ) ==> names(rest@).contains(names(files@)[j]),
            forall|a: int, b: int|
                0 <= a < b < rest@.len() ==> #[trigger] names(rest@)[a] != #[trigger] names(rest@)[b],
        decreases files.len() - i,
    {
        let name = files[i].as_str();
        let is_hidden = name.unicode_len() > 0 && name.get_char(0) == '.';
        if !is_hidden && !contains_name(applied, name) && !contains_name(&rest, name) {
            let ghost before = rest@;
            rest.push(files[i].clone());
            proof {
                assert(names(rest@) == names(before).push(name@));
                assert(names(files@)[i as int] == name@);
                assert(names(rest@)[before.len() as int] == name@);
                assert forall|j: int|
                    0 <= j < i + 1 && !hidden(#[trigger] names(files@)[j]) && !names(applied@).contains(
                        names(files@)[j],
                    ) implies names(rest@).contains(names(files@)[j]) by {
                    if j < i {
                        let q = choose|q: int| 0 <= q < names(before).len() && names(before)[q] == names(files@)[j];
                        assert(names(rest@)[q] == names(before)[q]);
                    }
                };
            }
        } else {
            proof {
                assert(names(files@)[i as int] == name@);
            }
        }
        i = i + 1;
    }
    let mut out: Vec<String> = Vec::new();
    let ghost pool = names(rest@);
    let ghost rest0 = rest@;
    proof {
        assert(names(out@) + names(rest@) =~= names(rest@));
    }
    while rest.len() > 0
        invariant
            pool == names(rest0),
            forall|j: int|
                0 <= j < pool.len() ==> names(files@).contains(#[trigger] pool[j])
                    && !names(applied@).contains(pool[j]) && !hidden(pool[j]),
            forall|j: int|
                0 <= j < files@.len() && !hidden(#[trigger] names(files@)[j]) && !names(applied@).contains(
                    names(files@)[j],
                ) ==> pool.contains(names(files@)[j]),
            forall|a: int, b: int|
                0 <= a < b < pool.len() ==> #[trigger] pool[a] != #[trigger] pool[b],
            (names(out@) + names(rest@)).to_multiset() == pool.to_multiset(),
            forall|a: int, b: int|
                0 <= a < b < names(out@).len() ==> !text_lt(#[trigger] names(out@)[b], #[trigger] names(out@)[a]),
            forall|a: int, b: int|
                0 <= a < names(out@).len() && 0 <= b < names(rest@).len() ==> !text_lt(
                    #[trigger] names(rest@)[b],
                    #[trigger] names(out@)[a],
                ),
        decreases rest.len(),
    {
        let mut best: usize = 0;
        let mut q: usize = 1;
        while q < rest.len()
            invariant
                0 <= best < q <= rest@.len(),
                forall|p: int| 0 <= p < q ==> !text_lt(#[trigger] rest@[p]@, rest@[best as int]@),
            decreases rest.len() - q,
        {
            if matches!(text_compare(rest[q].as_str(), rest[best].as_str()), std::cmp::Ordering::Less) {
                proof {
                    assert forall|p: int| 0 <= p < q implies !text_lt(#[trigger] rest@[p]@, rest@[q as int]@) by {
                        if text_lt(rest@[p]@, rest@[q as int]@) {
                            lemma_text_lt_transitive(rest@[p]@, rest@[q as int]@, rest@[best as int]@);
                        }
                    };
                    crate::value::lemma_text_lt_irreflexive(rest@[q as int]@);
                }
                best = q;
            }
            q = q + 1;
        }
        let ghost r0 = rest@;
        let ghost o0 = out@;
        let m = rest.remove(best);
        out.push(m);
        proof {
            assert(names(out@) == names(o0).push(m@));
            assert(names(rest@) == names(r0).remove(best as int));
            assert(names(r0) == names(r0).remove(best as int).insert(best as int, m@));
            vstd::seq_lib::to_multiset_insert(names(rest@), best as int, m@);
            vstd::seq_lib::to_multiset_build(names(o0), m@);
            vstd::seq_lib::lemma_multiset_commutative(names(o0), names(r0));
            vstd::seq_lib::lemma_multiset_commutative(names(out@), names(rest@));
            assert forall|a: int, b: int|
                0 <= a < b < names(out@).len() implies !text_lt(#[trigger] names(out@)[b], #[trigger] names(out@)[a]) by {
                if b == names(o0).len() {
                    assert(names(o0)[a] == names(out@)[a]);
                    assert(names(r0)[best as int] == m@);
                } else {
                    assert(names(o0)[a] == names(out@)[a]);
                    assert(names(o0)[b] == names(out@)[b]);
                }
            };
            assert forall|a: int, b: int|
                0 <= a < names(out@).len() && 0 <= b < names(rest@).len() implies !text_lt(
                    #[trigger] names(rest@)[b],
                    #[trigger] names(out@)[a],
                ) by {
                let b0 = if b < best { b } else { b + 1 };
                assert(names(rest@)[b] == names(r0)[b0]);
                if a < names(o0).len() {
                    assert(names(out@)[a] == names(o0)[a]);
                } else {
                    assert(names(out@)[a] == m@);
                    assert(r0[b0]@ == names(r0)[b0]);
                }
            };
        }
    }
    proof {
        assert(names(rest@) =~= Seq::<Seq<char>>::empty());
        assert(names(out@) + names(rest@) =~= names(out@));
        let mo = names(out@);
        assert(mo.to_multiset() == pool.to_multiset());
        mo.to_multiset_ensures();
        pool.to_multiset_ensures();
        assert forall|x: Seq<char>| mo.contains(x) <==> pool.contains(x) by {
            assert(mo.contains(x) <==> mo.to_multiset().count(x) > 0);
            assert(pool.contains(x) <==> pool.to_multiset().count(x) > 0);
        };
        assert(pool.no_duplicates()) by {
            assert forall|a: int, b: int| 0 <= a < pool.len() && 0 <= b < pool.len() && a != b
                implies pool[a] != pool[b] by {
                if a < b {
                    assert(pool[a] != pool[b]);
                } else {
                    assert(pool[b] != pool[a]);
                }
            };
        };
        pool.lemma_multiset_has_no_duplicates();
        names(out@).lemma_multiset_has_no_duplicates_conv();
        assert forall|j: int| 0 <= j < mo.len() implies names(files@).contains(#[trigger] mo[j])
            && !names(applied@).contains(mo[j]) && !hidden(mo[j]) by {
            assert(mo.contains(mo[j]));
            let q = choose|q: int| 0 <= q < pool.len() && pool[q] == mo[j];
        };
        assert forall|a: int, b: int| 0 <= a < b < mo.len() implies !text_lt(#[trigger] mo[b], #[trigger] mo[a])
            && mo[a] != mo[b] by {};
    }
    out
}

/// Relies on chrono's `Utc::now` formatted as `%Y%m%d%H%M%S%.6f`: the
/// current time, written with digits, a sign for years out of four digits,
/// and a dot before the fraction; never empty, never an underscore.
#[verifier::external_body]
fn timestamp() -> (r: String)
    ensures
        r@.len() > 0,
        forall|i: int|
            0 <= i < r@.len() ==> ('0' <= #[trigger] r@[i] <= '9' || r@[i] == '.' || r@[i] == '+'
                || r@[i] == '-'),
{
    chrono::Utc::now().format("%Y%m%d%H%M%S%.6f").to_string()
}

impl DATABASE {
    /// The file name of a new migration: an ordering key taken from the
    /// clock, then `_` and the label.
    pub fn next_migration_filename(label: &str) -> (r: String)
        ensures
            exists|key: Seq<char>|
                r@ == key + "_"@ + label@ && key.len() > 0 && forall|i: int|
                    0 <= i < key.len() ==> ('0' <= #[trigger] key[i] <= '9' || key[i] == '.' || key[i]
                        == '+' || key[i] == '-'),
    {
        let key = timestamp();
        key.concat("_").concat(label)
    }

    /// The query builder for a table.
    pub fn query(table_name: &str) -> (r: crate::query::QueryBuilder)
        ensures
            r.table@ == table_name@,
            r.conditions@.len() == 0,
            r.limit is None,
            r.sort_field is None,
            r.sort_ascending,
    {
        crate::query::QueryBuilder::new(table_name)
    }

    /// Adds a column: rows that lack `field` get the default, with the type
    /// name as auxiliary text, and the schema gets the field with that type
    /// and no pattern. An unknown type name, or a default of an unsupported
    /// shape where some row needs it, is refused and nothing changes.
    pub fn add_column(
        schema: &mut TABLE,
        shards: &mut Vec<Shard>,
        field: &str,
        datatype: &str,
        default: &DefaultValue,
    ) -> (r: Result<(), DbError>)
        requires
            old(schema).wf(),
            shards_wf(old(shards)@),
        ensures
            final(schema).wf(),
            shards_wf(final(shards)@),
            r is Err ==> r == Err::<(), DbError>(DbError::Unsupported) && *final(schema)
                == *old(schema) && final(shards)@ == old(shards)@,
            r is Err <==> (!is_type_name(datatype@) || (default_data(*default) is None
                && exists|k: int, j: int|
                0 <= k < old(shards)@.len() && 0 <= j < old(shards)@[k]@.len() && !to_map(
                    #[trigger] old(shards)@[k]@[j].1@,
                ).contains_key(field@))),
            r is Ok ==> exists|t: Type|
                crate::value::tag_text(t) == datatype@ && #[trigger] with_column(
                    *old(schema),
                    *final(schema),
                    field@,
                    t,
                ),
            r is Ok ==> match default_data(*default) {
                Some(v) => exists|e: RowEdit|
                    e matches RowEdit::Fill { field: f, value, aux } && f@ == field@ && value == v
                        && aux@ == datatype@ && #[trigger] table_edited(e, old(shards)@, final(shards)@),
                None => final(shards)@ == old(shards)@,
            },
    {
        let t = match Type::from_string(datatype.to_owned()) {
            Ok(t) => t,
            Err(_) => {
                return Err(DbError::Unsupported);
            },
        };
        let value = match default {
            DefaultValue::Text(s) => Some(Data::STRING(s.clone())),
            DefaultValue::Number(n) => Some(Data::NUMBER(*n)),
            DefaultValue::Boolean(b) => Some(Data::BOOLEAN(*b)),
            DefaultValue::Unsupported => None,
        };
        match value {
            None => {
                if some_row_lacks(shards, field) {
                    return Err(DbError::Unsupported);
                }
            },
            Some(v) => {
                let e = RowEdit::Fill { field: field.to_owned(), value: v, aux: datatype.to_owned() };
                edit_table(shards, &e);
            },
        }
        let ghost before = schema.field_names@;
        let no_pattern = String::new();
        let ghost slot = (t, no_pattern);
        put(&mut schema.field_names, field.to_owned(), (t, no_pattern));
        proof {
            assert(schema.fields() == to_map(before).insert(field@, slot));
            assert(schema.fields().remove(field@) =~= to_map(before).remove(field@));
            assert(with_column(*old(schema), *schema, field@, t));
        }
        Ok(())
    }

    /// Renames a column in every row and in the schema. The id column and a
    /// column the schema lacks are refused, and nothing changes.
    pub fn rename_column(schema: &mut TABLE, shards: &mut Vec<Shard>, old_field: &str, new_field: &str) -> (r:
        Result<(), DbError>)
        requires
            old(schema).wf(),
            shards_wf(old(shards)@),
        ensures
            final(schema).wf(),
            shards_wf(final(shards)@),
            old(schema).id_column@ == old_field@ ==> r == Err::<(), DbError>(DbError::IdColumn),
            old(schema).id_column@ != old_field@ && !old(schema).fields().contains_key(old_field@)
                ==> r == Err::<(), DbError>(DbError::NotFound),
            r is Err ==> *final(schema) == *old(schema) && final(shards)@ == old(shards)@,
            old(schema).id_column@ != old_field@ && old(schema).fields().contains_key(old_field@)
                ==> r is Ok,
            r is Ok ==> final(schema).name == old(schema).name && final(schema).id_column == old(
                schema,
            ).id_column && final(schema).fields() == old(schema).fields().remove(old_field@).insert(
                new_field@,
                old(schema).fields()[old_field@],
            ) && exists|e: RowEdit|
                e matches RowEdit::Rename { old: from, new: to } && from@ == old_field@ && to@ == new_field@
                    && #[trigger] table_edited(e, old(shards)@, final(shards)@),
    {
        if str_eq(schema.id_column.as_str(), old_field) {
            return Err(DbError::IdColumn);
        }
        proof {
            lemma_map(schema.field_names@);
        }
        if find_key(&schema.field_names, old_field).is_none() {
            return Err(DbError::NotFound);
        }
        let e = RowEdit::Rename { old: old_field.to_owned(), new: new_field.to_owned() };
        edit_table(shards, &e);
        match take(&mut schema.field_names, old_field) {
            Some(spec) => {
                put(&mut schema.field_names, new_field.to_owned(), spec);
            },
            None => {},
        }
        Ok(())
    }

    /// Removes a column from every row and from the schema. The id column
    /// and a column the schema lacks are refused, and nothing changes.
    pub fn drop_column(schema: &mut TABLE, shards: &mut Vec<Shard>, field: &str) -> (r: Result<
        (),
        DbError,
    >)
        requires
            old(schema).wf(),
            shards_wf(old(shards)@),
        ensures
            final(schema).wf(),
            shards_wf(final(shards)@),
            old(schema).id_column@ == field@ ==> r == Err::<(), DbError>(DbError::IdColumn),
            old(schema).id_column@ != field@ && !old(schema).fields().contains_key(field@) ==> r
                == Err::<(), DbError>(DbError::NotFound),
            r is Err ==> *final(schema) == *old(schema) && final(shards)@ == old(shards)@,
            old(schema).id_column@ != field@ && old(schema).fields().contains_key(field@) ==> r is Ok,
            r is Ok ==> final(schema).name == old(schema).name && final(schema).id_column == old(
                schema,
            ).id_column && final(schema).fields() == old(schema).fields().remove(field@) && exists|
                e: RowEdit,
            |
                e matches RowEdit::Remove { field: f } && f@ == field@ && #[trigger] table_edited(
                    e,
                    old(shards)@,
                    final(shards)@,
                ),
    {
        if str_eq(schema.id_column.as_str(), field) {
            return Err(DbError::IdColumn);
        }
        proof {
            lemma_map(schema.field_names@);
        }
        if find_key(&schema.field_names, field).is_none() {
            return Err(DbError::NotFound);
        }
        let e = RowEdit::Remove { field: field.to_owned() };
        edit_table(shards, &e);
        take(&mut schema.field_names, field);
        Ok(())
    }

    /// A table descriptor, once the id column is found among the fields.
    pub fn create_table(fields: Vec<(String, FieldSpec)>, id_field: String, name: String) -> (r:
        Result<TABLE, DbError>)
        ensures
            has_key(fields@, id_field@) ==> (r matches Ok(t) && t.wf() && t.name == name
                && t.id_column == id_field && t.fields() == to_map(fields@)),
            !has_key(fields@, id_field@) ==> r == Err::<TABLE, DbError>(DbError::IdColumn),
    {
        let ghost s0 = fields@;
        if find_key(&fields, id_field.as_str()).is_none() {
            return Err(DbError::IdColumn);
        }
        let mut src = fields;
        let mut out: Vec<(String, FieldSpec)> = Vec::new();
        let n = src.len();
        let mut i: usize = 0;
        proof {
            assert(s0.subrange(0, 0).len() == 0);
            assert(to_map(out@) == to_map(s0.subrange(0, 0)));
        }
        while i < n
            invariant
                n == s0.len(),
                src@.len() == n,
                0 <= i <= n,
                forall|j: int| i <= j < n ==> #[trigger] src@[j] == s0[j],
                keys_unique(out@),
                to_map(out@) == to_map(s0.subrange(0, i as int)),
            decreases n - i,
        {
            let mut e: (String, FieldSpec) = (String::new(), (Type::NULL, String::new()));
            src.set_and_swap(i, &mut e);
            proof {
                assert(s0.subrange(0, i + 1).drop_last() == s0.subrange(0, i as int));
            }
            put(&mut out, e.0, e.1);
            i = i + 1;
        }
        proof {
            assert(s0.subrange(0, n as int) == s0);
        }
        Ok(TABLE { name, id_column: id_field, field_names: out })
    }

    /// The table descriptor of a create-table migration: each field's type
    /// must be STRING, NUMBER or BOOLEAN, and its pattern is empty.
    pub fn create_table_migration(id_column: &str, fields: &Vec<(String, String)>, name: &str) -> (r:
        Result<TABLE, DbError>)
        ensures
            (exists|i: int| 0 <= i < fields@.len() && created_type(#[trigger] fields@[i].1@) is None)
                ==> r == Err::<TABLE, DbError>(DbError::Unsupported),
            r matches Ok(t) ==> t.wf() && t.name@ == name@ && t.id_column@ == id_column@
                && (forall|k: Seq<char>| #[trigger] t.fields().contains_key(k) <==> has_key(fields@, k))
                && (forall|i: int| 0 <= i < fields@.len() ==> created_type(#[trigger] fields@[i].1@) is Some)
                && (forall|k: Seq<char>| #[trigger] t.fields().contains_key(k) ==> t.fields()[k].1@.len() == 0)
                && (forall|k: Seq<char>| #[trigger] t.fields().contains_key(k) ==> exists|i: int|
                    0 <= i < fields@.len() && fields@[i].0@ == k && created_type(#[trigger] fields@[i].1@)
                        == Some(t.fields()[k].0)),
            (forall|i: int| 0 <= i < fields@.len() ==> created_type(#[trigger] fields@[i].1@) is Some)
                ==> (r is Ok <==> has_key(fields@, id_column@)),
    {
        let mut specs: Vec<(String, FieldSpec)> = Vec::new();
        let mut i: usize = 0;
        while i < fields.len()
            invariant
                0 <= i <= fields@.len(),
                specs@.len() == i,
                forall|j: int| 0 <= j < i ==> created_type(#[trigger] fields@[j].1@) is Some,
                forall|j: int| 0 <= j < i ==> #[trigger] specs@[j].0@ == fields@[j].0@ && specs@[j].1.1@.len() == 0
                    && created_type(fields@[j].1@) == Some(specs@[j].1.0),
            decreases fields.len() - i,
        {
            let t = if str_eq(fields[i].1.as_str(), "STRING") {
                Type::STRING
            } else if str_eq(fields[i].1.as_str(), "NUMBER") {
                Type::NUMBER
            } else if str_eq(fields[i].1.as_str(), "BOOLEAN") {
                Type::BOOLEAN
            } else {
                assert(created_type(fields@[i as int].1@) is None);
                return Err(DbError::Unsupported);
            };
            specs.push((fields[i].0.clone(), (t, String::new())));
            i = i + 1;
        }
        proof {
            assert forall|k: Seq<char>| has_key(specs@, k) <==> has_key(fields@, k) by {
                if has_key(specs@, k) {
                    let j = choose|j: int| 0 <= j < specs@.len() && #[trigger] specs@[j].0@ == k;
                    assert(fields@[j].0@ == k);
                }
                if has_key(fields@, k) {
                    let j = choose|j: int| 0 <= j < fields@.len() && #[trigger] fields@[j].0@ == k;
                    assert(specs@[j].0@ == k);
                }
            };
            crate::assoc::lemma_dom(specs@);
        }
        let ghost sv = specs@;
        let r = Self::create_table(specs, id_column.to_owned(), name.to_owned());
        proof {
            if r is Ok {
                let t = r->Ok_0;
                crate::assoc::lemma_values(sv);
                assert forall|k: Seq<char>| #[trigger] t.fields().contains_key(k) implies t.fields()[k].1@.len() == 0 by {
                    let j = choose|j: int| 0 <= j < sv.len() && sv[j].0@ == k && #[trigger] sv[j].1 == to_map(sv)[k];
                };
                assert forall|k: Seq<char>| #[trigger] t.fields().contains_key(k) implies exists|i: int|
                    0 <= i < fields@.len() && fields@[i].0@ == k && created_type(#[trigger] fields@[i].1@)
                        == Some(t.fields()[k].0) by {
                    let j = choose|j: int| 0 <= j < sv.len() && sv[j].0@ == k && #[trigger] sv[j].1 == to_map(sv)[k];
                    assert(created_type(fields@[j].1@) == Some(t.fields()[k].0));
                };
            }
        }
        r
    }
}

} // verus!
