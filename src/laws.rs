//! Properties of the storage engine, stated over the contracts of its
//! operations and proved.
use vstd::prelude::*;
use crate::assoc::to_map;
use crate::schema::{Row, Slot, TABLE, conforms};
use crate::assoc::keys_unique;
use crate::shard::{numeric_id, shard_file};
use crate::store::{admit_row, insert_outcome, lookup};
use crate::update::{goes_to, merged_from, owner, placed, row_updated, table_updated, updates_match};
use crate::scan::RowFilter;
use crate::migrate::{RowEdit, pending_ok, table_edited, with_column};
use crate::store::Shard;
use crate::value::Type;

verus! {

/// The text in the id column of a row, if it holds a text.
pub open spec fn id_text(row: Seq<(String, Slot)>, id_column: Seq<char>) -> Option<Seq<char>> {
    if to_map(row).contains_key(id_column) && to_map(row)[id_column].0 is STRING {
        Some(to_map(row)[id_column].0->STRING_0@)
    } else {
        None
    }
}

/// Inserting a conforming row, where no row has its id or overwriting is
/// asked for, succeeds, and reading by the text of its id column then gives
/// the row back.
pub proof fn law_round_trip(
    schema: TABLE,
    m: Map<Seq<char>, Row>,
    row: Row,
    text: Seq<char>,
    overwrite: bool,
)
    requires
        conforms(row@, schema),
        id_text(row@, schema.id_column@) == Some(text),
        !m.contains_key(numeric_id(text)) || overwrite,
    ensures
        insert_outcome(schema, m, row, overwrite) matches Ok(m2) && lookup(m2, text) == Some(
            row,
        ),
{
}

/// Inserting a conforming row whose id is taken, without overwriting, is a
/// conflict, and the stored row stays as it was.
pub proof fn law_conflict(
    schema: TABLE,
    m: Map<Seq<char>, Row>,
    row: Row,
    text: Seq<char>,
)
    requires
        conforms(row@, schema),
        id_text(row@, schema.id_column@) == Some(text),
        m.contains_key(numeric_id(text)),
    ensures
        insert_outcome(schema, m, row, false) == Err::<Map<Seq<char>, Row>, crate::schema::DbError>(
            crate::schema::DbError::IdConflict,
        ),
        lookup(m, text) == Some(m[numeric_id(text)]),
{
}

/// Inserting a conforming row whose id is taken, with overwriting, replaces
/// the stored row: a read then gives only the new one, and no other id is
/// touched.
pub proof fn law_overwrite(
    schema: TABLE,
    m: Map<Seq<char>, Row>,
    row: Row,
    text: Seq<char>,
)
    requires
        conforms(row@, schema),
        id_text(row@, schema.id_column@) == Some(text),
    ensures
        insert_outcome(schema, m, row, true) == Ok::<Map<Seq<char>, Row>, crate::schema::DbError>(
            m.insert(numeric_id(text), row),
        ),
        lookup(m.insert(numeric_id(text), row), text) == Some(row),
{
}

/// Deleting by an identifying text leaves nothing to read under it; deleting
/// a text that has no row changes nothing.
pub proof fn law_delete(m: Map<Seq<char>, Row>, text: Seq<char>)
    ensures
        lookup(m.remove(numeric_id(text)), text) is None,
        lookup(m, text) is None ==> m.remove(numeric_id(text)) == m,
{
    if lookup(m, text) is None {
        assert(m.remove(numeric_id(text)) =~= m);
    }
}

/// Two rows with distinct ids in the same shard are each inserted and read
/// back without affecting the other.
pub proof fn law_same_shard(
    schema: TABLE,
    m: Map<Seq<char>, Row>,
    a: Row,
    ta: Seq<char>,
    b: Row,
    tb: Seq<char>,
    overwrite: bool,
)
    requires
        conforms(a@, schema),
        conforms(b@, schema),
        id_text(a@, schema.id_column@) == Some(ta),
        id_text(b@, schema.id_column@) == Some(tb),
        numeric_id(ta) != numeric_id(tb),
        shard_file(numeric_id(ta)) == shard_file(numeric_id(tb)),
        !m.contains_key(numeric_id(ta)) || overwrite,
        !m.contains_key(numeric_id(tb)) || overwrite,
    ensures
        insert_outcome(schema, m, a, overwrite) matches Ok(m1) && insert_outcome(
            schema,
            m1,
            b,
            overwrite,
        ) matches Ok(m2) && lookup(m2, ta) == Some(a) && lookup(m2, tb) == Some(b),
{
}


/// A second run of the migrations, with the first run's files added to the
/// ledger and no new file, applies nothing.
pub proof fn law_second_run_applies_nothing(
    files: Seq<Seq<char>>,
    applied: Seq<Seq<char>>,
    first: Seq<Seq<char>>,
    second: Seq<Seq<char>>,
)
    requires
        pending_ok(files, applied, first),
        pending_ok(files, applied + first, second),
    ensures
        second.len() == 0,
{
    if second.len() > 0 {
        let x = second[0];
        assert(files.contains(x));
        let i = choose|i: int| 0 <= i < files.len() && files[i] == x;
        assert(!(applied + first).contains(x));
        if applied.contains(x) {
            let q = choose|q: int| 0 <= q < applied.len() && applied[q] == x;
            assert((applied + first)[q] == x);
        }
        assert(first.contains(files[i]));
        let q = choose|q: int| 0 <= q < first.len() && first[q] == x;
        assert((applied + first)[applied.len() + q] == x);
    }
}

/// After a column is added, every row that lacked it holds the default with
/// the type name as auxiliary text, every row that had it keeps its slot,
/// and the schema reports the column with its type.
pub proof fn law_added_column_covers_rows(
    e: RowEdit,
    old: Seq<Shard>,
    new: Seq<Shard>,
    old_schema: TABLE,
    new_schema: TABLE,
    t: Type,
)
    requires
        e is Fill,
        table_edited(e, old, new),
        with_column(old_schema, new_schema, e->Fill_field@, t),
    ensures
        new.len() == old.len(),
        forall|k: int, j: int|
            0 <= k < old.len() && 0 <= j < old[k]@.len() ==> new[k]@[j].0 == old[k]@[j].0
                && to_map(#[trigger] new[k]@[j].1@).contains_key(e->Fill_field@),
        forall|k: int, j: int|
            0 <= k < old.len() && 0 <= j < old[k]@.len() && !to_map(#[trigger] old[k]@[j].1@).contains_key(
                e->Fill_field@,
            ) ==> to_map(new[k]@[j].1@)[e->Fill_field@] == (e->Fill_value, e->Fill_aux),
        forall|k: int, j: int|
            0 <= k < old.len() && 0 <= j < old[k]@.len() && to_map(#[trigger] old[k]@[j].1@).contains_key(
                e->Fill_field@,
            ) ==> to_map(new[k]@[j].1@) == to_map(old[k]@[j].1@),
        new_schema.fields().contains_key(e->Fill_field@),
        new_schema.fields()[e->Fill_field@].0 == t,
{
    assert forall|k: int, j: int|
        0 <= k < old.len() && 0 <= j < old[k]@.len() implies new[k]@[j].0 == old[k]@[j].0
            && to_map(#[trigger] new[k]@[j].1@).contains_key(e->Fill_field@) by {
        assert(crate::migrate::shard_edited(e, old[k]@, new[k]@));
        let ns = new[k]@;
        let os = old[k]@;
        assert(ns[j].0 == os[j].0);
        assert(to_map(ns[j].1@) == crate::migrate::edited(e, to_map(os[j].1@)));
        if to_map(os[j].1@).contains_key(e->Fill_field@) {
        } else {
            assert(to_map(ns[j].1@).contains_key(e->Fill_field@));
        }
    };
    assert forall|k: int, j: int|
        0 <= k < old.len() && 0 <= j < old[k]@.len() && !to_map(#[trigger] old[k]@[j].1@).contains_key(
            e->Fill_field@,
        ) implies to_map(new[k]@[j].1@)[e->Fill_field@] == (e->Fill_value, e->Fill_aux) by {
        assert(crate::migrate::shard_edited(e, old[k]@, new[k]@));
    };
    assert forall|k: int, j: int|
        0 <= k < old.len() && 0 <= j < old[k]@.len() && to_map(#[trigger] old[k]@[j].1@).contains_key(
            e->Fill_field@,
        ) implies to_map(new[k]@[j].1@) == to_map(old[k]@[j].1@) by {
        assert(crate::migrate::shard_edited(e, old[k]@, new[k]@));
    };
}


/// An update whose patch leaves the id column alone derives the id the row
/// was stored under, so the row goes back to the same shard.
pub proof fn law_update_keeps_id(
    schema: TABLE,
    old_row: Row,
    patch: Seq<(String, Slot)>,
    new_row: Row,
    new_id: Seq<char>,
    text: Seq<char>,
)
    requires
        id_text(old_row@, schema.id_column@) == Some(text),
        !to_map(patch).contains_key(schema.id_column@),
        merged_from(to_map(old_row@), to_map(patch), to_map(new_row@)),
        admit_row(new_row@, schema) == Ok::<Seq<char>, crate::schema::DbError>(new_id),
    ensures
        new_id == numeric_id(text),
        shard_file(new_id) == shard_file(numeric_id(text)),
{
    let col = schema.id_column@;
    assert(to_map(new_row@).contains_key(col));
    assert(crate::value::data_same(to_map(new_row@)[col].0, to_map(old_row@)[col].0));
}


/// After an update by id succeeds, the shard that owns the merged row's id
/// holds the merged row under it, and when that id differs from the old one
/// the old shard no longer holds the old id.
pub proof fn law_updated_row_is_stored(
    schema: TABLE,
    id: Seq<char>,
    patch: Seq<(String, Slot)>,
    files0: Seq<String>,
    old: Seq<Shard>,
    files: Seq<String>,
    new: Seq<Shard>,
    r: Result<Row, crate::schema::DbError>,
)
    requires
        row_updated(schema, id, patch, files0, old, files, new, r),
        r is Ok,
    ensures
        exists|item: (String, Row), k2: int|
            crate::store::rows_same(r->Ok_0@, item.1@) && admit_row(item.1@, schema) == Ok::<
                Seq<char>,
                crate::schema::DbError,
            >(item.0@) && 0 <= k2 < files.len() && files[k2]@ == shard_file(item.0@)
                && #[trigger] to_map(new[k2]@).contains_key(item.0@) && to_map(new[k2]@)[item.0@]
                == item.1 && (item.0@ != id ==> !to_map(new[owner(files0, id)]@).contains_key(id)),
{
    let k = owner(files0, id);
    let (mid, item) = choose|mid: Seq<Shard>, item: (String, Row)|
        mid.len() == old.len() && (forall|q: int| 0 <= q < old.len() && q != k ==> #[trigger] mid[q] == old[q])
            && to_map(mid[k]@) == to_map(old[k]@).remove(id) && keys_unique(item.1@)
            && merged_from(to_map(to_map(old[k]@)[id]@), to_map(patch), to_map(item.1@)) && admit_row(
            item.1@,
            schema,
        ) == Ok::<Seq<char>, crate::schema::DbError>(item.0@) && crate::store::rows_same(r->Ok_0@, item.1@)
            && #[trigger] placed(files0, mid, seq![item], files, new);
    let items = seq![item];
    assert(items[0] == item);
    let k2 = choose|k2: int| 0 <= k2 < files.len() && #[trigger] files[k2]@ == shard_file(items[0].0@);
    let e = Seq::<(String, Row)>::empty();
    assert(e.push(item) == items);
    e.lemma_filter_len(goes_to(files[k2]@));
    e.lemma_filter_push(item, goes_to(files[k2]@));
    assert(items.filter(goes_to(files[k2]@)) =~= seq![item]);
    assert(seq![item].drop_last() =~= e);
    assert(seq![item].last() == item);
    assert(to_map(e) == Map::<Seq<char>, Row>::empty());
    assert(to_map(seq![item]) == Map::<Seq<char>, Row>::empty().insert(item.0@, item.1));
    assert(to_map(new[k2]@).contains_key(item.0@));
    if item.0@ != id {
        assert(0 <= k < files0.len());
        e.lemma_filter_len(goes_to(files[k]@));
        e.lemma_filter_push(item, goes_to(files[k]@));
        let fk = items.filter(goes_to(files[k]@));
        if fk.len() > 0 {
            assert(fk =~= seq![item]);
        } else {
            assert(fk =~= e);
            assert(to_map(fk) == Map::<Seq<char>, Row>::empty());
        }
        assert(!to_map(new[k]@).contains_key(id));
    }
}


/// With distinct ids, an entry that passes `g` is in the map of the entries
/// that pass `g`, with its row.
pub proof fn lemma_filtered_map(items: Seq<(String, Row)>, g: spec_fn((String, Row)) -> bool, t: int)
    requires
        keys_unique(items),
        0 <= t < items.len(),
        g(items[t]),
    ensures
        to_map(items.filter(g)).contains_key(items[t].0@),
        to_map(items.filter(g))[items[t].0@] == items[t].1,
    decreases items.len(),
{
    let pre = items.drop_last();
    let last = items.last();
    assert(items == pre.push(last));
    pre.lemma_filter_push(last, g);
    let fp = pre.filter(g);
    if t == items.len() - 1 {
        assert(fp.push(last).drop_last() == fp);
        assert(to_map(fp.push(last)) == to_map(fp).insert(last.0@, last.1));
    } else {
        assert(pre[t] == items[t]);
        assert(keys_unique(pre)) by {
            assert forall|a: int, b: int|
                0 <= a < pre.len() && 0 <= b < pre.len() && #[trigger] pre[a].0@ == #[trigger] pre[b].0@
                implies a == b by {
                assert(pre[a] == items[a] && pre[b] == items[b]);
            };
        };
        lemma_filtered_map(pre, g, t);
        if g(last) {
            assert(fp.push(last).drop_last() == fp);
            assert(to_map(fp.push(last)) == to_map(fp).insert(last.0@, last.1));
            assert(last.0@ != items[t].0@) by {
                assert(items[items.len() - 1] == last);
            };
        }
    }
}

/// The shard that owns an entry's id holds its row under that id.
pub open spec fn stored_in(files: Seq<String>, shards: Seq<Shard>, e: (String, Row)) -> bool {
    exists|k: int|
        0 <= k < files.len() && files[k]@ == shard_file(e.0@) && #[trigger] to_map(shards[k]@).contains_key(e.0@)
            && to_map(shards[k]@)[e.0@] == e.1
}

/// After a where-update succeeds, every handed-back row is the update of a
/// matched entry, and when their ids are distinct each is stored under its
/// id in the shard that owns it.
pub proof fn law_updated_rows_are_stored(
    schema: TABLE,
    f: RowFilter,
    patch: Seq<(String, Slot)>,
    multi: bool,
    files0: Seq<String>,
    old: Seq<Shard>,
    files: Seq<String>,
    new: Seq<Shard>,
    r: Result<usize, crate::schema::DbError>,
)
    requires
        table_updated(schema, f, patch, multi, files0, old, files, new, r),
        r is Ok,
    ensures
        exists|items: Seq<(String, Row)>|
            items.len() == r->Ok_0 && (forall|t: int|
                0 <= t < items.len() ==> #[trigger] updates_match(schema, old, patch, f, items[t]))
                && (keys_unique(items) ==> forall|t: int|
                0 <= t < items.len() ==> #[trigger] stored_in(files, new, items[t])),
{
    let (mid, out) = choose|mid: Seq<Shard>, out: Result<Vec<(String, Row)>, crate::schema::DbError>|
        #[trigger] crate::update::updated_where(schema, f, patch, multi, old, mid, out) && (out is Err
            ==> r == Err::<usize, crate::schema::DbError>(out->Err_0) && new == old && files == files0)
            && (out is Ok ==> r == Ok::<usize, crate::schema::DbError>(out->Ok_0.len())
            && placed(files0, mid, out->Ok_0@, files, new));
    assert(out is Ok);
    let items = out->Ok_0@;
    if keys_unique(items) {
        assert forall|t: int| 0 <= t < items.len() implies #[trigger] stored_in(files, new, items[t]) by {
            let k2 = choose|k2: int| 0 <= k2 < files.len() && #[trigger] files[k2]@ == shard_file(#[trigger] items[t].0@);
            lemma_filtered_map(items, goes_to(files[k2]@), t);
            assert(to_map(new[k2]@).contains_key(items[t].0@));
        };
    }
    assert(items.len() == r->Ok_0);
}

} // verus!
