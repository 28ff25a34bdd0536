//! Updates of stored rows: a patch is merged into the row, the result is
//! validated and its id derived anew, and the old entry is removed.
use vstd::prelude::*;
use crate::assoc::{has_key, keys_unique, lemma_map, to_map, find_key, put, take};
use crate::query::QueryBuilder;
use crate::schema::{DbError, Row, Slot, TABLE};
use crate::shard::{DATABASE, numeric_id, shard_file, string_to_numerical_uuid};
use crate::value::{CMP, Data, data_same};
use crate::scan::{RowFilter, deleted_where, filter_check, filter_holds};
use crate::store::{Shard, admit_row, copy_row, rows_same, shard_wf};

verus! {

/// Two slots agree up to the contents of lists.
pub open spec fn slot_same(x: Slot, y: Slot) -> bool {
    data_same(x.0, y.0) && x.1 == y.1
}

/// `new` is `old` with the fields of `patch` set: the fields of both, the
/// patch's slots where it has them, the old slots elsewhere.
pub open spec fn merged_from(
    old: Map<Seq<char>, Slot>,
    patch: Map<Seq<char>, Slot>,
    new: Map<Seq<char>, Slot>,
) -> bool {
    &&& forall|k: Seq<char>| #[trigger] new.contains_key(k) <==> old.contains_key(k) || patch.contains_key(k)
    &&& forall|k: Seq<char>| #[trigger] patch.contains_key(k) ==> new[k] == patch[k]
    &&& forall|k: Seq<char>|
        #[trigger] old.contains_key(k) && !patch.contains_key(k) ==> slot_same(new[k], old[k])
}

/// A copy of a row has the same fields, and slots that agree.
pub proof fn lemma_copy_map(a: Seq<(String, Slot)>, b: Seq<(String, Slot)>)
    requires
        rows_same(a, b),
        keys_unique(b),
    ensures
        keys_unique(a),
        forall|k: Seq<char>| #[trigger] to_map(a).contains_key(k) <==> to_map(b).contains_key(k),
        forall|k: Seq<char>| #[trigger] to_map(a).contains_key(k) ==> slot_same(to_map(a)[k], to_map(b)[k]),
{
    assert forall|i: int, j: int|
        0 <= i < a.len() && 0 <= j < a.len() && #[trigger] a[i].0@ == #[trigger] a[j].0@ implies i == j by {
        assert(a[i].0 == b[i].0 && a[j].0 == b[j].0);
    };
    lemma_map(a);
    lemma_map(b);
    assert forall|k: Seq<char>| #[trigger] to_map(a).contains_key(k) <==> to_map(b).contains_key(k) by {
        if has_key(a, k) {
            let i = choose|i: int| 0 <= i < a.len() && #[trigger] a[i].0@ == k;
            assert(a[i].0 == b[i].0);
        }
        if has_key(b, k) {
            let i = choose|i: int| 0 <= i < b.len() && #[trigger] b[i].0@ == k;
            assert(a[i].0 == b[i].0);
        }
    };
    assert forall|k: Seq<char>| #[trigger] to_map(a).contains_key(k) implies slot_same(to_map(a)[k], to_map(b)[k]) by {
        let i = choose|i: int| 0 <= i < a.len() && #[trigger] a[i].0@ == k;
        assert(a[i].0 == b[i].0);
    };
}

/// Sets each field of `patch` in `row`.
pub fn merge_row(row: &mut Row, patch: Row)
    requires
        keys_unique(old(row)@),
    ensures
        keys_unique(final(row)@),
        to_map(final(row)@) == to_map(old(row)@).union_prefer_right(to_map(patch@)),
{
    let ghost p0 = patch@;
    let ghost r0 = row@;
    let mut src = patch;
    let n = src.len();
    let mut i: usize = 0;
    proof {
        assert(to_map(p0.subrange(0, 0)) == Map::<Seq<char>, Slot>::empty());
        assert(to_map(r0).union_prefer_right(Map::<Seq<char>, Slot>::empty()) =~= to_map(r0));
    }
    while i < n
        invariant
            n == p0.len(),
            src@.len() == n,
            0 <= i <= n,
            forall|j: int| i <= j < n ==> #[trigger] src@[j] == p0[j],
            keys_unique(row@),
            to_map(row@) == to_map(r0).union_prefer_right(to_map(p0.subrange(0, i as int))),
        decreases n - i,
    {
        let mut e: (String, Slot) = (String::new(), (Data::NULL, String::new()));
        src.set_and_swap(i, &mut e);
        let ghost before = to_map(p0.subrange(0, i as int));
        proof {
            assert(p0.subrange(0, i + 1).drop_last() == p0.subrange(0, i as int));
            assert(to_map(p0.subrange(0, i + 1)) == before.insert(e.0@, e.1));
            assert(to_map(r0).union_prefer_right(before.insert(e.0@, e.1)) =~= to_map(r0).union_prefer_right(
                before,
            ).insert(e.0@, e.1));
        }
        put(row, e.0, e.1);
        i = i + 1;
    }
    proof {
        assert(p0.subrange(0, n as int) == p0);
    }
}

impl DATABASE {
    /// Updates the row stored under numeric id `id` with the fields of
    /// `patch`. The merged row must pass validation; then the old entry is
    /// removed and the merged row is handed back with the id derived for it
    /// anew, for the caller to store in the shard that owns that id. On any
    /// error the shard keeps its rows.
    pub fn update_entry(schema: &TABLE, shard: &mut Shard, id: &str, patch: Row) -> (r: Result<
        (String, Row),
        DbError,
    >)
        requires
            shard_wf(old(shard)@),
            keys_unique(patch@),
        ensures
            shard_wf(final(shard)@),
            r is Err ==> to_map(final(shard)@) == to_map(old(shard)@),
            !to_map(old(shard)@).contains_key(id@) ==> r == Err::<(String, Row), DbError>(DbError::NotFound),
            r is Ok ==> to_map(old(shard)@).contains_key(id@) && keys_unique(r->Ok_0.1@) && merged_from(
                to_map(to_map(old(shard)@)[id@]@),
                to_map(patch@),
                to_map(r->Ok_0.1@),
            ) && admit_row(r->Ok_0.1@, *schema) == Ok::<Seq<char>, DbError>(r->Ok_0.0@) && to_map(final(shard)@)
                == to_map(old(shard)@).remove(id@),
            r is Err && to_map(old(shard)@).contains_key(id@) ==> exists|m: Row|
                keys_unique(m@) && merged_from(
                    to_map(to_map(old(shard)@)[id@]@),
                    to_map(patch@),
                    to_map(m@),
                ) && admit_row(m@, *schema) == Err::<Seq<char>, DbError>(r->Err_0),
    {
        proof {
            lemma_map(shard@);
        }
        let i = match find_key(shard, id) {
            None => {
                return Err(DbError::NotFound);
            },
            Some(i) => i,
        };
        assert(keys_unique(shard@[i as int].1@));
        let ghost old_row = shard@[i as int].1@;
        let ghost pm = to_map(patch@);
        let mut merged = copy_row(&shard[i].1);
        proof {
            lemma_copy_map(merged@, old_row);
        }
        let ghost copied = to_map(merged@);
        merge_row(&mut merged, patch);
        proof {
            let nm = to_map(merged@);
            let om = to_map(old_row);
            assert(om == to_map(to_map(old(shard)@)[id@]@));
            assert forall|k: Seq<char>|
                #[trigger] om.contains_key(k) && !pm.contains_key(k) implies slot_same(nm[k], om[k]) by {
                assert(copied.contains_key(k));
            };
            assert(merged_from(om, pm, nm));
        }
        match Self::accept_row(schema, &merged) {
            Err(e) => Err(e),
            Ok(new_id) => {
                let ghost before = shard@;
                take(shard, id);
                proof {
                    assert forall|j: int| 0 <= j < shard@.len() implies keys_unique(#[trigger] shard@[j].1@) by {
                        let i0 = choose|i0: int| 0 <= i0 < before.len() && #[trigger] shard@[j] == before[i0];
                        assert(keys_unique(before[i0].1@));
                    };
                }
                Ok((new_id, merged))
            },
        }
    }
}

/// `new` is `old` with the fields of `patch` set, up to copies: the fields of
/// both, slots that agree with the patch's where it has them, with the old
/// ones elsewhere.
pub open spec fn merged_like(
    old: Map<Seq<char>, Slot>,
    patch: Map<Seq<char>, Slot>,
    new: Map<Seq<char>, Slot>,
) -> bool {
    &&& forall|k: Seq<char>| #[trigger] new.contains_key(k) <==> old.contains_key(k) || patch.contains_key(k)
    &&& forall|k: Seq<char>| #[trigger] patch.contains_key(k) ==> slot_same(new[k], patch[k])
    &&& forall|k: Seq<char>|
        #[trigger] old.contains_key(k) && !patch.contains_key(k) ==> slot_same(new[k], old[k])
}

/// `item` is the update of entry `j` of shard `k`: its row merged with the
/// patch, and the id derived for the result.
pub open spec fn updates_entry(
    schema: TABLE,
    shards: Seq<Shard>,
    patch: Seq<(String, Slot)>,
    k: int,
    j: int,
    item: (String, Row),
) -> bool {
    &&& 0 <= k < shards.len()
    &&& 0 <= j < shards[k]@.len()
    &&& merged_like(to_map(shards[k]@[j].1@), to_map(patch), to_map(item.1@))
    &&& keys_unique(item.1@)
    &&& admit_row(item.1@, schema) == Ok::<Seq<char>, DbError>(item.0@)
}

/// `item` is the update of some entry whose row passes `f`.
pub open spec fn updates_match(
    schema: TABLE,
    shards: Seq<Shard>,
    patch: Seq<(String, Slot)>,
    f: RowFilter,
    item: (String, Row),
) -> bool {
    exists|k: int, j: int|
        filter_holds(f, shards[k]@[j].1@) && #[trigger] updates_entry(schema, shards, patch, k, j, item)
}

/// Every entry whose row passes `f` has its update among `items`.
pub open spec fn covers_matches(
    schema: TABLE,
    shards: Seq<Shard>,
    patch: Seq<(String, Slot)>,
    f: RowFilter,
    items: Seq<(String, Row)>,
) -> bool {
    forall|k: int, j: int|
        0 <= k < shards.len() && 0 <= j < shards[k]@.len() && filter_holds(f, #[trigger] shards[k]@[j].1@)
            ==> exists|t: int| 0 <= t < items.len() && updates_entry(schema, shards, patch, k, j, #[trigger] items[t])
}

/// The outcome of updating the rows that pass `f` with `patch`: on an
/// error nothing changes and some matched row's merge fails with it; else
/// the matched entries are removed as `deleted_where` says and each handed
/// back item is the update of one of them, all of them with `multi`.
pub open spec fn updated_where(
    schema: TABLE,
    f: RowFilter,
    patch: Seq<(String, Slot)>,
    multi: bool,
    old: Seq<Shard>,
    new: Seq<Shard>,
    r: Result<Vec<(String, Row)>, DbError>,
) -> bool {
    &&& r is Err ==> new == old && exists|k: int, j: int, m: Row|
        0 <= k < old.len() && 0 <= j < old[k]@.len() && filter_holds(f, #[trigger] old[k]@[j].1@)
            && keys_unique(m@) && merged_like(to_map(old[k]@[j].1@), to_map(patch), to_map(m@))
            && #[trigger] admit_row(m@, schema) == Err::<Seq<char>, DbError>(r->Err_0)
    &&& r is Ok ==> exists|changed: Seq<bool>| deleted_where(f, old, new, multi, changed)
    &&& r is Ok ==> forall|t: int|
        0 <= t < r->Ok_0@.len() ==> #[trigger] updates_match(schema, old, patch, f, r->Ok_0@[t])
    &&& r is Ok && multi ==> covers_matches(schema, old, patch, f, r->Ok_0@)
    &&& r is Ok && !multi ==> r->Ok_0@.len() <= 1 && ((exists|k: int, j: int|
        0 <= k < old.len() && 0 <= j < old[k]@.len() && filter_holds(f, #[trigger] old[k]@[j].1@))
        ==> r->Ok_0@.len() == 1)
}

/// A merge of a copy of `row` with a copy of `patch`.
fn merged_copy(row: &Row, patch: &Row) -> (r: Row)
    requires
        keys_unique(row@),
        keys_unique(patch@),
    ensures
        keys_unique(r@),
        merged_like(to_map(row@), to_map(patch@), to_map(r@)),
{
    let mut m = copy_row(row);
    let p = copy_row(patch);
    proof {
        lemma_copy_map(m@, row@);
        lemma_copy_map(p@, patch@);
    }
    let ghost cm = to_map(m@);
    let ghost cp = to_map(p@);
    merge_row(&mut m, p);
    m
}

impl DATABASE {
    /// Updates every row that passes a filter with the fields of `patch`, or
    /// with `multi` false only the first, in shard order. Each merged row
    /// must pass validation, else nothing changes; then the matched entries
    /// are removed and the merged rows are handed back with their ids derived
    /// anew, for the caller to store in the shards that own those ids.
    pub fn update_where(
        schema: &TABLE,
        shards: &mut Vec<Shard>,
        f: &RowFilter,
        patch: &Row,
        multi: bool,
    ) -> (r: Result<Vec<(String, Row)>, DbError>)
        requires
            forall|k: int| 0 <= k < old(shards)@.len() ==> shard_wf(#[trigger] old(shards)@[k]@),
            keys_unique(patch@),
        ensures
            forall|k: int| 0 <= k < final(shards)@.len() ==> shard_wf(#[trigger] final(shards)@[k]@),
            updated_where(*schema, *f, patch@, multi, old(shards)@, final(shards)@, r),
    {
        let ghost s0 = shards@;
        let mut out: Vec<(String, Row)> = Vec::new();
        let mut k: usize = 0;
        let n = shards.len();
        while k < n
            invariant
                n == s0.len(),
                shards@ == s0,
                s0 == old(shards)@,
                0 <= k <= n,
                keys_unique(patch@),
                forall|q: int| 0 <= q < n ==> shard_wf(#[trigger] s0[q]@),
                forall|t: int| 0 <= t < out@.len() ==> #[trigger] updates_match(*schema, s0, patch@, *f, out@[t]),
                multi ==> forall|a: int, b: int|
                    0 <= a < k && 0 <= b < s0[a]@.len() && filter_holds(*f, #[trigger] s0[a]@[b].1@)
                        ==> exists|t: int| 0 <= t < out@.len() && updates_entry(*schema, s0, patch@, a, b, #[trigger] out@[t]),
                !multi ==> out@.len() == 0,
                !multi ==> forall|a: int, b: int|
                    0 <= a < k && 0 <= b < s0[a]@.len() ==> !filter_holds(*f, #[trigger] s0[a]@[b].1@),
            decreases n - k,
        {
            let shard = &shards[k];
            let mut j: usize = 0;
            while j < shard.len()
                invariant
                    n == s0.len(),
                    shards@ == s0,
                    s0 == old(shards)@,
                    0 <= k < n,
                    shard@ == s0[k as int]@,
                    0 <= j <= shard@.len(),
                    keys_unique(patch@),
                    forall|q: int| 0 <= q < n ==> shard_wf(#[trigger] s0[q]@),
                    forall|t: int| 0 <= t < out@.len() ==> #[trigger] updates_match(*schema, s0, patch@, *f, out@[t]),
                    multi ==> forall|a: int, b: int|
                        ((0 <= a < k && 0 <= b < s0[a]@.len()) || (a == k && 0 <= b < j)) && filter_holds(*f, #[trigger] s0[a]@[b].1@)
                            ==> exists|t: int| 0 <= t < out@.len() && updates_entry(*schema, s0, patch@, a, b, #[trigger] out@[t]),
                    !multi ==> out@.len() == 0,
                    !multi ==> forall|a: int, b: int|
                        ((0 <= a < k && 0 <= b < s0[a]@.len()) || (a == k && 0 <= b < j)) ==> !filter_holds(*f, #[trigger] s0[a]@[b].1@),
                decreases shard.len() - j,
            {
                assert(shard_wf(s0[k as int]@));
                assert(keys_unique(shard@[j as int].1@));
                if filter_check(f, &shard[j].1) {
                    let merged = merged_copy(&shard[j].1, patch);
                    let id = match Self::accept_row(schema, &merged) {
                        Ok(id) => id,
                        Err(e) => {
                            assert(filter_holds(*f, s0[k as int]@[j as int].1@));
                            assert(admit_row(merged@, *schema) == Err::<Seq<char>, DbError>(e));
                            assert(merged_like(to_map(s0[k as int]@[j as int].1@), to_map(patch@), to_map(merged@)));
                            return Err(e);
                        },
                    };
                    let ghost item = (id, merged);
                    assert(updates_entry(*schema, s0, patch@, k as int, j as int, item));
                    let ghost before = out@;
                    out.push((id, merged));
                    proof {
                        assert(out@[before.len() as int] == item);
                        assert forall|t: int| 0 <= t < out@.len() implies #[trigger] updates_match(*schema, s0, patch@, *f, out@[t]) by {
                            if t < before.len() {
                                assert(out@[t] == before[t]);
                            } else {
                                assert(filter_holds(*f, s0[k as int]@[j as int].1@));
                            }
                        };
                        if multi {
                            assert forall|a: int, b: int|
                                ((0 <= a < k && 0 <= b < s0[a]@.len()) || (a == k && 0 <= b < j + 1)) && filter_holds(*f, #[trigger] s0[a]@[b].1@)
                                implies exists|t: int| 0 <= t < out@.len() && updates_entry(*schema, s0, patch@, a, b, #[trigger] out@[t]) by {
                                if a == k && b == j {
                                    assert(updates_entry(*schema, s0, patch@, a, b, out@[before.len() as int]));
                                } else {
                                    let t = choose|t: int| 0 <= t < before.len() && updates_entry(*schema, s0, patch@, a, b, #[trigger] before[t]);
                                    assert(out@[t] == before[t]);
                                }
                            };
                        }
                    }
                    if !multi {
                        let ghost pre = shards@;
                        let changed = Self::delete_where(shards, f, false);
                        proof {
                            assert(deleted_where(*f, old(shards)@, shards@, multi, changed@));
                            assert(exists|a: int, b: int|
                                0 <= a < pre.len() && 0 <= b < pre[a]@.len() && filter_holds(*f, #[trigger] pre[a]@[b].1@));
                        }
                        return Ok(out);
                    }
                }
                j = j + 1;
            }
            k = k + 1;
        }
        let changed = Self::delete_where(shards, f, multi);
        proof {
            assert(deleted_where(*f, old(shards)@, shards@, multi, changed@));
            if multi {
                assert forall|a: int, b: int|
                    0 <= a < s0.len() && 0 <= b < s0[a]@.len() && filter_holds(*f, #[trigger] s0[a]@[b].1@)
                    implies exists|t: int| 0 <= t < out@.len() && updates_entry(*schema, s0, patch@, a, b, #[trigger] out@[t]) by {
                    assert(0 <= a < k && 0 <= b < s0[a]@.len());
                };
                assert(covers_matches(*schema, s0, patch@, *f, out@));
            }
            if !multi {
                assert forall|a: int, b: int|
                    0 <= a < s0.len() && 0 <= b < s0[a]@.len() implies !filter_holds(*f, #[trigger] s0[a]@[b].1@) by {};
            }
        }
        Ok(out)
    }
}

/// No two shard file names are the same.
pub open spec fn names_distinct(files: Seq<String>) -> bool {
    forall|a: int, b: int| 0 <= a < b < files.len() ==> #[trigger] files[a]@ != #[trigger] files[b]@
}

/// Whether an entry's id belongs in shard file `f`.
pub open spec fn goes_to(f: Seq<char>) -> spec_fn((String, Row)) -> bool {
    |e: (String, Row)| shard_file(e.0@) == f
}

/// The shards `old`, named by `files0`, after `items` are stored each under
/// its id in the shard that owns it, later items winning: `files` extends
/// `files0` with the names of shards that had to be started, and shard `k`
/// holds its old entries with the items that go to its file put over them.
pub open spec fn placed(
    files0: Seq<String>,
    old: Seq<Shard>,
    items: Seq<(String, Row)>,
    files: Seq<String>,
    new: Seq<Shard>,
) -> bool {
    &&& files.len() == new.len()
    &&& files0.len() <= files.len()
    &&& forall|k: int| 0 <= k < files0.len() ==> #[trigger] files[k] == files0[k]
    &&& names_distinct(files)
    &&& forall|k: int|
        0 <= k < files.len() ==> to_map(#[trigger] new[k]@) == (if k < old.len() {
            to_map(old[k]@)
        } else {
            Map::<Seq<char>, Row>::empty()
        }).union_prefer_right(to_map(items.filter(goes_to(files[k]@))))
    &&& forall|t: int|
        0 <= t < items.len() ==> exists|k: int|
            0 <= k < files.len() && #[trigger] files[k]@ == shard_file(#[trigger] items[t].0@)
}

impl DATABASE {
    /// Stores rows, each under its id, in the shard that owns the id. The
    /// shards are named by `files`; a row whose shard is not among them
    /// starts a new, empty one at the end.
    pub fn place_rows(files: &mut Vec<String>, shards: &mut Vec<Shard>, items: Vec<(String, Row)>)
        requires
            old(files)@.len() == old(shards)@.len(),
            names_distinct(old(files)@),
            forall|k: int| 0 <= k < old(shards)@.len() ==> shard_wf(#[trigger] old(shards)@[k]@),
            forall|t: int| 0 <= t < items@.len() ==> keys_unique(#[trigger] items@[t].1@),
        ensures
            forall|k: int| 0 <= k < final(shards)@.len() ==> shard_wf(#[trigger] final(shards)@[k]@),
            placed(old(files)@, old(shards)@, items@, final(files)@, final(shards)@),
    {
        let ghost f0 = files@;
        let ghost s0 = shards@;
        let ghost i0 = items@;
        let mut src = items;
        let n = src.len();
        let mut i: usize = 0;
        proof {
            assert forall|k: int| 0 <= k < files@.len() implies to_map(#[trigger] shards@[k]@) == (if k < s0.len() {
                to_map(s0[k]@)
            } else {
                Map::<Seq<char>, Row>::empty()
            }).union_prefer_right(to_map(i0.subrange(0, 0).filter(goes_to(files@[k]@)))) by {
                let e = i0.subrange(0, 0);
                assert(e.filter(goes_to(files@[k]@)).len() == 0) by {
                    e.lemma_filter_len(goes_to(files@[k]@));
                };
                assert(to_map(e.filter(goes_to(files@[k]@))) == Map::<Seq<char>, Row>::empty());
                assert(to_map(s0[k]@).union_prefer_right(Map::<Seq<char>, Row>::empty()) =~= to_map(s0[k]@));
            };
        }
        while i < n
            invariant
                n == i0.len(),
                src@.len() == n,
                0 <= i <= n,
                forall|j: int| i <= j < n ==> #[trigger] src@[j] == i0[j],
                forall|t: int| 0 <= t < n ==> keys_unique(#[trigger] i0[t].1@),
                s0.len() == f0.len(),
                forall|k: int| 0 <= k < shards@.len() ==> shard_wf(#[trigger] shards@[k]@),
                placed(f0, s0, i0.subrange(0, i as int), files@, shards@),
            decreases n - i,
        {
            let mut e: (String, Row) = (String::new(), Vec::new());
            src.set_and_swap(i, &mut e);
            let ghost pre = i0.subrange(0, i as int);
            let ghost now = i0.subrange(0, i + 1);
            proof {
                assert(now == pre.push(e));
                assert(keys_unique(e.1@));
            }
            let file = Self::get_file_by_id(e.0.clone());
            let mut k: usize = 0;
            while k < files.len()
                invariant
                    0 <= k <= files@.len(),
                    forall|q: int| 0 <= q < k ==> #[trigger] files@[q]@ != file@,
                ensures
                    0 <= k <= files@.len(),
                    forall|q: int| 0 <= q < k ==> #[trigger] files@[q]@ != file@,
                    k < files@.len() ==> files@[k as int]@ == file@,
                decreases files.len() - k,
            {
                if crate::value::str_eq(files[k].as_str(), file.as_str()) {
                    break;
                }
                k = k + 1;
            }
            let ghost fb = files@;
            let ghost sb = shards@;
            if k == files.len() {
                proof {
                    let g = goes_to(file@);
                    assert(pre.all(|x: (String, Row)| !g(x))) by {
                        assert forall|t: int| 0 <= t < pre.len() implies !g(pre[t]) by {
                            assert(pre[t] == i0[t]);
                            let q = choose|q: int| 0 <= q < fb.len() && #[trigger] fb[q]@ == shard_file(#[trigger] pre[t].0@);
                        };
                    };
                    pre.lemma_all_neg_filter_empty(g);
                }
                files.push(file);
                shards.push(Vec::new());
                proof {
                    let kk = k as int;
                    assert(to_map(shards@[kk]@) == Map::<Seq<char>, Row>::empty());
                    assert(to_map(pre.filter(goes_to(files@[kk]@))) == Map::<Seq<char>, Row>::empty());
                    assert(Map::<Seq<char>, Row>::empty().union_prefer_right(Map::<Seq<char>, Row>::empty())
                        =~= Map::<Seq<char>, Row>::empty());
                    assert forall|a: int, b: int| 0 <= a < b < files@.len() implies #[trigger] files@[a]@ != #[trigger] files@[b]@ by {
                        if b < fb.len() {
                            assert(files@[a] == fb[a] && files@[b] == fb[b]);
                        } else {
                            assert(files@[a] == fb[a]);
                        }
                    };
                    assert forall|q: int| 0 <= q < shards@.len() implies shard_wf(#[trigger] shards@[q]@) by {
                        if q < sb.len() {
                            assert(shards@[q] == sb[q]);
                        }
                    };
                }
            }
            let ghost fc = files@;
            let ghost sc = shards@;
            proof {
                assert(fc[k as int]@ == file@);
                assert forall|q: int| 0 <= q < fc.len() implies to_map(#[trigger] sc[q]@) == (if q < s0.len() {
                    to_map(s0[q]@)
                } else {
                    Map::<Seq<char>, Row>::empty()
                }).union_prefer_right(to_map(pre.filter(goes_to(fc[q]@)))) by {
                    if q < fb.len() {
                        assert(sc[q] == sb[q] && fc[q] == fb[q]);
                    }
                };
                assert forall|t: int| 0 <= t < pre.len() implies exists|q: int|
                    0 <= q < fc.len() && #[trigger] fc[q]@ == shard_file(#[trigger] pre[t].0@) by {
                    let q = choose|q: int| 0 <= q < fb.len() && #[trigger] fb[q]@ == shard_file(#[trigger] pre[t].0@);
                    assert(fc[q] == fb[q]);
                };
            }
            let mut shard: Shard = Vec::new();
            shards.set_and_swap(k, &mut shard);
            let ghost sh0 = shard@;
            assert(shard_wf(sh0));
            let ghost ev = e;
            put(&mut shard, e.0, e.1);
            proof {
                assert(shard_wf(shard@)) by {
                    assert forall|j: int| 0 <= j < shard@.len() implies keys_unique(#[trigger] shard@[j].1@) by {
                        if shard@[j].1 != ev.1 {
                            let i1 = choose|i1: int| 0 <= i1 < sh0.len() && shard@[j] == sh0[i1];
                            assert(keys_unique(sh0[i1].1@));
                        }
                    };
                };
            }
            shards.set_and_swap(k, &mut shard);
            proof {
                let kk = k as int;
                assert(shards@ == sc.update(kk, shards@[kk]));
                assert forall|q: int| 0 <= q < files@.len() implies to_map(#[trigger] shards@[q]@) == (if q < s0.len() {
                    to_map(s0[q]@)
                } else {
                    Map::<Seq<char>, Row>::empty()
                }).union_prefer_right(to_map(now.filter(goes_to(files@[q]@)))) by {
                    pre.lemma_filter_push(ev, goes_to(files@[q]@));
                    let base = if q < s0.len() { to_map(s0[q]@) } else { Map::<Seq<char>, Row>::empty() };
                    if q == kk {
                        let fl = pre.filter(goes_to(files@[q]@));
                        assert(fl.push(ev).drop_last() == fl);
                        assert(to_map(fl.push(ev)) == to_map(fl).insert(ev.0@, ev.1));
                        assert(base.union_prefer_right(to_map(fl).insert(ev.0@, ev.1)) =~= base.union_prefer_right(
                            to_map(fl),
                        ).insert(ev.0@, ev.1));
                    } else {
                        assert(files@[q]@ != file@);
                        assert(shards@[q] == sc[q]);
                    }
                };
                assert forall|q: int| 0 <= q < shards@.len() implies shard_wf(#[trigger] shards@[q]@) by {
                    if q != kk {
                        assert(shards@[q] == sc[q]);
                    }
                };
                assert forall|t: int| 0 <= t < now.len() implies exists|q: int|
                    0 <= q < files@.len() && #[trigger] files@[q]@ == shard_file(#[trigger] now[t].0@) by {
                    if t < pre.len() {
                        assert(now[t] == pre[t]);
                        let q = choose|q: int| 0 <= q < fc.len() && #[trigger] fc[q]@ == shard_file(#[trigger] pre[t].0@);
                    } else {
                        assert(now[t] == ev);
                        assert(files@[kk]@ == shard_file(ev.0@));
                    }
                };
            }
            i = i + 1;
        }
        proof {
            assert(i0.subrange(0, n as int) == i0);
        }
    }
}


/// The table, as shards named by `files`, after the rows that pass `f` are
/// updated with `patch` and stored again: the matched entries leave their
/// shards as `update_where` says, and the merged rows it hands back are
/// stored under their ids as `placed` says. On an error nothing changes.
pub open spec fn table_updated(
    schema: TABLE,
    f: RowFilter,
    patch: Seq<(String, Slot)>,
    multi: bool,
    files0: Seq<String>,
    old: Seq<Shard>,
    files: Seq<String>,
    new: Seq<Shard>,
    r: Result<usize, DbError>,
) -> bool {
    exists|mid: Seq<Shard>, out: Result<Vec<(String, Row)>, DbError>|
        #[trigger] updated_where(schema, f, patch, multi, old, mid, out) && (out is Err ==> r
            == Err::<usize, DbError>(out->Err_0) && new == old && files == files0) && (out is Ok
            ==> r == Ok::<usize, DbError>(out->Ok_0.len()) && placed(
            files0,
            mid,
            out->Ok_0@,
            files,
            new,
        ))
}

impl DATABASE {
    /// Updates the rows that pass a filter with the fields of `patch`, or
    /// with `multi` false only the first, and stores each merged row under
    /// the id derived for it, in the shard that owns that id. Returns how
    /// many rows were updated.
    pub fn update_table(
        schema: &TABLE,
        files: &mut Vec<String>,
        shards: &mut Vec<Shard>,
        f: &RowFilter,
        patch: &Row,
        multi: bool,
    ) -> (r: Result<usize, DbError>)
        requires
            old(files)@.len() == old(shards)@.len(),
            names_distinct(old(files)@),
            forall|k: int| 0 <= k < old(shards)@.len() ==> shard_wf(#[trigger] old(shards)@[k]@),
            keys_unique(patch@),
        ensures
            forall|k: int| 0 <= k < final(shards)@.len() ==> shard_wf(#[trigger] final(shards)@[k]@),
            table_updated(*schema, *f, patch@, multi, old(files)@, old(shards)@, final(files)@, final(shards)@, r),
    {
        let out = Self::update_where(schema, shards, f, patch, multi);
        let ghost mid = shards@;
        let ghost outv = out;
        match out {
            Err(e) => {
                assert(updated_where(*schema, *f, patch@, multi, old(shards)@, mid, outv));
                Err(e)
            },
            Ok(items) => {
                let count = items.len();
                proof {
                    assert forall|t: int| 0 <= t < items@.len() implies keys_unique(#[trigger] items@[t].1@) by {
                        assert(updates_match(*schema, old(shards)@, patch@, *f, items@[t]));
                    };
                }
                Self::place_rows(files, shards, items);
                assert(updated_where(*schema, *f, patch@, multi, old(shards)@, mid, outv));
                Ok(count)
            },
        }
    }

    /// Updates the rows whose `fieldname` stands in relation `cmp` to
    /// `fieldvalue` with the fields of `new_row`, as `update_table` does.
    pub fn update_row_where(
        schema: &TABLE,
        files: &mut Vec<String>,
        shards: &mut Vec<Shard>,
        fieldname: String,
        fieldvalue: Data,
        new_row: Row,
        multi: bool,
        cmp: CMP,
    ) -> (r: Result<usize, DbError>)
        requires
            old(files)@.len() == old(shards)@.len(),
            names_distinct(old(files)@),
            forall|k: int| 0 <= k < old(shards)@.len() ==> shard_wf(#[trigger] old(shards)@[k]@),
            keys_unique(new_row@),
        ensures
            forall|k: int| 0 <= k < final(shards)@.len() ==> shard_wf(#[trigger] final(shards)@[k]@),
            table_updated(
                *schema,
                (RowFilter::Field { field: fieldname, value: fieldvalue, cmp: cmp }),
                new_row@,
                multi,
                old(files)@,
                old(shards)@,
                final(files)@,
                final(shards)@,
                r,
            ),
    {
        let f = RowFilter::Field { field: fieldname, value: fieldvalue, cmp };
        Self::update_table(schema, files, shards, &f, &new_row, multi)
    }

    /// Sets one field of the rows whose `fieldname` stands in relation `cmp`
    /// to `fieldvalue`, as `update_table` does with a one-field patch.
    pub fn update_field_where(
        schema: &TABLE,
        files: &mut Vec<String>,
        shards: &mut Vec<Shard>,
        fieldname: String,
        fieldvalue: Data,
        field_to_change: String,
        new_field_val: Slot,
        multi: bool,
        cmp: CMP,
    ) -> (r: Result<usize, DbError>)
        requires
            old(files)@.len() == old(shards)@.len(),
            names_distinct(old(files)@),
            forall|k: int| 0 <= k < old(shards)@.len() ==> shard_wf(#[trigger] old(shards)@[k]@),
        ensures
            forall|k: int| 0 <= k < final(shards)@.len() ==> shard_wf(#[trigger] final(shards)@[k]@),
            table_updated(
                *schema,
                (RowFilter::Field { field: fieldname, value: fieldvalue, cmp: cmp }),
                seq![(field_to_change, new_field_val)],
                multi,
                old(files)@,
                old(shards)@,
                final(files)@,
                final(shards)@,
                r,
            ),
    {
        let ghost entry = (field_to_change, new_field_val);
        let mut patch: Row = Vec::new();
        patch.push((field_to_change, new_field_val));
        assert(patch@ == seq![entry]);
        let f = RowFilter::Field { field: fieldname, value: fieldvalue, cmp };
        Self::update_table(schema, files, shards, &f, &patch, multi)
    }
}

impl QueryBuilder {
    /// Updates the rows that pass the query's conditions with the fields of
    /// `new_row`, as `update_table` does; with `multi` false only the first.
    pub fn update_row(
        self,
        schema: &TABLE,
        files: &mut Vec<String>,
        shards: &mut Vec<Shard>,
        new_row: Row,
        multi: bool,
    ) -> (r: Result<usize, DbError>)
        requires
            old(files)@.len() == old(shards)@.len(),
            names_distinct(old(files)@),
            forall|k: int| 0 <= k < old(shards)@.len() ==> shard_wf(#[trigger] old(shards)@[k]@),
            keys_unique(new_row@),
        ensures
            forall|k: int| 0 <= k < final(shards)@.len() ==> shard_wf(#[trigger] final(shards)@[k]@),
            table_updated(
                *schema,
                (RowFilter::Query { conditions: self.conditions }),
                new_row@,
                multi,
                old(files)@,
                old(shards)@,
                final(files)@,
                final(shards)@,
                r,
            ),
    {
        let f = RowFilter::Query { conditions: self.conditions };
        DATABASE::update_table(schema, files, shards, &f, &new_row, multi)
    }

    /// Sets one field of the rows that pass the query's conditions, as
    /// `update_table` does with a one-field patch.
    pub fn update_field(
        self,
        schema: &TABLE,
        files: &mut Vec<String>,
        shards: &mut Vec<Shard>,
        fieldname: String,
        new_value: Slot,
        multi: bool,
    ) -> (r: Result<usize, DbError>)
        requires
            old(files)@.len() == old(shards)@.len(),
            names_distinct(old(files)@),
            forall|k: int| 0 <= k < old(shards)@.len() ==> shard_wf(#[trigger] old(shards)@[k]@),
        ensures
            forall|k: int| 0 <= k < final(shards)@.len() ==> shard_wf(#[trigger] final(shards)@[k]@),
            table_updated(
                *schema,
                (RowFilter::Query { conditions: self.conditions }),
                seq![(fieldname, new_value)],
                multi,
                old(files)@,
                old(shards)@,
                final(files)@,
                final(shards)@,
                r,
            ),
    {
        let ghost entry = (fieldname, new_value);
        let mut patch: Row = Vec::new();
        patch.push((fieldname, new_value));
        assert(patch@ == seq![entry]);
        let f = RowFilter::Query { conditions: self.conditions };
        DATABASE::update_table(schema, files, shards, &f, &patch, multi)
    }
}


/// The position of the shard file that owns numeric id `id`, if loaded.
pub open spec fn owner(files: Seq<String>, id: Seq<char>) -> int {
    choose|k: int| 0 <= k < files.len() && #[trigger] files[k]@ == shard_file(id)
}

/// The table, as shards named by `files`, after the row stored under
/// numeric id `id` is updated with `patch` and stored again under the id
/// derived for the merged row. Without the owning shard loaded, or without
/// such a row, it is `NotFound`; a merged row that fails validation gives
/// its error. On an error no shard's contents change.
pub open spec fn row_updated(
    schema: TABLE,
    id: Seq<char>,
    patch: Seq<(String, Slot)>,
    files0: Seq<String>,
    old: Seq<Shard>,
    files: Seq<String>,
    new: Seq<Shard>,
    r: Result<Row, DbError>,
) -> bool {
    if !exists|k: int| 0 <= k < files0.len() && #[trigger] files0[k]@ == shard_file(id) {
        r == Err::<Row, DbError>(DbError::NotFound) && new == old && files == files0
    } else {
        let k = owner(files0, id);
        let row = to_map(old[k]@)[id];
        &&& r is Err ==> files == files0 && new.len() == old.len() && (forall|q: int|
            0 <= q < old.len() && q != k ==> #[trigger] new[q] == old[q]) && to_map(new[k]@)
            == to_map(old[k]@)
        &&& r is Err && !to_map(old[k]@).contains_key(id) ==> r == Err::<Row, DbError>(DbError::NotFound)
        &&& r is Err && to_map(old[k]@).contains_key(id) ==> exists|m: Row|
            keys_unique(m@) && merged_from(to_map(row@), to_map(patch), to_map(m@))
                && #[trigger] admit_row(m@, schema) == Err::<Seq<char>, DbError>(r->Err_0)
        &&& r is Ok ==> to_map(old[k]@).contains_key(id) && exists|mid: Seq<Shard>, item: (String, Row)|
            mid.len() == old.len() && (forall|q: int| 0 <= q < old.len() && q != k ==> #[trigger] mid[q] == old[q])
                && to_map(mid[k]@) == to_map(old[k]@).remove(id) && keys_unique(item.1@)
                && merged_from(to_map(row@), to_map(patch), to_map(item.1@)) && admit_row(item.1@, schema)
                == Ok::<Seq<char>, DbError>(item.0@) && rows_same(r->Ok_0@, item.1@)
                && #[trigger] placed(files0, mid, seq![item], files, new)
    }
}

impl DATABASE {
    /// Updates the row stored under numeric id `id` with the fields of
    /// `patch`, and stores the merged row under the id derived for it, in
    /// the shard that owns that id. Returns a copy of the merged row.
    pub fn update_id(
        schema: &TABLE,
        files: &mut Vec<String>,
        shards: &mut Vec<Shard>,
        id: &str,
        patch: Row,
    ) -> (r: Result<Row, DbError>)
        requires
            old(files)@.len() == old(shards)@.len(),
            names_distinct(old(files)@),
            forall|k: int| 0 <= k < old(shards)@.len() ==> shard_wf(#[trigger] old(shards)@[k]@),
            keys_unique(patch@),
        ensures
            forall|k: int| 0 <= k < final(shards)@.len() ==> shard_wf(#[trigger] final(shards)@[k]@),
            row_updated(*schema, id@, patch@, old(files)@, old(shards)@, final(files)@, final(shards)@, r),
    {
        let ghost f0 = files@;
        let ghost s0 = shards@;
        let ghost p0 = patch@;
        let file = Self::get_file_by_id(id.to_owned());
        let mut k: usize = 0;
        while k < files.len()
            invariant
                0 <= k <= files@.len(),
                forall|q: int| 0 <= q < k ==> #[trigger] files@[q]@ != file@,
            ensures
                0 <= k <= files@.len(),
                forall|q: int| 0 <= q < k ==> #[trigger] files@[q]@ != file@,
                k < files@.len() ==> files@[k as int]@ == file@,
            decreases files.len() - k,
        {
            if crate::value::str_eq(files[k].as_str(), file.as_str()) {
                break;
            }
            k = k + 1;
        }
        if k == files.len() {
            return Err(DbError::NotFound);
        }
        proof {
            let o = owner(f0, id@);
            assert(f0[k as int]@ == shard_file(id@));
            assert(0 <= o < f0.len() && f0[o]@ == shard_file(id@));
            if o != k {
                if o < k {
                    assert(f0[o]@ != f0[k as int]@);
                } else {
                    assert(f0[k as int]@ != f0[o]@);
                }
            }
            assert(o == k);
        }
        let mut shard: Shard = Vec::new();
        shards.set_and_swap(k, &mut shard);
        assert(shard_wf(s0[k as int]@));
        let res = Self::update_entry(schema, &mut shard, id, patch);
        let ghost sh1 = shard;
        shards.set_and_swap(k, &mut shard);
        let ghost mid = shards@;
        proof {
            assert(mid == s0.update(k as int, sh1));
            assert forall|q: int| 0 <= q < mid.len() implies shard_wf(#[trigger] mid[q]@) by {
                if q != k {
                    assert(mid[q] == s0[q]);
                }
            };
        }
        match res {
            Err(e) => Err(e),
            Ok(item) => {
                let ghost iv = item;
                let copy = copy_row(&item.1);
                let mut items: Vec<(String, Row)> = Vec::new();
                items.push(item);
                proof {
                    assert(items@ == seq![iv]);
                }
                Self::place_rows(files, shards, items);
                proof {
                    let kk = k as int;
                    assert(mid.len() == s0.len() && (forall|q: int| 0 <= q < s0.len() && q != kk ==> #[trigger] mid[q] == s0[q]));
                    assert(placed(f0, mid, seq![iv], files@, shards@));
                }
                Ok(copy)
            },
        }
    }

    /// Updates the row stored under an identifying text with the fields of
    /// `new_row`, as `update_id` does under its numeric id.
    pub fn update_row_by_id(
        schema: &TABLE,
        files: &mut Vec<String>,
        shards: &mut Vec<Shard>,
        id_: &str,
        new_row: Row,
    ) -> (r: Result<Row, DbError>)
        requires
            old(files)@.len() == old(shards)@.len(),
            names_distinct(old(files)@),
            forall|k: int| 0 <= k < old(shards)@.len() ==> shard_wf(#[trigger] old(shards)@[k]@),
            keys_unique(new_row@),
        ensures
            forall|k: int| 0 <= k < final(shards)@.len() ==> shard_wf(#[trigger] final(shards)@[k]@),
            row_updated(*schema, numeric_id(id_@), new_row@, old(files)@, old(shards)@, final(files)@, final(shards)@, r),
    {
        let id = string_to_numerical_uuid(id_);
        Self::update_id(schema, files, shards, id.as_str(), new_row)
    }

    /// Sets one field of the row stored under an identifying text, as
    /// `update_row_by_id` does with a one-field patch.
    pub fn update_field_by_id(
        schema: &TABLE,
        files: &mut Vec<String>,
        shards: &mut Vec<Shard>,
        id_: &str,
        fieldname: String,
        new_value: Slot,
    ) -> (r: Result<Row, DbError>)
        requires
            old(files)@.len() == old(shards)@.len(),
            names_distinct(old(files)@),
            forall|k: int| 0 <= k < old(shards)@.len() ==> shard_wf(#[trigger] old(shards)@[k]@),
        ensures
            forall|k: int| 0 <= k < final(shards)@.len() ==> shard_wf(#[trigger] final(shards)@[k]@),
            row_updated(
                *schema,
                numeric_id(id_@),
                seq![(fieldname, new_value)],
                old(files)@,
                old(shards)@,
                final(files)@,
                final(shards)@,
                r,
            ),
    {
        let ghost entry = (fieldname, new_value);
        let mut patch: Row = Vec::new();
        patch.push((fieldname, new_value));
        assert(patch@ == seq![entry]);
        Self::update_row_by_id(schema, files, shards, id_, patch)
    }
}

} // verus!
