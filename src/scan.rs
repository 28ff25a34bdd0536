//! Scans over the shards of a table: filters on rows, reads of all or
//! matching entries, and deletes of matching entries.
use vstd::prelude::*;
use crate::assoc::{keys_unique, lemma_map, to_map, find_key, take};
use crate::query::{Condition, LogicOp, QueryBuilder, conditions_hold, passes};
use crate::schema::{Row, Slot};
use crate::shard::DATABASE;
use crate::value::{CMP, Data, cmp_holds};
use crate::store::{Shard, rows_wf, shard_wf};

verus! {

/// Whether a row has `field` and its value stands in relation `cmp` to `value`.
pub open spec fn row_matches(row: Seq<(String, Slot)>, field: Seq<char>, value: Data, cmp: CMP) -> bool {
    to_map(row).contains_key(field) && cmp_holds(cmp, to_map(row)[field].0, value)
}

/// The first element of a sequence alone, or nothing if it is empty.
pub open spec fn first_only<A>(s: Seq<A>) -> Seq<A> {
    if s.len() <= 1 {
        s
    } else {
        s.take(1)
    }
}

/// Whether the row of an entry matches a condition.
pub open spec fn entry_matches(field: Seq<char>, value: Data, cmp: CMP) -> spec_fn(
    (String, Row),
) -> bool {
    |e: (String, Row)| row_matches(e.1@, field, value, cmp)
}

/// Whether the row of an entry does not match a condition.
pub open spec fn entry_misses(field: Seq<char>, value: Data, cmp: CMP) -> spec_fn(
    (String, Row),
) -> bool {
    |e: (String, Row)| !row_matches(e.1@, field, value, cmp)
}

/// A condition on rows: a field compared with a value, or the conditions
/// of a query.
pub enum RowFilter {
    Field { field: String, value: Data, cmp: CMP },
    Query { conditions: Vec<(LogicOp, Condition)> },
}

/// Whether a row passes a filter.
pub open spec fn filter_holds(f: RowFilter, row: Seq<(String, Slot)>) -> bool {
    match f {
        RowFilter::Field { field, value, cmp } => row_matches(row, field@, value, cmp),
        RowFilter::Query { conditions } => passes(conditions@, row),
    }
}

/// Whether the row of an entry misses a filter.
pub open spec fn filter_misses(f: RowFilter) -> spec_fn((String, Row)) -> bool {
    |e: (String, Row)| !filter_holds(f, e.1@)
}

/// `new` is `old` with the entries whose rows pass `f` removed from every
/// shard, or with `multi` false only the first such entry in shard order;
/// `changed` tells which shards lost an entry.
pub open spec fn deleted_where(
    f: RowFilter,
    old: Seq<Shard>,
    new: Seq<Shard>,
    multi: bool,
    changed: Seq<bool>,
) -> bool {
    &&& new.len() == old.len()
    &&& changed.len() == old.len()
    &&& multi ==> forall|k: int|
        0 <= k < old.len() ==> #[trigger] new[k]@ == old[k]@.filter(filter_misses(f))
    &&& multi ==> forall|k: int|
        0 <= k < old.len() ==> (#[trigger] changed[k] <==> exists|j: int|
            0 <= j < old[k]@.len() && filter_holds(f, #[trigger] old[k]@[j].1@))
    &&& !multi ==> forall|k: int| 0 <= k < old.len() && !changed[k] ==> #[trigger] new[k]@ == old[k]@
    &&& !multi ==> forall|k: int|
        0 <= k < old.len() && #[trigger] changed[k] ==> {
            &&& forall|q: int| 0 <= q < k ==> !changed[q]
            &&& forall|q: int, j: int|
                0 <= q < k && 0 <= j < old[q]@.len() ==> !filter_holds(f, #[trigger] old[q]@[j].1@)
            &&& exists|j: int|
                0 <= j < old[k]@.len() && filter_holds(f, old[k]@[j].1@) && (forall|q: int|
                    0 <= q < j ==> !filter_holds(f, #[trigger] old[k]@[q].1@)) && new[k]@
                    == old[k]@.remove(j)
        }
    &&& !multi ==> (exists|k: int| 0 <= k < changed.len() && #[trigger] changed[k]) || forall|
        q: int,
        j: int,
    | 0 <= q < old.len() && 0 <= j < old[q]@.len() ==> !filter_holds(f, #[trigger] old[q]@[j].1@)
}

/// Whether a row passes a filter.
pub fn filter_check(f: &RowFilter, row: &Row) -> (r: bool)
    requires
        keys_unique(row@),
    ensures
        r == filter_holds(*f, row@),
{
    match f {
        RowFilter::Field { field, value, cmp } => field_matches(row, field.as_str(), value, *cmp),
        RowFilter::Query { conditions } => conditions_hold(conditions, row),
    }
}

/// Whether a row has `field` and its value stands in relation `cmp` to `value`.
pub fn field_matches(row: &Row, field: &str, value: &Data, cmp: CMP) -> (r: bool)
    requires
        keys_unique(row@),
    ensures
        r == row_matches(row@, field@, *value, cmp),
{
    proof {
        lemma_map(row@);
    }
    match find_key(row, field) {
        None => false,
        Some(i) => cmp.holds(&row[i].1.0, value),
    }
}

/// Moves the entry at `i` out of a list, leaving a blank one in its place.
fn take_entry(v: &mut Vec<(String, Row)>, i: usize) -> (r: (String, Row))
    requires
        i < old(v)@.len(),
    ensures
        r == old(v)@[i as int],
        final(v)@.len() == old(v)@.len(),
        forall|j: int| 0 <= j < old(v)@.len() && j != i ==> final(v)@[j] == old(v)@[j],
{
    let mut blank: (String, Row) = (String::new(), Vec::new());
    v.set_and_swap(i, &mut blank);
    blank
}

/// Keeps the entries of a shard whose rows miss a condition; with `multi`
/// false, drops only the first entry that matches. Returns how many were
/// dropped.
fn retain_misses(shard: &mut Shard, f: &RowFilter, multi: bool) -> (r: usize)
    requires
        shard_wf(old(shard)@),
    ensures
        shard_wf(final(shard)@),
        multi ==> final(shard)@ == old(shard)@.filter(filter_misses(*f)),
        multi ==> (r > 0 <==> exists|j: int|
            0 <= j < old(shard)@.len() && filter_holds(*f, #[trigger] old(shard)@[j].1@)),
        !multi && r == 0 ==> final(shard)@ == old(shard)@ && forall|j: int|
            0 <= j < old(shard)@.len() ==> !filter_holds(*f, #[trigger] old(shard)@[j].1@),
        !multi && r != 0 ==> r == 1 && exists|j: int|
            0 <= j < old(shard)@.len() && filter_holds(*f, old(shard)@[j].1@)
                && (forall|k: int| 0 <= k < j ==> !filter_holds(*f, #[trigger] old(shard)@[k].1@))
                && final(shard)@ == old(shard)@.remove(j),
{
    let ghost s0 = shard@;
    let ghost keep = filter_misses(*f);
    let n = shard.len();
    if !multi {
        let mut j: usize = 0;
        while j < n
            invariant
                n == shard@.len(),
                shard@ == s0,
                s0 == old(shard)@,
                shard_wf(s0),
                !multi,
                0 <= j <= n,
                forall|k: int| 0 <= k < j ==> !filter_holds(*f, #[trigger] s0[k].1@),
            decreases n - j,
        {
            if filter_check(f, &shard[j].1) {
                assert(filter_holds(*f, s0[j as int].1@));
                shard.remove(j);
                proof {
                    assert forall|a: int, b: int|
                        0 <= a < shard@.len() && 0 <= b < shard@.len() && #[trigger] shard@[a].0@
                            == #[trigger] shard@[b].0@ implies a == b by {
                        let a0 = if a < j { a } else { a + 1 };
                        let b0 = if b < j { b } else { b + 1 };
                        assert(shard@[a] == s0[a0]);
                        assert(shard@[b] == s0[b0]);
                    };
                    assert forall|a: int| 0 <= a < shard@.len() implies keys_unique(
                        #[trigger] shard@[a].1@,
                    ) by {
                        let a0 = if a < j { a } else { a + 1 };
                        assert(shard@[a] == s0[a0]);
                    };
                    let jj = j as int;
                    assert(0 <= jj < s0.len() && filter_holds(*f, s0[jj].1@)
                        && (forall|k: int| 0 <= k < jj ==> !filter_holds(*f, #[trigger] s0[k].1@))
                        && shard@ == s0.remove(jj));
                }
                return 1;
            }
            j = j + 1;
        }
        return 0;
    }
    let mut kept: Shard = Vec::new();
    let mut i: usize = 0;
    while i < n
        invariant
            n == s0.len(),
            shard@.len() == n,
            shard_wf(s0),
            0 <= i <= n,
            forall|j: int| i <= j < n ==> shard@[j] == s0[j],
            kept@ == s0.subrange(0, i as int).filter(keep),
            keep == filter_misses(*f),
            s0 == old(shard)@,
            kept@.len() <= i,
            kept@.len() < i <==> exists|j: int| 0 <= j < i && filter_holds(*f, #[trigger] s0[j].1@),
            forall|a: int|
                0 <= a < kept@.len() ==> exists|j: int| 0 <= j < i && #[trigger] kept@[a] == s0[j],
            shard_wf(kept@),
        decreases n - i,
    {
        let e = take_entry(shard, i);
        proof {
            assert(s0.subrange(0, i + 1) == s0.subrange(0, i as int).push(s0[i as int]));
            s0.subrange(0, i as int).lemma_filter_push(s0[i as int], keep);
        }
        let hit = filter_check(f, &e.1);
        proof {
            if hit {
                assert(filter_holds(*f, s0[i as int].1@));
            } else {
                if exists|j: int| 0 <= j < i + 1 && filter_holds(*f, #[trigger] s0[j].1@) {
                    let j = choose|j: int| 0 <= j < i + 1 && filter_holds(*f, #[trigger] s0[j].1@);
                    assert(j < i);
                }
            }
        }
        if !hit {
            let ghost before = kept@;
            kept.push(e);
            proof {
                assert forall|a: int, b: int|
                    0 <= a < kept@.len() && 0 <= b < kept@.len() && #[trigger] kept@[a].0@
                        == #[trigger] kept@[b].0@ implies a == b by {
                    if a < before.len() && b == before.len() {
                        let ja = choose|j: int| 0 <= j < i && #[trigger] before[a] == s0[j];
                        assert(kept@[a] == before[a]);
                    }
                    if b < before.len() && a == before.len() {
                        let jb = choose|j: int| 0 <= j < i && #[trigger] before[b] == s0[j];
                        assert(kept@[b] == before[b]);
                    }
                    if a < before.len() && b < before.len() {
                        assert(kept@[a] == before[a] && kept@[b] == before[b]);
                    }
                };
                assert forall|a: int|
                    0 <= a < kept@.len() implies exists|j: int| 0 <= j < i + 1 && #[trigger] kept@[a] == s0[j] by {
                    if a < before.len() {
                        assert(kept@[a] == before[a]);
                        let ja = choose|j: int| 0 <= j < i && #[trigger] before[a] == s0[j];
                    } else {
                        assert(kept@[a] == s0[i as int]);
                    }
                };
                assert forall|a: int| 0 <= a < kept@.len() implies keys_unique(
                    #[trigger] kept@[a].1@,
                ) by {
                    if a < before.len() {
                        assert(kept@[a] == before[a]);
                    }
                };
            }
        }
        i = i + 1;
    }
    proof {
        assert(s0.subrange(0, n as int) == s0);
    }
    let removed = n - kept.len();
    *shard = kept;
    removed
}

impl DATABASE {
    /// All entries of the given shards, shard after shard.
    pub fn get_all(shards: Vec<Shard>) -> (r: Shard)
        ensures
            r@ == shards@.map_values(|s: Shard| s@).flatten(),
    {
        let ghost all = shards@.map_values(|s: Shard| s@);
        let mut out: Shard = Vec::new();
        let mut rest = shards;
        let mut i: usize = 0;
        let n = rest.len();
        proof {
            assert(all.subrange(0, n as int) == all);
            assert(out@ + all.subrange(0, n as int).flatten() == all.flatten());
        }
        while i < n
            invariant
                n == rest@.len(),
                0 <= i <= n,
                all.len() == n,
                forall|j: int| i <= j < n ==> #[trigger] rest@[j]@ == all[j],
                out@ + all.subrange(i as int, n as int).flatten() == all.flatten(),
            decreases n - i,
        {
            let mut blank: Shard = Vec::new();
            rest.set_and_swap(i, &mut blank);
            proof {
                let tail = all.subrange(i as int, n as int);
                assert(tail.drop_first() == all.subrange(i + 1, n as int));
                assert(tail.flatten() == tail[0] + tail.drop_first().flatten());
                assert(tail[0] == blank@);
                assert(out@ + (blank@ + all.subrange(i + 1, n as int).flatten()) == (out@ + blank@)
                    + all.subrange(i + 1, n as int).flatten());
            }
            out.append(&mut blank);
            i = i + 1;
        }
        proof {
            assert(all.subrange(n as int, n as int).flatten() == Seq::<(String, Row)>::empty());
            assert(out@ + Seq::<(String, Row)>::empty() == out@);
        }
        out
    }

    /// The entries whose rows match `field cmp value`, in order; with `multi`
    /// false, only the first of them.
    pub fn get_where(
        entries: Vec<(String, Row)>,
        field_name: &str,
        field_value: &Data,
        multi: bool,
        cmp: CMP,
    ) -> (r: Vec<(String, Row)>)
        requires
            rows_wf(entries@),
        ensures
            multi ==> r@ == entries@.filter(entry_matches(field_name@, *field_value, cmp)),
            !multi ==> r@ == first_only(entries@.filter(entry_matches(field_name@, *field_value, cmp))),
    {
        let ghost s0 = entries@;
        let ghost p = entry_matches(field_name@, *field_value, cmp);
        let mut src = entries;
        let mut out: Vec<(String, Row)> = Vec::new();
        let n = src.len();
        let mut i: usize = 0;
        while i < n
            invariant
                n == s0.len(),
                s0 == entries@,
                src@.len() == n,
                rows_wf(s0),
                0 <= i <= n,
                forall|j: int| i <= j < n ==> src@[j] == s0[j],
                out@ == s0.subrange(0, i as int).filter(p),
                p == entry_matches(field_name@, *field_value, cmp),
                !multi ==> out@.len() == 0,
            decreases n - i,
        {
            let e = take_entry(&mut src, i);
            proof {
                assert(s0.subrange(0, i + 1) == s0.subrange(0, i as int).push(s0[i as int]));
                s0.subrange(0, i as int).lemma_filter_push(s0[i as int], p);
            }
            if field_matches(&e.1, field_name, field_value, cmp) {
                out.push(e);
                if !multi {
                    proof {
                        let pre = s0.subrange(0, i + 1);
                        let post = s0.subrange(i + 1, n as int);
                        assert(s0 == pre + post);
                        Seq::filter_distributes_over_add(pre, post, p);
                        assert(p(s0[i as int]));
                        assert(pre.filter(p) == out@);
                        assert(out@.len() == 1);
                        assert((out@ + post.filter(p)).take(1) =~= out@);
                        assert(s0.filter(p) == out@ + post.filter(p));
                        if s0.filter(p).len() <= 1 {
                            assert(out@ + post.filter(p) =~= out@);
                        }
                        assert(first_only(s0.filter(p)) == out@);
                    }
                    return out;
                }
            }
            i = i + 1;
        }
        proof {
            assert(s0.subrange(0, n as int) == s0);
            if !multi {
                s0.lemma_filter_len(p);
                assert(first_only(out@) == out@);
            }
        }
        out
    }

    /// Removes the entries whose rows pass a filter from every shard; with
    /// `multi` false, removes only the first of them, in shard order.
    /// Returns, for each shard, whether it changed.
    pub fn delete_where(shards: &mut Vec<Shard>, f: &RowFilter, multi: bool) -> (r: Vec<bool>)
        requires
            forall|k: int| 0 <= k < old(shards)@.len() ==> shard_wf(#[trigger] old(shards)@[k]@),
        ensures
            forall|k: int| 0 <= k < final(shards)@.len() ==> shard_wf(#[trigger] final(shards)@[k]@),
            deleted_where(*f, old(shards)@, final(shards)@, multi, r@),
    {
        let ghost s0 = shards@;
        let n = shards.len();
        let mut changed: Vec<bool> = Vec::new();
        let mut done = false;
        let mut k: usize = 0;
        while k < n
            invariant
                n == s0.len(),
                shards@.len() == n,
                0 <= k <= n,
                changed@.len() == k,
                forall|j: int| 0 <= j < n ==> shard_wf(#[trigger] s0[j]@),
                forall|j: int| k <= j < n ==> #[trigger] shards@[j] == s0[j],
                forall|j: int| 0 <= j < k ==> shard_wf(#[trigger] shards@[j]@),
                multi ==> forall|j: int|
                    0 <= j < k ==> #[trigger] shards@[j]@ == s0[j]@.filter(filter_misses(*f)),
                !multi ==> done == exists|j: int| 0 <= j < k && #[trigger] changed@[j],
                multi ==> forall|j: int|
                    0 <= j < k ==> (#[trigger] changed@[j] <==> exists|q: int|
                        0 <= q < s0[j]@.len() && filter_holds(*f, #[trigger] s0[j]@[q].1@)),
                !multi ==> forall|j: int| 0 <= j < k && !changed@[j] ==> #[trigger] shards@[j]@ == s0[j]@,
                !multi && !done ==> forall|q: int, j: int| 0 <= q < k && 0 <= j < s0[q]@.len()
                        ==> !filter_holds(*f, #[trigger] s0[q]@[j].1@),
                !multi ==> forall|j: int|
                    0 <= j < k && #[trigger] changed@[j] ==> (forall|q: int| 0 <= q < j ==> !changed@[q])
                        && (forall|q: int, i: int| 0 <= q < j && 0 <= i < s0[q]@.len()
                            ==> !filter_holds(*f, #[trigger] s0[q]@[i].1@))
                        && exists|i: int|
                        0 <= i < s0[j]@.len() && filter_holds(*f, s0[j]@[i].1@)
                            && (forall|q: int| 0 <= q < i ==> !filter_holds(*f, #[trigger] s0[j]@[q].1@))
                            && shards@[j]@ == s0[j]@.remove(i),
            decreases n - k,
        {
            let ghost before = changed@;
            if multi || !done {
                let mut shard: Shard = Vec::new();
                shards.set_and_swap(k, &mut shard);
                let removed = retain_misses(&mut shard, f, multi);
                shards.set_and_swap(k, &mut shard);
                changed.push(removed > 0);
                if removed > 0 {
                    done = true;
                }
            } else {
                changed.push(false);
            }
            proof {
                assert(forall|j: int| 0 <= j < k ==> changed@[j] == before[j]);
                if !multi && changed@[k as int] {
                    assert(done);
                }
                if !multi && done {
                    assert(exists|j: int| 0 <= j < k + 1 && #[trigger] changed@[j]) by {
                        if exists|j: int| 0 <= j < k && #[trigger] before[j] {
                            let j = choose|j: int| 0 <= j < k && #[trigger] before[j];
                            assert(changed@[j]);
                        } else {
                            assert(changed@[k as int]);
                        }
                    };
                }
            }
            k = k + 1;
        }
        changed
    }

    /// Removes the entries whose `fieldname` stands in relation `cmp` to
    /// `fieldvalue`; with `multi` false only the first, in shard order.
    pub fn delete_row_where(
        shards: &mut Vec<Shard>,
        fieldname: String,
        fieldvalue: Data,
        multi: bool,
        cmp: CMP,
    ) -> (r: Vec<bool>)
        requires
            forall|k: int| 0 <= k < old(shards)@.len() ==> shard_wf(#[trigger] old(shards)@[k]@),
        ensures
            forall|k: int| 0 <= k < final(shards)@.len() ==> shard_wf(#[trigger] final(shards)@[k]@),
            deleted_where(
                (RowFilter::Field { field: fieldname, value: fieldvalue, cmp: cmp }),
                old(shards)@,
                final(shards)@,
                multi,
                r@,
            ),
    {
        let f = RowFilter::Field { field: fieldname, value: fieldvalue, cmp };
        Self::delete_where(shards, &f, multi)
    }

}

impl QueryBuilder {
    /// Removes every entry whose row passes the query's conditions.
    pub fn delete(self, shards: &mut Vec<Shard>) -> (r: Vec<bool>)
        requires
            forall|k: int| 0 <= k < old(shards)@.len() ==> shard_wf(#[trigger] old(shards)@[k]@),
        ensures
            forall|k: int| 0 <= k < final(shards)@.len() ==> shard_wf(#[trigger] final(shards)@[k]@),
            deleted_where(
                (RowFilter::Query { conditions: self.conditions }),
                old(shards)@,
                final(shards)@,
                true,
                r@,
            ),
    {
        let f = RowFilter::Query { conditions: self.conditions };
        DATABASE::delete_where(shards, &f, true)
    }

}

} // verus!
