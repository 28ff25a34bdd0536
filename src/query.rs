//! The query builder: conditions joined by AND and OR, an optional sort and
//! an optional limit, evaluated over the rows of a table.
use vstd::prelude::*;
use vstd::seq_lib::{to_multiset_build, to_multiset_insert};
use crate::assoc::{keys_unique, lemma_map, to_map, find_key};
use crate::schema::{Row, Slot};
use crate::value::{
    Data, data_equal, data_order, eq_data, data_compare, data_eq, tag_of, num_is_nan, num_key, text_lt,
    num_compare, text_compare,
};

verus! {

/// A comparison operator of the query builder.
#[derive(Clone, Copy, Debug)]
pub enum Operator {
    Eq,
    Ne,
    Gt,
    Lt,
    Gte,
    Lte,
}

/// How a condition joins the ones before it. AND binds tighter than OR:
/// each OR starts a new group, and a row passes when every condition of
/// some group holds.
#[derive(Clone, Copy, Debug)]
pub enum LogicOp {
    And,
    Or,
}

/// One predicate: `field op value`.
#[derive(Debug)]
pub struct Condition {
    pub field: String,
    pub op: Operator,
    pub value: Data,
}

/// Whether `x op y` holds. Values of different tags satisfy no operator.
pub open spec fn op_holds(op: Operator, x: Data, y: Data) -> bool {
    match op {
        Operator::Eq => data_equal(x, y),
        Operator::Ne => tag_of(x) == tag_of(y) && !data_equal(x, y),
        Operator::Gt => data_order(x, y) == Some(std::cmp::Ordering::Greater),
        Operator::Lt => data_order(x, y) == Some(std::cmp::Ordering::Less),
        Operator::Gte => data_order(x, y) == Some(std::cmp::Ordering::Greater) || data_order(x, y)
            == Some(std::cmp::Ordering::Equal),
        Operator::Lte => data_order(x, y) == Some(std::cmp::Ordering::Less) || data_order(x, y)
            == Some(std::cmp::Ordering::Equal),
    }
}

/// Whether a row has the condition's field and its value satisfies it.
pub open spec fn cond_holds(c: Condition, row: Seq<(String, Slot)>) -> bool {
    to_map(row).contains_key(c.field@) && op_holds(c.op, to_map(row)[c.field@].0, c.value)
}

/// Left-to-right evaluation of a list of conditions: whether some closed
/// group held, and whether the open group holds so far.
pub open spec fn eval_groups(conds: Seq<(LogicOp, Condition)>, row: Seq<(String, Slot)>) -> (
    bool,
    bool,
)
    decreases conds.len(),
{
    if conds.len() == 0 {
        (false, true)
    } else {
        let prev = eval_groups(conds.drop_last(), row);
        let t = cond_holds(conds.last().1, row);
        if conds.last().0 is Or && conds.len() > 1 {
            (prev.0 || prev.1, t)
        } else {
            (prev.0, prev.1 && t)
        }
    }
}

/// Whether a row passes a list of conditions.
pub open spec fn passes(conds: Seq<(LogicOp, Condition)>, row: Seq<(String, Slot)>) -> bool {
    eval_groups(conds, row).0 || eval_groups(conds, row).1
}

/// Every row has distinct field names.
pub open spec fn all_rows_wf(rows: Seq<Row>) -> bool {
    forall|i: int| 0 <= i < rows.len() ==> keys_unique(#[trigger] rows[i]@)
}

/// Whether `x op y` holds.
pub fn compare(op: &Operator, left: &Data, right: &Data) -> (r: bool)
    ensures
        r == op_holds(*op, *left, *right),
{
    match op {
        Operator::Eq => eq_data(left, right),
        Operator::Ne => data_eq(left, right) && !eq_data(left, right),
        Operator::Gt => matches!(data_compare(left, right), Some(std::cmp::Ordering::Greater)),
        Operator::Lt => matches!(data_compare(left, right), Some(std::cmp::Ordering::Less)),
        Operator::Gte => matches!(
            data_compare(left, right),
            Some(std::cmp::Ordering::Greater) | Some(std::cmp::Ordering::Equal)
        ),
        Operator::Lte => matches!(
            data_compare(left, right),
            Some(std::cmp::Ordering::Less) | Some(std::cmp::Ordering::Equal)
        ),
    }
}

/// Whether a row satisfies one condition.
pub fn condition_holds(c: &Condition, row: &Row) -> (r: bool)
    requires
        keys_unique(row@),
    ensures
        r == cond_holds(*c, row@),
{
    proof {
        lemma_map(row@);
    }
    match find_key(row, c.field.as_str()) {
        None => false,
        Some(i) => compare(&c.op, &row[i].1.0, &c.value),
    }
}

/// The value a row holds in `field`, if it has the field.
pub open spec fn value_in(row: Seq<(String, Slot)>, field: Seq<char>) -> Option<Data> {
    if to_map(row).contains_key(field) {
        Some(to_map(row)[field].0)
    } else {
        None
    }
}

/// Whether the value of `a` in `field` sorts strictly before that of `b`:
/// numbers in numeric order, texts in lexicographic order; any other pair is
/// unordered.
pub open spec fn key_lt(a: Seq<(String, Slot)>, b: Seq<(String, Slot)>, field: Seq<char>) -> bool {
    match (value_in(a, field), value_in(b, field)) {
        (Some(Data::NUMBER(x)), Some(Data::NUMBER(y))) => !num_is_nan(x) && !num_is_nan(y)
            && num_key(x) < num_key(y),
        (Some(Data::STRING(x)), Some(Data::STRING(y))) => text_lt(x@, y@),
        _ => false,
    }
}

/// Whether the values of `a` and `b` in `field` are both numbers (not NaN)
/// or both texts.
pub open spec fn same_class(a: Seq<(String, Slot)>, b: Seq<(String, Slot)>, field: Seq<char>) -> bool {
    match (value_in(a, field), value_in(b, field)) {
        (Some(Data::NUMBER(x)), Some(Data::NUMBER(y))) => !num_is_nan(x) && !num_is_nan(y),
        (Some(Data::STRING(_)), Some(Data::STRING(_))) => true,
        _ => false,
    }
}

/// Whether row `a` must come before row `b` in a sort on `field`.
pub open spec fn sorts_before(
    a: Seq<(String, Slot)>,
    b: Seq<(String, Slot)>,
    field: Seq<char>,
    ascending: bool,
) -> bool {
    if ascending {
        key_lt(a, b, field)
    } else {
        key_lt(b, a, field)
    }
}

/// No row of `s` must come before an earlier one.
pub open spec fn sorted_on(s: Seq<Row>, field: Seq<char>, ascending: bool) -> bool {
    forall|i: int, j: int|
        0 <= i < j < s.len() ==> !sorts_before(#[trigger] s[j]@, #[trigger] s[i]@, field, ascending)
}

/// An order on field values is never both ways, and only holds between
/// values of one kind.
pub proof fn lemma_key_lt_asymmetric(u: Seq<(String, Slot)>, v: Seq<(String, Slot)>, field: Seq<char>)
    requires
        key_lt(u, v, field),
    ensures
        !key_lt(v, u, field),
        same_class(u, v, field),
{
    match (value_in(u, field), value_in(v, field)) {
        (Some(Data::STRING(x)), Some(Data::STRING(y))) => {
            if text_lt(y@, x@) {
                crate::value::lemma_text_lt_transitive(x@, y@, x@);
                crate::value::lemma_text_lt_irreflexive(x@);
            }
        },
        _ => {},
    }
}

/// If `a` sorts before `c`, any `b` of their kind sorts after `a` or before `c`.
pub proof fn lemma_key_lt_split(
    a: Seq<(String, Slot)>,
    b: Seq<(String, Slot)>,
    c: Seq<(String, Slot)>,
    field: Seq<char>,
)
    requires
        key_lt(a, c, field),
        same_class(a, b, field),
    ensures
        key_lt(a, b, field) || key_lt(b, c, field),
{
    match (value_in(a, field), value_in(b, field), value_in(c, field)) {
        (Some(Data::STRING(x)), Some(Data::STRING(y)), Some(Data::STRING(z))) => {
            if !text_lt(x@, y@) && !text_lt(y@, z@) {
                if x@ != y@ {
                    crate::value::lemma_text_lt_total(x@, y@);
                }
                if y@ != z@ {
                    crate::value::lemma_text_lt_total(y@, z@);
                }
                if x@ == y@ && y@ != z@ {
                    crate::value::lemma_text_lt_transitive(z@, x@, z@);
                    crate::value::lemma_text_lt_irreflexive(z@);
                } else if x@ != y@ && y@ == z@ {
                    crate::value::lemma_text_lt_transitive(x@, z@, y@);
                    crate::value::lemma_text_lt_irreflexive(x@);
                } else if x@ != y@ && y@ != z@ {
                    crate::value::lemma_text_lt_transitive(z@, y@, x@);
                    crate::value::lemma_text_lt_transitive(x@, z@, x@);
                    crate::value::lemma_text_lt_irreflexive(x@);
                } else {
                    crate::value::lemma_text_lt_irreflexive(x@);
                }
            }
        },
        _ => {},
    }
}

/// Rows whose values in `field` sort neither way: of one kind and equal.
pub open spec fn same_key(
    a: Seq<(String, Slot)>,
    b: Seq<(String, Slot)>,
    field: Seq<char>,
    ascending: bool,
) -> bool {
    same_class(a, b, field) && !sorts_before(a, b, field, ascending) && !sorts_before(
        b,
        a,
        field,
        ascending,
    )
}

/// `s` holds the rows of `orig`, each once, through positions `p`, and rows
/// of equal keys keep their order in `orig`.
pub open spec fn stable_by(
    s: Seq<Row>,
    orig: Seq<Row>,
    p: Seq<int>,
    field: Seq<char>,
    ascending: bool,
) -> bool {
    &&& p.len() == s.len()
    &&& forall|k: int| 0 <= k < s.len() ==> 0 <= #[trigger] p[k] < orig.len() && s[k] == orig[p[k]]
    &&& forall|k1: int, k2: int| 0 <= k1 < k2 < s.len() ==> #[trigger] p[k1] != #[trigger] p[k2]
    &&& forall|k1: int, k2: int|
        0 <= k1 < k2 < s.len() && same_key(#[trigger] s[k1]@, #[trigger] s[k2]@, field, ascending)
            ==> p[k1] < p[k2]
}

/// The first `limit` elements of `s`, or all of them.
pub open spec fn limited<A>(s: Seq<A>, limit: Option<usize>) -> Seq<A> {
    match limit {
        Some(n) => if n < s.len() {
            s.take(n as int)
        } else {
            s
        },
        None => s,
    }
}

/// Whether the value of `a` in `field` sorts strictly before that of `b`.
fn key_less(a: &Row, b: &Row, field: &str) -> (r: bool)
    requires
        keys_unique(a@),
        keys_unique(b@),
    ensures
        r == key_lt(a@, b@, field@),
{
    proof {
        lemma_map(a@);
        lemma_map(b@);
    }
    match (find_key(a, field), find_key(b, field)) {
        (Some(i), Some(j)) => match (&a[i].1.0, &b[j].1.0) {
            (Data::NUMBER(x), Data::NUMBER(y)) => matches!(num_compare(*x, *y), Some(std::cmp::Ordering::Less)),
            (Data::STRING(x), Data::STRING(y)) => matches!(text_compare(x.as_str(), y.as_str()), std::cmp::Ordering::Less),
            _ => false,
        },
        _ => false,
    }
}

/// Whether the values of `a` and `b` in `field` are both numbers (not NaN)
/// or both texts.
fn same_kind(a: &Row, b: &Row, field: &str) -> (r: bool)
    requires
        keys_unique(a@),
        keys_unique(b@),
    ensures
        r == same_class(a@, b@, field@),
{
    proof {
        lemma_map(a@);
        lemma_map(b@);
    }
    match (find_key(a, field), find_key(b, field)) {
        (Some(i), Some(j)) => match (&a[i].1.0, &b[j].1.0) {
            (Data::NUMBER(x), Data::NUMBER(y)) => num_compare(*x, *y).is_some(),
            (Data::STRING(_), Data::STRING(_)) => true,
            _ => false,
        },
        _ => false,
    }
}

/// Sorts rows on `field`, stably: each row goes after the last row before it
/// whose value is of its kind and not greater.
pub fn sort_rows(rows: Vec<Row>, field: &str, ascending: bool) -> (r: Vec<Row>)
    requires
        all_rows_wf(rows@),
    ensures
        r@.to_multiset() == rows@.to_multiset(),
        all_rows_wf(r@),
        sorted_on(r@, field@, ascending),
        exists|p: Seq<int>| stable_by(r@, rows@, p, field@, ascending),
{
    let ghost s0 = rows@;
    let mut src = rows;
    let mut out: Vec<Row> = Vec::new();
    let n = src.len();
    let mut i: usize = 0;
    let ghost mut perm: Seq<int> = Seq::empty();
    assert(out@ =~= s0.subrange(0, 0));
    while i < n
        invariant
            n == s0.len(),
            s0 == rows@,
            stable_by(out@, s0, perm, field@, ascending),
            forall|k: int| 0 <= k < perm.len() ==> #[trigger] perm[k] < i,
            src@.len() == n,
            all_rows_wf(s0),
            0 <= i <= n,
            forall|j: int| i <= j < n ==> src@[j] == s0[j],
            out@.to_multiset() == s0.subrange(0, i as int).to_multiset(),
            all_rows_wf(out@),
            sorted_on(out@, field@, ascending),
        decreases n - i,
    {
        let mut x: Row = Vec::new();
        src.set_and_swap(i, &mut x);
        assert(keys_unique(s0[i as int]@));
        let mut p: usize = 0;
        let mut q: usize = 0;
        while q < out.len()
            invariant
                all_rows_wf(out@),
                keys_unique(x@),
                0 <= q <= out@.len(),
                p <= q,
                forall|t: int|
                    p <= t < q && same_class(x@, #[trigger] out@[t]@, field@) ==> sorts_before(
                        x@,
                        out@[t]@,
                        field@,
                        ascending,
                    ),
                p > 0 ==> same_class(x@, out@[p - 1]@, field@) && !sorts_before(
                    x@,
                    out@[p - 1]@,
                    field@,
                    ascending,
                ),
            decreases out@.len() - q,
        {
            let not_after = if ascending {
                !key_less(&x, &out[q], field)
            } else {
                !key_less(&out[q], &x, field)
            };
            if not_after && same_kind(&x, &out[q], field) {
                p = q + 1;
            }
            q = q + 1;
        }
        proof {
            to_multiset_insert(out@, p as int, x);
            assert(s0.subrange(0, i + 1) == s0.subrange(0, i as int).push(s0[i as int]));
            to_multiset_build(s0.subrange(0, i as int), s0[i as int]);
        }
        let ghost before = out@;
        let ghost xv = x@;
        let ghost xr = x;
        let ghost perm0 = perm;
        out.insert(p, x);
        proof {
            let pi = p as int;
            assert(xr == s0[i as int]);
            perm = perm0.insert(pi, i as int);
            assert forall|k: int| 0 <= k < out@.len() implies 0 <= #[trigger] perm[k] < s0.len() && out@[k] == s0[perm[k]]
                && perm[k] < i + 1 by {
                if k < pi {
                    assert(out@[k] == before[k] && perm[k] == perm0[k]);
                } else if k > pi {
                    assert(out@[k] == before[k - 1] && perm[k] == perm0[k - 1]);
                }
            };
            assert forall|k1: int, k2: int| 0 <= k1 < k2 < out@.len() implies #[trigger] perm[k1] != #[trigger] perm[k2] by {
                let a1 = if k1 < pi { k1 } else { k1 - 1 };
                let a2 = if k2 < pi { k2 } else { k2 - 1 };
                if k1 != pi && k2 != pi {
                    assert(perm[k1] == perm0[a1] && perm[k2] == perm0[a2]);
                } else if k1 == pi {
                    assert(perm0[a2] < i);
                } else {
                    assert(perm0[a1] < i);
                }
            };
            assert forall|k1: int, k2: int|
                0 <= k1 < k2 < out@.len() && same_key(#[trigger] out@[k1]@, #[trigger] out@[k2]@, field@, ascending)
                implies perm[k1] < perm[k2] by {
                let a1 = if k1 < pi { k1 } else { k1 - 1 };
                let a2 = if k2 < pi { k2 } else { k2 - 1 };
                if k1 != pi && k2 != pi {
                    assert(out@[k1] == before[a1] && out@[k2] == before[a2]);
                    assert(perm[k1] == perm0[a1] && perm[k2] == perm0[a2]);
                } else if k2 == pi {
                    assert(perm0[a1] < i);
                } else {
                    assert(out@[k2] == before[a2]);
                    assert(out@[k1]@ == xv);
                    assert(same_class(xv, before[a2]@, field@));
                    assert(sorts_before(xv, before[a2]@, field@, ascending));
                }
            };
            assert(stable_by(out@, s0, perm, field@, ascending));
            assert forall|a: int, b: int|
                0 <= a < b < out@.len() implies !sorts_before(#[trigger] out@[b]@, #[trigger] out@[a]@, field@, ascending) by {
                if b < pi {
                    assert(out@[a] == before[a] && out@[b] == before[b]);
                } else if a > pi {
                    assert(out@[a] == before[a - 1] && out@[b] == before[b - 1]);
                } else if a < pi && b > pi {
                    assert(out@[a] == before[a] && out@[b] == before[b - 1]);
                } else if b == pi {
                    assert(out@[a] == before[a]);
                    assert(out@[b]@ == xv);
                    if sorts_before(xv, before[a]@, field@, ascending) {
                        let bb = before[pi - 1]@;
                        if a < pi - 1 {
                            assert(!sorts_before(bb, before[a]@, field@, ascending));
                        }
                        if ascending {
                            lemma_key_lt_split(xv, bb, before[a]@, field@);
                        } else {
                            lemma_key_lt_asymmetric(before[a]@, xv, field@);
                            lemma_key_lt_split(before[a]@, bb, xv, field@);
                        }
                    }
                } else {
                    assert(a == pi);
                    assert(out@[a]@ == xv);
                    assert(out@[b] == before[b - 1]);
                    if sorts_before(before[b - 1]@, xv, field@, ascending) {
                        if ascending {
                            lemma_key_lt_asymmetric(before[b - 1]@, xv, field@);
                        } else {
                            lemma_key_lt_asymmetric(xv, before[b - 1]@, field@);
                        }
                    }
                }
            };
            assert forall|a: int| 0 <= a < out@.len() implies keys_unique(#[trigger] out@[a]@) by {
                if a < p {
                    assert(out@[a] == before[a]);
                } else if a > p {
                    assert(out@[a] == before[a - 1]);
                }
            };
        }
        i = i + 1;
    }
    proof {
        assert(s0.subrange(0, n as int) == s0);
    }
    out
}

/// Whether a row passes a list of conditions.
pub fn conditions_hold(conds: &Vec<(LogicOp, Condition)>, row: &Row) -> (r: bool)
    requires
        keys_unique(row@),
    ensures
        r == passes(conds@, row@),
{
    let mut closed = false;
    let mut open = true;
    let mut i: usize = 0;
    while i < conds.len()
        invariant
            0 <= i <= conds@.len(),
            keys_unique(row@),
            (closed, open) == eval_groups(conds@.subrange(0, i as int), row@),
        decreases conds.len() - i,
    {
        let t = condition_holds(&conds[i].1, row);
        proof {
            assert(conds@.subrange(0, i + 1).drop_last() == conds@.subrange(0, i as int));
        }
        match conds[i].0 {
            LogicOp::Or => {
                if i > 0 {
                    closed = closed || open;
                    open = t;
                } else {
                    open = open && t;
                }
            },
            LogicOp::And => {
                open = open && t;
            },
        }
        i = i + 1;
    }
    proof {
        assert(conds@.subrange(0, conds@.len() as int) == conds@);
    }
    closed || open
}

/// A query over one table.
#[derive(Debug)]
pub struct QueryBuilder {
    pub table: String,
    pub conditions: Vec<(LogicOp, Condition)>,
    pub limit: Option<usize>,
    pub sort_field: Option<String>,
    pub sort_ascending: bool,
}

impl QueryBuilder {
    /// A query with no condition, no sort and no limit.
    pub fn new(table: &str) -> (r: Self)
        ensures
            r.table@ == table@,
            r.conditions@.len() == 0,
            r.limit is None,
            r.sort_field is None,
            r.sort_ascending,
    {
        QueryBuilder {
            table: table.to_owned(),
            conditions: Vec::new(),
            limit: None,
            sort_field: None,
            sort_ascending: true,
        }
    }

    fn push_condition(self, logic: LogicOp, field: &str, op: Operator, value: Data) -> (r: Self)
        ensures
            r.table == self.table,
            r.limit == self.limit,
            r.sort_field == self.sort_field,
            r.sort_ascending == self.sort_ascending,
            r.conditions@.len() == self.conditions@.len() + 1,
            r.conditions@.drop_last() == self.conditions@,
            r.conditions@.last().0 == logic,
            r.conditions@.last().1.field@ == field@,
            r.conditions@.last().1.op == op,
            r.conditions@.last().1.value == value,
    {
        let ghost before = self.conditions@;
        let mut q = self;
        q.conditions.push((logic, Condition { field: field.to_owned(), op, value }));
        proof {
            assert(q.conditions@.drop_last() =~= before);
        }
        q
    }

    /// Adds a condition joined by AND.
    pub fn where_(self, field: &str, op: Operator, value: Data) -> (r: Self)
        ensures
            r.table == self.table,
            r.limit == self.limit,
            r.sort_field == self.sort_field,
            r.sort_ascending == self.sort_ascending,
            r.conditions@ == self.conditions@.push(r.conditions@.last()),
            r.conditions@.last().0 == LogicOp::And,
            r.conditions@.last().1.field@ == field@,
            r.conditions@.last().1.op == op,
            r.conditions@.last().1.value == value,
    {
        let r = self.push_condition(LogicOp::And, field, op, value);
        proof {
            assert(r.conditions@ =~= r.conditions@.drop_last().push(r.conditions@.last()));
        }
        r
    }

    /// Adds a condition joined by AND.
    pub fn and(self, field: &str, op: Operator, value: Data) -> (r: Self)
        ensures
            r.table == self.table,
            r.limit == self.limit,
            r.sort_field == self.sort_field,
            r.sort_ascending == self.sort_ascending,
            r.conditions@ == self.conditions@.push(r.conditions@.last()),
            r.conditions@.last().0 == LogicOp::And,
            r.conditions@.last().1.field@ == field@,
            r.conditions@.last().1.op == op,
            r.conditions@.last().1.value == value,
    {
        self.where_(field, op, value)
    }

    /// Adds a condition joined by AND.
    pub fn filter(self, field: &str, op: Operator, value: Data) -> (r: Self)
        ensures
            r.table == self.table,
            r.limit == self.limit,
            r.sort_field == self.sort_field,
            r.sort_ascending == self.sort_ascending,
            r.conditions@ == self.conditions@.push(r.conditions@.last()),
            r.conditions@.last().0 == LogicOp::And,
            r.conditions@.last().1.field@ == field@,
            r.conditions@.last().1.op == op,
            r.conditions@.last().1.value == value,
    {
        self.where_(field, op, value)
    }

    /// Adds a condition that opens a new OR group.
    pub fn or(self, field: &str, op: Operator, value: Data) -> (r: Self)
        ensures
            r.table == self.table,
            r.limit == self.limit,
            r.sort_field == self.sort_field,
            r.sort_ascending == self.sort_ascending,
            r.conditions@ == self.conditions@.push(r.conditions@.last()),
            r.conditions@.last().0 == LogicOp::Or,
            r.conditions@.last().1.field@ == field@,
            r.conditions@.last().1.op == op,
            r.conditions@.last().1.value == value,
    {
        let r = self.push_condition(LogicOp::Or, field, op, value);
        proof {
            assert(r.conditions@ =~= r.conditions@.drop_last().push(r.conditions@.last()));
        }
        r
    }

    /// Caps the number of rows a query returns.
    pub fn limit(self, count: usize) -> (r: Self)
        ensures
            r.table == self.table,
            r.conditions == self.conditions,
            r.sort_field == self.sort_field,
            r.sort_ascending == self.sort_ascending,
            r.limit == Some(count),
    {
        let mut q = self;
        q.limit = Some(count);
        q
    }

    /// Sorts results on `field`, ascending or descending.
    pub fn sort_by(self, field: &str, ascending: bool) -> (r: Self)
        ensures
            r.table == self.table,
            r.conditions == self.conditions,
            r.limit == self.limit,
            r.sort_field matches Some(f) && f@ == field@,
            r.sort_ascending == ascending,
    {
        let mut q = self;
        q.sort_field = Some(field.to_owned());
        q.sort_ascending = ascending;
        q
    }

    /// Whether a row passes the conditions of this query.
    pub open spec fn admits(&self) -> spec_fn(Row) -> bool {
        |r: Row| passes(self.conditions@, r@)
    }

    /// What a run of this query may return on `rows`: the rows that pass,
    /// in their order when no sort is asked for, else in an order sorted on
    /// the sort field; then cut to the limit.
    pub open spec fn result_of(&self, rows: Seq<Row>, r: Seq<Row>) -> bool {
        let f = rows.filter(self.admits());
        match self.sort_field {
            None => r == limited(f, self.limit),
            Some(field) => exists|s: Seq<Row>, p: Seq<int>|
                s.to_multiset() == f.to_multiset() && sorted_on(s, field@, self.sort_ascending)
                    && stable_by(s, f, p, field@, self.sort_ascending) && r == limited(s, self.limit),
        }
    }

    /// The rows that pass the conditions, in order.
    fn filter_rows(&self, rows: Vec<Row>) -> (r: Vec<Row>)
        requires
            all_rows_wf(rows@),
        ensures
            r@ == rows@.filter(self.admits()),
            all_rows_wf(r@),
    {
        let ghost s0 = rows@;
        let ghost p = self.admits();
        let mut src = rows;
        let mut out: Vec<Row> = Vec::new();
        let n = src.len();
        let mut i: usize = 0;
        while i < n
            invariant
                n == s0.len(),
                s0 == rows@,
                src@.len() == n,
                all_rows_wf(s0),
                0 <= i <= n,
                forall|j: int| i <= j < n ==> src@[j] == s0[j],
                out@ == s0.subrange(0, i as int).filter(p),
                p == self.admits(),
                all_rows_wf(out@),
            decreases n - i,
        {
            let mut x: Row = Vec::new();
            src.set_and_swap(i, &mut x);
            assert(keys_unique(s0[i as int]@));
            proof {
                assert(s0.subrange(0, i + 1) == s0.subrange(0, i as int).push(s0[i as int]));
                s0.subrange(0, i as int).lemma_filter_push(s0[i as int], p);
            }
            if self.matches_all(&x) {
                out.push(x);
            }
            i = i + 1;
        }
        proof {
            assert(s0.subrange(0, n as int) == s0);
        }
        out
    }

    /// Runs the query on the rows of its table.
    pub fn execute(&self, rows: Vec<Row>) -> (r: Vec<Row>)
        requires
            all_rows_wf(rows@),
        ensures
            self.result_of(rows@, r@),
    {
        let mut results = self.filter_rows(rows);
        match &self.sort_field {
            Some(field) => {
                results = sort_rows(results, field.as_str(), self.sort_ascending);
            },
            None => {},
        }
        let ghost s = results@;
        match self.limit {
            Some(max) => {
                results.truncate(max);
            },
            None => {},
        }
        proof {
            if let Some(max) = self.limit {
                if max >= s.len() {
                    assert(results@ == s);
                }
            }
        }
        results
    }

    /// Runs the query on the entries of its table; it returns what `execute`
    /// returns on their rows.
    pub fn select(&self, entries: Vec<(String, Row)>) -> (r: Vec<Row>)
        requires
            forall|i: int| 0 <= i < entries@.len() ==> keys_unique(#[trigger] entries@[i].1@),
        ensures
            self.result_of(entries@.map_values(|e: (String, Row)| e.1), r@),
    {
        let ghost s0 = entries@;
        let mut src = entries;
        let mut rows: Vec<Row> = Vec::new();
        let n = src.len();
        let mut i: usize = 0;
        while i < n
            invariant
                n == s0.len(),
                src@.len() == n,
                0 <= i <= n,
                forall|j: int| 0 <= j < n ==> keys_unique(#[trigger] s0[j].1@),
                forall|j: int| i <= j < n ==> src@[j] == s0[j],
                rows@ == s0.subrange(0, i as int).map_values(|e: (String, Row)| e.1),
            decreases n - i,
        {
            let mut e: (String, Row) = (String::new(), Vec::new());
            src.set_and_swap(i, &mut e);
            rows.push(e.1);
            proof {
                assert(s0.subrange(0, i + 1).map_values(|e: (String, Row)| e.1) =~= s0.subrange(
                    0,
                    i as int,
                ).map_values(|e: (String, Row)| e.1).push(s0[i as int].1));
            }
            i = i + 1;
        }
        proof {
            assert(s0.subrange(0, n as int) == s0);
            assert forall|j: int| 0 <= j < rows@.len() implies keys_unique(#[trigger] rows@[j]@) by {
                assert(rows@[j] == s0[j].1);
            };
        }
        self.execute(rows)
    }

    /// How many rows the query returns.
    pub fn count(&self, rows: Vec<Row>) -> (r: usize)
        requires
            all_rows_wf(rows@),
        ensures
            r == limited(rows@.filter(self.admits()), self.limit).len(),
    {
        let got = self.execute(rows);
        proof {
            let f = rows@.filter(self.admits());
            if self.sort_field is Some {
                let (s, p) = choose|s: Seq<Row>, p: Seq<int>|
                    s.to_multiset() == f.to_multiset() && sorted_on(s, self.sort_field->0@, self.sort_ascending)
                        && stable_by(s, f, p, self.sort_field->0@, self.sort_ascending) && got@ == limited(s, self.limit);
                s.to_multiset_ensures();
                f.to_multiset_ensures();
                assert(s.len() == f.len());
            }
        }
        got.len()
    }

    /// The first row the query returns, if any.
    pub fn first(self, rows: Vec<Row>) -> (r: Option<Row>)
        requires
            all_rows_wf(rows@),
        ensures
            match r {
                None => rows@.filter(self.admits()).len() == 0,
                Some(x) => rows@.filter(self.admits()).len() > 0 && (self.sort_field is None ==> x
                    == rows@.filter(self.admits())[0]) && rows@.filter(self.admits()).to_multiset().contains(x),
            },
    {
        let ghost me = self;
        let q = self.limit(1);
        let mut got = q.execute(rows);
        proof {
            let f = rows@.filter(me.admits());
            assert(q.admits() == me.admits());
            f.to_multiset_ensures();
            if q.sort_field is Some {
                let (s, p) = choose|s: Seq<Row>, p: Seq<int>|
                    s.to_multiset() == f.to_multiset() && sorted_on(s, q.sort_field->0@, q.sort_ascending)
                        && stable_by(s, f, p, q.sort_field->0@, q.sort_ascending) && got@ == limited(s, q.limit);
                s.to_multiset_ensures();
                assert(s.len() == f.len());
                if s.len() > 0 {
                    assert(s.contains(s[0]));
                    assert(got@[0] == s[0]);
                }
            } else {
                if f.len() > 0 {
                    assert(got@[0] == f[0]);
                    assert(f.contains(f[0]));
                }
            }
        }
        if got.len() == 0 {
            None
        } else {
            let mut x: Row = Vec::new();
            got.set_and_swap(0, &mut x);
            Some(x)
        }
    }

    /// Whether some row passes the conditions; stops at the first one.
    pub fn has_match(&self, rows: &Vec<Row>) -> (r: bool)
        requires
            all_rows_wf(rows@),
        ensures
            r == exists|i: int| 0 <= i < rows@.len() && passes(self.conditions@, #[trigger] rows@[i]@),
    {
        let mut i: usize = 0;
        while i < rows.len()
            invariant
                0 <= i <= rows@.len(),
                all_rows_wf(rows@),
                forall|j: int| 0 <= j < i ==> !passes(self.conditions@, #[trigger] rows@[j]@),
            decreases rows.len() - i,
        {
            assert(keys_unique(rows@[i as int]@));
            if self.matches_all(&rows[i]) {
                return true;
            }
            i = i + 1;
        }
        false
    }

    /// Whether a row passes the conditions of this query.
    pub fn matches_all(&self, row: &Row) -> (r: bool)
        requires
            keys_unique(row@),
        ensures
            r == passes(self.conditions@, row@),
    {
        conditions_hold(&self.conditions, row)
    }

}

} // verus!
