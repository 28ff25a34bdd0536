//! Tagged values, type tags and the comparisons defined between values.
use vstd::prelude::*;

verus! {

/// The type tag of a field, used for schema validation.
#[derive(Clone, Copy, Debug, PartialEq, Eq, Structural)]
pub enum Type {
    NULL,
    STRING,
    NUMBER,
    ARRAY,
    HASHMAP,
    BOOLEAN,
    JSON,
    HASHSET,
    TABLE,
    STRINGNULL,
    NUMBERNULL,
    ARRAYNULL,
    HASHMAPNULL,
    BOOLEANNULL,
    JSONNULL,
    HASHSETNULL,
    TABLENULL,
}

/// A stored value. A number is held as the bit pattern of an IEEE-754
/// binary64 value (`f64::to_bits`).
#[derive(Debug)]
pub enum Data {
    NULL,
    STRING(String),
    NUMBER(u64),
    ARRAY(Vec<Data>),
    BOOLEAN(bool),
    JSON(String),
    STRINGNULL(Option<String>),
    NUMBERNULL(Option<u64>),
    ARRAYNULL(Option<Vec<Data>>),
    BOOLEANNULL(Option<bool>),
    JSONNULL(Option<String>),
}

/// Spelling of each type tag.
pub open spec fn tag_text(t: Type) -> Seq<char> {
    match t {
        Type::NULL => "NULL"@,
        Type::STRING => "STRING"@,
        Type::NUMBER => "NUMBER"@,
        Type::ARRAY => "ARRAY"@,
        Type::HASHMAP => "HASHMAP"@,
        Type::BOOLEAN => "BOOLEAN"@,
        Type::JSON => "JSON"@,
        Type::HASHSET => "HASHSET"@,
        Type::TABLE => "TABLE"@,
        Type::STRINGNULL => "STRINGNULL"@,
        Type::NUMBERNULL => "NUMBERNULL"@,
        Type::ARRAYNULL => "ARRAYNULL"@,
        Type::HASHMAPNULL => "HASHMAPNULL"@,
        Type::BOOLEANNULL => "BOOLEANNULL"@,
        Type::JSONNULL => "JSONNULL"@,
        Type::HASHSETNULL => "HASHSETNULL"@,
        Type::TABLENULL => "TABLENULL"@,
    }
}

impl Type {
    /// Parses a type tag from its name.
    pub fn from_string(s: String) -> (r: Result<Type, &'static str>)
        ensures
            r matches Ok(t) ==> tag_text(t) == s@,
            r is Err ==> forall|t: Type| tag_text(t) != s@,
            r is Err ==> r == Err::<Type, &'static str>("No type name"),
    {
        let names: [&str; 17] = [
            "NULL", "STRING", "NUMBER", "ARRAY", "HASHMAP", "BOOLEAN", "JSON", "HASHSET",
            "TABLE", "STRINGNULL", "NUMBERNULL", "ARRAYNULL", "HASHMAPNULL", "BOOLEANNULL",
            "JSONNULL", "HASHSETNULL", "TABLENULL",
        ];
        let tags: [Type; 17] = [
            Type::NULL, Type::STRING, Type::NUMBER, Type::ARRAY, Type::HASHMAP, Type::BOOLEAN,
            Type::JSON, Type::HASHSET, Type::TABLE, Type::STRINGNULL, Type::NUMBERNULL,
            Type::ARRAYNULL, Type::HASHMAPNULL, Type::BOOLEANNULL, Type::JSONNULL,
            Type::HASHSETNULL, Type::TABLENULL,
        ];
        let mut i: usize = 0;
        while i < 17
            invariant
                0 <= i <= 17,
                forall|k: int| 0 <= k < 17 ==> names@[k]@ == tag_text(#[trigger] tags@[k]),
                forall|k: int| 0 <= k < i ==> names@[k]@ != s@,
            decreases 17 - i,
        {
            if str_eq(names[i], s.as_str()) {
                return Ok(tags[i]);
            }
            i = i + 1;
        }
        assert forall|t: Type| tag_text(t) != s@ by {
            let k: int = choose|k: int| 0 <= k < 17 && tags@[k] == t;
            assert(tag_text(tags@[k]) == names@[k]@);
        };
        Err("No type name")
    }
}

/// Character-wise equality of two strings.
pub fn str_eq(a: &str, b: &str) -> (r: bool)
    ensures
        r == (a@ == b@),
{
    let n = a.unicode_len();
    if n != b.unicode_len() {
        return false;
    }
    let mut i: usize = 0;
    while i < n
        invariant
            n == a@.len() == b@.len(),
            0 <= i <= n,
            forall|k: int| 0 <= k < i ==> a@[k] == b@[k],
        decreases n - i,
    {
        if a.get_char(i) != b.get_char(i) {
            return false;
        }
        i = i + 1;
    }
    assert(a@ =~= b@);
    true
}


/// The tag of a value.
pub open spec fn tag_of(d: Data) -> Type {
    match d {
        Data::NULL => Type::NULL,
        Data::STRING(_) => Type::STRING,
        Data::NUMBER(_) => Type::NUMBER,
        Data::ARRAY(_) => Type::ARRAY,
        Data::BOOLEAN(_) => Type::BOOLEAN,
        Data::JSON(_) => Type::JSON,
        Data::STRINGNULL(_) => Type::STRINGNULL,
        Data::NUMBERNULL(_) => Type::NUMBERNULL,
        Data::ARRAYNULL(_) => Type::ARRAYNULL,
        Data::BOOLEANNULL(_) => Type::BOOLEANNULL,
        Data::JSONNULL(_) => Type::JSONNULL,
    }
}

/// The tag of a value.
pub fn data_type(x: &Data) -> (r: Type)
    ensures
        r == tag_of(*x),
{
    match x {
        Data::NULL => Type::NULL,
        Data::STRING(_) => Type::STRING,
        Data::NUMBER(_) => Type::NUMBER,
        Data::ARRAY(_) => Type::ARRAY,
        Data::BOOLEAN(_) => Type::BOOLEAN,
        Data::JSON(_) => Type::JSON,
        Data::STRINGNULL(_) => Type::STRINGNULL,
        Data::NUMBERNULL(_) => Type::NUMBERNULL,
        Data::ARRAYNULL(_) => Type::ARRAYNULL,
        Data::BOOLEANNULL(_) => Type::BOOLEANNULL,
        Data::JSONNULL(_) => Type::JSONNULL,
    }
}

/// Whether a value carries the given tag.
pub fn data_eq_type(x: &Data, y: &Type) -> (r: bool)
    ensures
        r == (tag_of(*x) == *y),
{
    data_type(x) == *y
}

/// Whether two values carry the same tag.
pub fn data_eq(x: &Data, y: &Data) -> (r: bool)
    ensures
        r == (tag_of(*x) == tag_of(*y)),
{
    data_type(x) == data_type(y)
}

pub const SIGN_BIT: u64 = 0x8000_0000_0000_0000;

pub const INFINITY_BITS: u64 = 0x7FF0_0000_0000_0000;

/// Whether a binary64 bit pattern is a NaN.
pub open spec fn num_is_nan(b: u64) -> bool {
    (b as int) % (SIGN_BIT as int) > INFINITY_BITS as int
}

/// The position of a non-NaN binary64 value on the integer line: it orders
/// as the real values do, and both zeros map to 0.
pub open spec fn num_key(b: u64) -> int {
    if b >= SIGN_BIT {
        -((b as int) - (SIGN_BIT as int))
    } else {
        b as int
    }
}

/// Three-way comparison of two integers.
pub open spec fn int_cmp(a: int, b: int) -> std::cmp::Ordering {
    if a < b {
        std::cmp::Ordering::Less
    } else if a == b {
        std::cmp::Ordering::Equal
    } else {
        std::cmp::Ordering::Greater
    }
}

/// Numeric comparison of two binary64 values: NaN is unordered.
pub open spec fn num_cmp(a: u64, b: u64) -> Option<std::cmp::Ordering> {
    if num_is_nan(a) || num_is_nan(b) {
        None
    } else {
        Some(int_cmp(num_key(a), num_key(b)))
    }
}

/// Lexicographic order on texts, by code point.
pub open spec fn text_lt(a: Seq<char>, b: Seq<char>) -> bool {
    exists|i: int|
        #![trigger a.subrange(0, i)]
        0 <= i <= a.len() && i <= b.len() && a.subrange(0, i) == b.subrange(0, i) && (
        (i == a.len() && i < b.len()) || (i < a.len() && i < b.len() && a[i] < b[i]))
}

/// Three-way lexicographic comparison of texts.
pub open spec fn text_cmp(a: Seq<char>, b: Seq<char>) -> std::cmp::Ordering {
    if a == b {
        std::cmp::Ordering::Equal
    } else if text_lt(a, b) {
        std::cmp::Ordering::Less
    } else {
        std::cmp::Ordering::Greater
    }
}

/// Comparison of two truth values, false before true.
pub open spec fn bool_cmp(a: bool, b: bool) -> std::cmp::Ordering {
    if a == b {
        std::cmp::Ordering::Equal
    } else if !a {
        std::cmp::Ordering::Less
    } else {
        std::cmp::Ordering::Greater
    }
}

/// Equality of values: the same tag and equal payloads. Numbers compare as
/// binary64 values do (NaN equals nothing, both zeros are equal).
pub open spec fn data_equal(a: Data, b: Data) -> bool
    decreases a,
{
    match (a, b) {
        (Data::NULL, Data::NULL) => true,
        (Data::STRING(x), Data::STRING(y)) => x@ == y@,
        (Data::NUMBER(x), Data::NUMBER(y)) => num_cmp(x, y) == Some(std::cmp::Ordering::Equal),
        (Data::ARRAY(x), Data::ARRAY(y)) => x.len() == y.len() && forall|i: int|
            0 <= i < x.len() ==> data_equal(#[trigger] x[i], y[i]),
        (Data::BOOLEAN(x), Data::BOOLEAN(y)) => x == y,
        (Data::JSON(x), Data::JSON(y)) => x@ == y@,
        (Data::STRINGNULL(x), Data::STRINGNULL(y)) => match (x, y) {
            (None, None) => true,
            (Some(p), Some(q)) => p@ == q@,
            _ => false,
        },
        (Data::NUMBERNULL(x), Data::NUMBERNULL(y)) => match (x, y) {
            (None, None) => true,
            (Some(p), Some(q)) => num_cmp(p, q) == Some(std::cmp::Ordering::Equal),
            _ => false,
        },
        (Data::ARRAYNULL(x), Data::ARRAYNULL(y)) => match (x, y) {
            (None, None) => true,
            (Some(p), Some(q)) => p.len() == q.len() && forall|i: int|
                0 <= i < p.len() ==> data_equal(#[trigger] p[i], q[i]),
            _ => false,
        },
        (Data::BOOLEANNULL(x), Data::BOOLEANNULL(y)) => x == y,
        (Data::JSONNULL(x), Data::JSONNULL(y)) => match (x, y) {
            (None, None) => true,
            (Some(p), Some(q)) => p@ == q@,
            _ => false,
        },
        _ => false,
    }
}


/// Numeric comparison of two binary64 bit patterns.
pub fn num_compare(a: u64, b: u64) -> (r: Option<std::cmp::Ordering>)
    ensures
        r == num_cmp(a, b),
{
    if a % SIGN_BIT > INFINITY_BITS || b % SIGN_BIT > INFINITY_BITS {
        return None;
    }
    let ka: i128 = if a >= SIGN_BIT {
        -((a - SIGN_BIT) as i128)
    } else {
        a as i128
    };
    let kb: i128 = if b >= SIGN_BIT {
        -((b - SIGN_BIT) as i128)
    } else {
        b as i128
    };
    if ka < kb {
        Some(std::cmp::Ordering::Less)
    } else if ka == kb {
        Some(std::cmp::Ordering::Equal)
    } else {
        Some(std::cmp::Ordering::Greater)
    }
}

/// Lexicographic comparison of two texts, by code point.
pub fn text_compare(a: &str, b: &str) -> (r: std::cmp::Ordering)
    ensures
        r == text_cmp(a@, b@),
{
    let na = a.unicode_len();
    let nb = b.unicode_len();
    let mut i: usize = 0;
    while i < na && i < nb
        invariant
            na == a@.len(),
            nb == b@.len(),
            0 <= i <= na,
            i <= nb,
            a@.subrange(0, i as int) == b@.subrange(0, i as int),
        decreases na - i,
    {
        let ca = a.get_char(i);
        let cb = b.get_char(i);
        if ca != cb {
            assert(a@ != b@) by {
                assert(a@[i as int] != b@[i as int]);
            };
            if ca < cb {
                assert(text_lt(a@, b@)) by {
                    assert(a@.subrange(0, i as int) == b@.subrange(0, i as int));
                };
                return std::cmp::Ordering::Less;
            } else {
                assert(!text_lt(a@, b@)) by {
                    assert forall|j: int|
                        0 <= j <= a@.len() && j <= b@.len() && #[trigger] a@.subrange(0, j)
                            == b@.subrange(0, j) implies !((j == a@.len() && j < b@.len()) || (j
                        < a@.len() && j < b@.len() && a@[j] < b@[j])) by {
                        if j > i {
                            assert(a@.subrange(0, j)[i as int] == b@.subrange(0, j)[i as int]);
                        } else if j < i {
                            assert(a@.subrange(0, i as int)[j] == b@.subrange(0, i as int)[j]);
                        }
                    };
                };
                return std::cmp::Ordering::Greater;
            }
        }
        assert(a@.subrange(0, i + 1) == a@.subrange(0, i as int).push(a@[i as int]));
        assert(b@.subrange(0, i + 1) == b@.subrange(0, i as int).push(b@[i as int]));
        i = i + 1;
    }
    if i == na && i == nb {
        assert(a@ == a@.subrange(0, na as int));
        assert(b@ == b@.subrange(0, nb as int));
        std::cmp::Ordering::Equal
    } else if i == na {
        assert(a@ != b@) by {
            assert(a@.len() != b@.len());
        };
        assert(text_lt(a@, b@)) by {
            assert(a@.subrange(0, i as int) == b@.subrange(0, i as int));
        };
        std::cmp::Ordering::Less
    } else {
        assert(a@ != b@) by {
            assert(a@.len() != b@.len());
        };
        assert(!text_lt(a@, b@)) by {
            assert forall|j: int|
                0 <= j <= a@.len() && j <= b@.len() && #[trigger] a@.subrange(0, j)
                    == b@.subrange(0, j) implies !((j == a@.len() && j < b@.len()) || (j
                < a@.len() && j < b@.len() && a@[j] < b@[j])) by {
                if j < i {
                    assert(a@.subrange(0, i as int)[j] == b@.subrange(0, i as int)[j]);
                }
            };
        };
        std::cmp::Ordering::Greater
    }
}


/// Equality of two values, as `data_equal` states it.
pub fn eq_data(a: &Data, b: &Data) -> (r: bool)
    ensures
        r == data_equal(*a, *b),
    decreases *a,
{
    match (a, b) {
        (Data::NULL, Data::NULL) => true,
        (Data::STRING(x), Data::STRING(y)) => str_eq(x.as_str(), y.as_str()),
        (Data::NUMBER(x), Data::NUMBER(y)) => matches!(num_compare(*x, *y), Some(std::cmp::Ordering::Equal)),
        (Data::ARRAY(x), Data::ARRAY(y)) => eq_list(x, y),
        (Data::BOOLEAN(x), Data::BOOLEAN(y)) => *x == *y,
        (Data::JSON(x), Data::JSON(y)) => str_eq(x.as_str(), y.as_str()),
        (Data::STRINGNULL(x), Data::STRINGNULL(y)) => match (x, y) {
            (None, None) => true,
            (Some(p), Some(q)) => str_eq(p.as_str(), q.as_str()),
            _ => false,
        },
        (Data::NUMBERNULL(x), Data::NUMBERNULL(y)) => match (x, y) {
            (None, None) => true,
            (Some(p), Some(q)) => matches!(num_compare(*p, *q), Some(std::cmp::Ordering::Equal)),
            _ => false,
        },
        (Data::ARRAYNULL(x), Data::ARRAYNULL(y)) => match (x, y) {
            (None, None) => true,
            (Some(p), Some(q)) => eq_list(p, q),
            _ => false,
        },
        (Data::BOOLEANNULL(x), Data::BOOLEANNULL(y)) => match (x, y) {
            (None, None) => true,
            (Some(p), Some(q)) => *p == *q,
            _ => false,
        },
        (Data::JSONNULL(x), Data::JSONNULL(y)) => match (x, y) {
            (None, None) => true,
            (Some(p), Some(q)) => str_eq(p.as_str(), q.as_str()),
            _ => false,
        },
        _ => false,
    }
}

/// Element-wise equality of two lists of values.
fn eq_list(x: &Vec<Data>, y: &Vec<Data>) -> (r: bool)
    ensures
        r == (x.len() == y.len() && forall|i: int|
            0 <= i < x.len() ==> data_equal(#[trigger] x[i], y[i])),
    decreases *x,
{
    if x.len() != y.len() {
        return false;
    }
    let mut i: usize = 0;
    while i < x.len()
        invariant
            x.len() == y.len(),
            0 <= i <= x.len(),
            forall|k: int| 0 <= k < i ==> data_equal(#[trigger] x[k], y[k]),
        decreases x.len() - i,
    {
        proof {
            vstd::std_specs::vec::axiom_vec_index_decreases(*x, i as int);
        }
        if !eq_data(&x[i], &y[i]) {
            return false;
        }
        i = i + 1;
    }
    true
}

/// Identity of values up to the contents of their lists: what a copy keeps.
pub open spec fn data_same(a: Data, b: Data) -> bool
    decreases a,
{
    match (a, b) {
        (Data::ARRAY(x), Data::ARRAY(y)) => x.len() == y.len() && forall|i: int|
            0 <= i < x.len() ==> data_same(#[trigger] x[i], y[i]),
        (Data::ARRAYNULL(Some(x)), Data::ARRAYNULL(Some(y))) => x.len() == y.len() && forall|
            i: int,
        |
            0 <= i < x.len() ==> data_same(#[trigger] x[i], y[i]),
        (Data::ARRAY(_), _) => false,
        (Data::ARRAYNULL(Some(_)), _) => false,
        _ => a == b,
    }
}

/// A copy of a value.
pub fn copy_data(d: &Data) -> (r: Data)
    ensures
        data_same(r, *d),
    decreases *d,
{
    match d {
        Data::NULL => Data::NULL,
        Data::STRING(x) => Data::STRING(x.clone()),
        Data::NUMBER(x) => Data::NUMBER(*x),
        Data::ARRAY(x) => Data::ARRAY(copy_list(x)),
        Data::BOOLEAN(x) => Data::BOOLEAN(*x),
        Data::JSON(x) => Data::JSON(x.clone()),
        Data::STRINGNULL(x) => Data::STRINGNULL(
            match x {
                None => None,
                Some(p) => Some(p.clone()),
            },
        ),
        Data::NUMBERNULL(x) => Data::NUMBERNULL(*x),
        Data::ARRAYNULL(x) => Data::ARRAYNULL(
            match x {
                None => None,
                Some(p) => Some(copy_list(p)),
            },
        ),
        Data::BOOLEANNULL(x) => Data::BOOLEANNULL(*x),
        Data::JSONNULL(x) => Data::JSONNULL(
            match x {
                None => None,
                Some(p) => Some(p.clone()),
            },
        ),
    }
}

/// A copy of a list of values.
fn copy_list(x: &Vec<Data>) -> (r: Vec<Data>)
    ensures
        r.len() == x.len(),
        forall|i: int| 0 <= i < x.len() ==> data_same(#[trigger] r[i], x[i]),
    decreases *x,
{
    let mut out: Vec<Data> = Vec::new();
    let mut i: usize = 0;
    while i < x.len()
        invariant
            0 <= i <= x.len(),
            out.len() == i,
            forall|k: int| 0 <= k < i ==> data_same(#[trigger] out[k], x[k]),
        decreases x.len() - i,
    {
        proof {
            vstd::std_specs::vec::axiom_vec_index_decreases(*x, i as int);
        }
        out.push(copy_data(&x[i]));
        i = i + 1;
    }
    out
}

impl Clone for Data {
    fn clone(&self) -> (r: Self)
        ensures
            data_same(r, *self),
    {
        copy_data(self)
    }
}


/// Comparison of optional payloads: an absent payload comes first.
pub open spec fn opt_cmp<T>(
    x: Option<T>,
    y: Option<T>,
    f: spec_fn(T, T) -> Option<std::cmp::Ordering>,
) -> Option<std::cmp::Ordering> {
    match (x, y) {
        (None, None) => Some(std::cmp::Ordering::Equal),
        (None, Some(_)) => Some(std::cmp::Ordering::Less),
        (Some(_), None) => Some(std::cmp::Ordering::Greater),
        (Some(p), Some(q)) => f(p, q),
    }
}

/// The order between two values. It is defined only between values of the
/// same tag: texts are ordered lexicographically, numbers numerically,
/// `false` before `true`, and two nulls are equal. Lists are only ever equal
/// or unordered.
pub open spec fn data_order(a: Data, b: Data) -> Option<std::cmp::Ordering> {
    match (a, b) {
        (Data::NULL, Data::NULL) => Some(std::cmp::Ordering::Equal),
        (Data::STRING(x), Data::STRING(y)) => Some(text_cmp(x@, y@)),
        (Data::NUMBER(x), Data::NUMBER(y)) => num_cmp(x, y),
        (Data::BOOLEAN(x), Data::BOOLEAN(y)) => Some(bool_cmp(x, y)),
        (Data::JSON(x), Data::JSON(y)) => Some(text_cmp(x@, y@)),
        (Data::STRINGNULL(x), Data::STRINGNULL(y)) => opt_cmp(
            x,
            y,
            |p: String, q: String| Some(text_cmp(p@, q@)),
        ),
        (Data::NUMBERNULL(x), Data::NUMBERNULL(y)) => opt_cmp(
            x,
            y,
            |p: u64, q: u64| num_cmp(p, q),
        ),
        (Data::BOOLEANNULL(x), Data::BOOLEANNULL(y)) => opt_cmp(
            x,
            y,
            |p: bool, q: bool| Some(bool_cmp(p, q)),
        ),
        (Data::JSONNULL(x), Data::JSONNULL(y)) => opt_cmp(
            x,
            y,
            |p: String, q: String| Some(text_cmp(p@, q@)),
        ),
        (Data::ARRAY(_), Data::ARRAY(_)) | (Data::ARRAYNULL(_), Data::ARRAYNULL(_)) => if data_equal(
            a,
            b,
        ) {
            Some(std::cmp::Ordering::Equal)
        } else {
            None
        },
        _ => None,
    }
}

fn bool_compare(a: bool, b: bool) -> (r: std::cmp::Ordering)
    ensures
        r == bool_cmp(a, b),
{
    if a == b {
        std::cmp::Ordering::Equal
    } else if !a {
        std::cmp::Ordering::Less
    } else {
        std::cmp::Ordering::Greater
    }
}

fn absent_first<T>(x: &Option<T>, y: &Option<T>) -> (r: Option<std::cmp::Ordering>)
    ensures
        x is Some && y is Some ==> r is None,
        !(x is Some && y is Some) ==> r == opt_cmp(*x, *y, |p: T, q: T| None),
{
    match (x, y) {
        (None, None) => Some(std::cmp::Ordering::Equal),
        (None, Some(_)) => Some(std::cmp::Ordering::Less),
        (Some(_), None) => Some(std::cmp::Ordering::Greater),
        (Some(_), Some(_)) => None,
    }
}

/// The order between two values, as `data_order` states it.
pub fn data_compare(a: &Data, b: &Data) -> (r: Option<std::cmp::Ordering>)
    ensures
        r == data_order(*a, *b),
{
    match (a, b) {
        (Data::NULL, Data::NULL) => Some(std::cmp::Ordering::Equal),
        (Data::STRING(x), Data::STRING(y)) => Some(text_compare(x.as_str(), y.as_str())),
        (Data::NUMBER(x), Data::NUMBER(y)) => num_compare(*x, *y),
        (Data::BOOLEAN(x), Data::BOOLEAN(y)) => Some(bool_compare(*x, *y)),
        (Data::JSON(x), Data::JSON(y)) => Some(text_compare(x.as_str(), y.as_str())),
        (Data::STRINGNULL(x), Data::STRINGNULL(y)) => match (x, y) {
            (Some(p), Some(q)) => Some(text_compare(p.as_str(), q.as_str())),
            _ => absent_first(x, y),
        },
        (Data::NUMBERNULL(x), Data::NUMBERNULL(y)) => match (x, y) {
            (Some(p), Some(q)) => num_compare(*p, *q),
            _ => absent_first(x, y),
        },
        (Data::BOOLEANNULL(x), Data::BOOLEANNULL(y)) => match (x, y) {
            (Some(p), Some(q)) => Some(bool_compare(*p, *q)),
            _ => absent_first(x, y),
        },
        (Data::JSONNULL(x), Data::JSONNULL(y)) => match (x, y) {
            (Some(p), Some(q)) => Some(text_compare(p.as_str(), q.as_str())),
            _ => absent_first(x, y),
        },
        (Data::ARRAY(_), Data::ARRAY(_)) | (Data::ARRAYNULL(_), Data::ARRAYNULL(_)) => {
            if eq_data(a, b) {
                Some(std::cmp::Ordering::Equal)
            } else {
                None
            }
        },
        _ => None,
    }
}

impl Data {
    /// The text of a STRING value.
    pub fn get_string(self) -> (r: Option<String>)
        ensures
            r == (match self {
                Data::STRING(x) => Some(x),
                _ => None,
            }),
    {
        match self {
            Data::STRING(x) => Some(x),
            _ => None,
        }
    }

    /// The bit pattern of a NUMBER value.
    pub fn get_number(self) -> (r: Option<u64>)
        ensures
            r == (match self {
                Data::NUMBER(x) => Some(x),
                _ => None,
            }),
    {
        match self {
            Data::NUMBER(x) => Some(x),
            _ => None,
        }
    }

    /// The items of an ARRAY value.
    pub fn get_array(self) -> (r: Option<Vec<Data>>)
        ensures
            r == (match self {
                Data::ARRAY(x) => Some(x),
                _ => None,
            }),
    {
        match self {
            Data::ARRAY(x) => Some(x),
            _ => None,
        }
    }

    /// The truth value of a BOOLEAN value.
    pub fn get_boolean(self) -> (r: Option<bool>)
        ensures
            r == (match self {
                Data::BOOLEAN(x) => Some(x),
                _ => None,
            }),
    {
        match self {
            Data::BOOLEAN(x) => Some(x),
            _ => None,
        }
    }

    /// The raw text of a JSON value.
    pub fn get_json(self) -> (r: Option<String>)
        ensures
            r == (match self {
                Data::JSON(x) => Some(x),
                _ => None,
            }),
    {
        match self {
            Data::JSON(x) => Some(x),
            _ => None,
        }
    }

    /// The payload of a STRINGNULL value.
    pub fn get_stringnull(self) -> (r: Option<Option<String>>)
        ensures
            r == (match self {
                Data::STRINGNULL(x) => Some(x),
                _ => None,
            }),
    {
        match self {
            Data::STRINGNULL(x) => Some(x),
            _ => None,
        }
    }

    /// The payload of a NUMBERNULL value.
    pub fn get_numbernull(self) -> (r: Option<Option<u64>>)
        ensures
            r == (match self {
                Data::NUMBERNULL(x) => Some(x),
                _ => None,
            }),
    {
        match self {
            Data::NUMBERNULL(x) => Some(x),
            _ => None,
        }
    }

    /// The payload of an ARRAYNULL value.
    pub fn get_arraynull(self) -> (r: Option<Option<Vec<Data>>>)
        ensures
            r == (match self {
                Data::ARRAYNULL(x) => Some(x),
                _ => None,
            }),
    {
        match self {
            Data::ARRAYNULL(x) => Some(x),
            _ => None,
        }
    }

    /// The payload of a BOOLEANNULL value.
    pub fn get_booleannull(self) -> (r: Option<Option<bool>>)
        ensures
            r == (match self {
                Data::BOOLEANNULL(x) => Some(x),
                _ => None,
            }),
    {
        match self {
            Data::BOOLEANNULL(x) => Some(x),
            _ => None,
        }
    }

    /// The payload of a JSONNULL value.
    pub fn get_jsonnull(self) -> (r: Option<Option<String>>)
        ensures
            r == (match self {
                Data::JSONNULL(x) => Some(x),
                _ => None,
            }),
    {
        match self {
            Data::JSONNULL(x) => Some(x),
            _ => None,
        }
    }
}

/// A comparison operator of the storage layer.
#[derive(Clone, Copy, Debug)]
pub enum CMP {
    EQUAL,
    LESS,
    LESSEQ,
    GREATER,
    GTEQ,
}

/// Whether `x` stands in relation `c` to `y`.
pub open spec fn cmp_holds(c: CMP, x: Data, y: Data) -> bool {
    match c {
        CMP::EQUAL => data_equal(x, y),
        CMP::LESS => data_order(x, y) == Some(std::cmp::Ordering::Less),
        CMP::LESSEQ => data_order(x, y) == Some(std::cmp::Ordering::Less) || data_order(x, y)
            == Some(std::cmp::Ordering::Equal),
        CMP::GREATER => data_order(x, y) == Some(std::cmp::Ordering::Greater),
        CMP::GTEQ => data_order(x, y) == Some(std::cmp::Ordering::Greater) || data_order(x, y)
            == Some(std::cmp::Ordering::Equal),
    }
}

impl CMP {
    /// Whether `x` stands in this relation to `y`.
    pub fn calculate(self, x: Data, y: Data) -> (r: bool)
        ensures
            r == cmp_holds(self, x, y),
    {
        self.holds(&x, &y)
    }

    /// Whether `x` stands in this relation to `y`, on borrowed values.
    pub fn holds(&self, x: &Data, y: &Data) -> (r: bool)
        ensures
            r == cmp_holds(*self, *x, *y),
    {
        match self {
            CMP::EQUAL => eq_data(x, y),
            CMP::LESS => matches!(data_compare(x, y), Some(std::cmp::Ordering::Less)),
            CMP::LESSEQ => matches!(
                data_compare(x, y),
                Some(std::cmp::Ordering::Less) | Some(std::cmp::Ordering::Equal)
            ),
            CMP::GREATER => matches!(data_compare(x, y), Some(std::cmp::Ordering::Greater)),
            CMP::GTEQ => matches!(
                data_compare(x, y),
                Some(std::cmp::Ordering::Greater) | Some(std::cmp::Ordering::Equal)
            ),
        }
    }
}


/// No text comes before itself.
pub proof fn lemma_text_lt_irreflexive(a: Seq<char>)
    ensures
        !text_lt(a, a),
{
}

/// The order on texts is transitive.
pub proof fn lemma_text_lt_transitive(a: Seq<char>, b: Seq<char>, c: Seq<char>)
    requires
        text_lt(a, b),
        text_lt(b, c),
    ensures
        text_lt(a, c),
{
    let i = choose|i: int|
        #![trigger a.subrange(0, i)]
        0 <= i <= a.len() && i <= b.len() && a.subrange(0, i) == b.subrange(0, i) && (
        (i == a.len() && i < b.len()) || (i < a.len() && i < b.len() && a[i] < b[i]));
    let j = choose|j: int|
        #![trigger b.subrange(0, j)]
        0 <= j <= b.len() && j <= c.len() && b.subrange(0, j) == c.subrange(0, j) && (
        (j == b.len() && j < c.len()) || (j < b.len() && j < c.len() && b[j] < c[j]));
    if i < j {
        assert(b.subrange(0, i) == b.subrange(0, j).subrange(0, i));
        assert(c.subrange(0, i) == c.subrange(0, j).subrange(0, i));
        assert(b[i] == b.subrange(0, j)[i]);
        assert(c[i] == c.subrange(0, j)[i]);
        assert(a.subrange(0, i) == c.subrange(0, i));
    } else if j < i {
        assert(a.subrange(0, j) == a.subrange(0, i).subrange(0, j));
        assert(b.subrange(0, j) == b.subrange(0, i).subrange(0, j));
        assert(a[j] == a.subrange(0, i)[j]);
        assert(b[j] == b.subrange(0, i)[j]);
        assert(a.subrange(0, j) == c.subrange(0, j));
    } else {
        assert(a.subrange(0, i) == c.subrange(0, i));
    }
}

/// A common prefix of two texts, followed as far as they agree.
proof fn lemma_first_difference(a: Seq<char>, b: Seq<char>, k: int) -> (d: int)
    requires
        0 <= k <= a.len(),
        k <= b.len(),
        a.subrange(0, k) == b.subrange(0, k),
    ensures
        k <= d <= a.len(),
        d <= b.len(),
        a.subrange(0, d) == b.subrange(0, d),
        d == a.len() || d == b.len() || a[d] != b[d],
    decreases a.len() - k,
{
    if k == a.len() || k == b.len() || a[k] != b[k] {
        k
    } else {
        assert(a.subrange(0, k + 1) == a.subrange(0, k).push(a[k]));
        assert(b.subrange(0, k + 1) == b.subrange(0, k).push(b[k]));
        lemma_first_difference(a, b, k + 1)
    }
}

/// Two different texts are ordered one way or the other.
pub proof fn lemma_text_lt_total(a: Seq<char>, b: Seq<char>)
    requires
        a != b,
    ensures
        text_lt(a, b) || text_lt(b, a),
{
    assert(a.subrange(0, 0) == b.subrange(0, 0));
    let d = lemma_first_difference(a, b, 0);
    if d == a.len() && d == b.len() {
        assert(a == a.subrange(0, d));
        assert(b == b.subrange(0, d));
    } else if d == a.len() {
        assert(text_lt(a, b));
    } else if d == b.len() {
        assert(b.subrange(0, d) == a.subrange(0, d));
        assert(text_lt(b, a));
    } else {
        if a[d] < b[d] {
            assert(text_lt(a, b));
        } else {
            assert(b[d] < a[d]);
            assert(b.subrange(0, d) == a.subrange(0, d));
            assert(text_lt(b, a));
        }
    }
}

} // verus!
