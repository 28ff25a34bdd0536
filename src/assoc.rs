//! Lists of `(name, value)` entries with distinct names, read as maps.
use vstd::prelude::*;

verus! {

/// No two entries share a name.
pub open spec fn keys_unique<V>(s: Seq<(String, V)>) -> bool {
    forall|i: int, j: int|
        0 <= i < s.len() && 0 <= j < s.len() && #[trigger] s[i].0@ == #[trigger] s[j].0@ ==> i
            == j
}

/// Whether some entry carries the name `k`.
pub open spec fn has_key<V>(s: Seq<(String, V)>, k: Seq<char>) -> bool {
    exists|i: int| 0 <= i < s.len() && #[trigger] s[i].0@ == k
}

/// The map from names to values that a list stands for; a later entry
/// wins over an earlier one of the same name.
pub open spec fn to_map<V>(s: Seq<(String, V)>) -> Map<Seq<char>, V>
    decreases s.len(),
{
    if s.len() == 0 {
        Map::empty()
    } else {
        to_map(s.drop_last()).insert(s.last().0@, s.last().1)
    }
}

/// The names of a list are the domain of its map.
pub proof fn lemma_dom<V>(s: Seq<(String, V)>)
    ensures
        forall|k: Seq<char>| #[trigger] to_map(s).contains_key(k) <==> has_key(s, k),
    decreases s.len(),
{
    if s.len() > 0 {
        let t = s.drop_last();
        lemma_dom(t);
        assert(to_map(s) == to_map(t).insert(s.last().0@, s.last().1));
        assert(t.len() == s.len() - 1);
        assert(s.last() == s[s.len() - 1]);
        assert forall|k: Seq<char>| #[trigger] to_map(s).contains_key(k) <==> has_key(s, k) by {
            let n = s.len() - 1;
            if has_key(s, k) {
                let i = choose|i: int| 0 <= i < s.len() && #[trigger] s[i].0@ == k;
                if i < n {
                    assert(t[i] == s[i]);
                    assert(has_key(t, k));
                }
            }
            if to_map(s).contains_key(k) {
                if k == s[n].0@ {
                    assert(has_key(s, k));
                } else {
                    assert(has_key(t, k));
                    let i = choose|i: int| 0 <= i < t.len() && #[trigger] t[i].0@ == k;
                    assert(t[i] == s[i]);
                    assert(has_key(s, k));
                }
            }
        };
    }
}

/// Every value of the map is the value of an entry of that name.
pub proof fn lemma_values<V>(s: Seq<(String, V)>)
    ensures
        forall|k: Seq<char>| #[trigger] to_map(s).contains_key(k) ==> exists|j: int|
            0 <= j < s.len() && s[j].0@ == k && #[trigger] s[j].1 == to_map(s)[k],
    decreases s.len(),
{
    if s.len() > 0 {
        let t = s.drop_last();
        lemma_values(t);
        assert(to_map(s) == to_map(t).insert(s.last().0@, s.last().1));
        assert forall|k: Seq<char>| #[trigger] to_map(s).contains_key(k) implies exists|j: int|
            0 <= j < s.len() && s[j].0@ == k && #[trigger] s[j].1 == to_map(s)[k] by {
            if k == s.last().0@ {
                assert(s[s.len() - 1].1 == to_map(s)[k]);
            } else {
                let j = choose|j: int| 0 <= j < t.len() && t[j].0@ == k && #[trigger] t[j].1 == to_map(t)[k];
                assert(s[j] == t[j]);
            }
        };
    }
}

/// With distinct names, each entry's value is what the map gives for its name.
pub proof fn lemma_at<V>(s: Seq<(String, V)>, i: int)
    requires
        keys_unique(s),
        0 <= i < s.len(),
    ensures
        to_map(s).contains_key(s[i].0@),
        to_map(s)[s[i].0@] == s[i].1,
    decreases s.len(),
{
    let t = s.drop_last();
    if i < s.len() - 1 {
        assert(t[i] == s[i]);
        assert(keys_unique(t)) by {
            assert forall|a: int, b: int|
                0 <= a < t.len() && 0 <= b < t.len() && #[trigger] t[a].0@ == #[trigger] t[b].0@
                implies a == b by {
                assert(t[a] == s[a] && t[b] == s[b]);
            };
        };
        lemma_at(t, i);
        assert(s.last().0@ != s[i].0@);
    }
}

/// Both facts of `lemma_at`, for every entry at once, and the domain.
pub proof fn lemma_map<V>(s: Seq<(String, V)>)
    requires
        keys_unique(s),
    ensures
        forall|k: Seq<char>| #[trigger] to_map(s).contains_key(k) <==> has_key(s, k),
        forall|i: int| 0 <= i < s.len() ==> #[trigger] to_map(s)[s[i].0@] == s[i].1,
{
    lemma_dom(s);
    assert forall|i: int| 0 <= i < s.len() implies #[trigger] to_map(s)[s[i].0@] == s[i].1 by {
        lemma_at(s, i);
    };
}

/// Two lists with distinct names and the same names and values stand for
/// the same map.
pub proof fn lemma_same_map<V>(s: Seq<(String, V)>, m: Map<Seq<char>, V>)
    requires
        keys_unique(s),
        forall|k: Seq<char>| #[trigger] m.contains_key(k) <==> has_key(s, k),
        forall|i: int| 0 <= i < s.len() ==> m[#[trigger] s[i].0@] == s[i].1,
    ensures
        to_map(s) == m,
{
    lemma_map(s);
    assert forall|k: Seq<char>| #[trigger] to_map(s).contains_key(k) implies to_map(s)[k]
        == m[k] by {
        let i = choose|i: int| 0 <= i < s.len() && #[trigger] s[i].0@ == k;
    };
    assert(to_map(s) =~= m);
}

/// The position of the entry named `k`, if there is one.
pub fn find_key<V>(v: &Vec<(String, V)>, k: &str) -> (r: Option<usize>)
    ensures
        r matches Some(i) ==> i < v@.len() && v@[i as int].0@ == k@,
        r is None ==> !has_key(v@, k@),
{
    let mut i: usize = 0;
    while i < v.len()
        invariant
            0 <= i <= v@.len(),
            forall|j: int| 0 <= j < i ==> #[trigger] v@[j].0@ != k@,
        decreases v.len() - i,
    {
        if crate::value::str_eq(v[i].0.as_str(), k) {
            return Some(i);
        }
        i = i + 1;
    }
    None
}

/// Sets the value of the entry named `k`, adding an entry where none has
/// that name.
pub fn put<V>(v: &mut Vec<(String, V)>, k: String, x: V)
    requires
        keys_unique(old(v)@),
    ensures
        keys_unique(final(v)@),
        to_map(final(v)@) == to_map(old(v)@).insert(k@, x),
        forall|j: int|
            0 <= j < final(v)@.len() ==> #[trigger] final(v)@[j].1 == x || exists|i: int|
                0 <= i < old(v)@.len() && final(v)@[j] == old(v)@[i],
{
    let ghost k0 = k@;
    let ghost x0 = x;
    proof {
        lemma_map(v@);
    }
    match find_key(v, k.as_str()) {
        Some(i) => {
            v.set(i, (k, x));
            proof {
                assert(keys_unique(v@)) by {
                    assert forall|a: int, b: int|
                        0 <= a < v@.len() && 0 <= b < v@.len() && #[trigger] v@[a].0@
                            == #[trigger] v@[b].0@ implies a == b by {
                        assert(v@[a].0@ == old(v)@[a].0@);
                        assert(v@[b].0@ == old(v)@[b].0@);
                    };
                };
                let m = to_map(old(v)@).insert(k0, x0);
                assert forall|key: Seq<char>| #[trigger] m.contains_key(key) <==> has_key(
                    v@,
                    key,
                ) by {
                    if has_key(old(v)@, key) {
                        let j = choose|j: int| 0 <= j < old(v)@.len() && #[trigger] old(v)@[j].0@
                            == key;
                        assert(v@[j].0@ == key);
                    }
                    if has_key(v@, key) {
                        let j = choose|j: int| 0 <= j < v@.len() && #[trigger] v@[j].0@ == key;
                        assert(old(v)@[j].0@ == key);
                    }
                };
                assert forall|j: int| 0 <= j < v@.len() implies m[#[trigger] v@[j].0@]
                    == v@[j].1 by {
                    if j != i {
                        assert(v@[j] == old(v)@[j]);
                    }
                };
                lemma_same_map(v@, m);
                assert forall|j: int| 0 <= j < v@.len() implies #[trigger] v@[j].1 == x0 || exists|i0: int|
                    0 <= i0 < old(v)@.len() && v@[j] == old(v)@[i0] by {
                    if j != i {
                        assert(v@[j] == old(v)@[j]);
                    }
                };
            }
        },
        None => {
            v.push((k, x));
            proof {
                assert(v@.drop_last() == old(v)@);
                assert(keys_unique(v@)) by {
                    assert forall|a: int, b: int|
                        0 <= a < v@.len() && 0 <= b < v@.len() && #[trigger] v@[a].0@
                            == #[trigger] v@[b].0@ implies a == b by {
                        if a < old(v)@.len() {
                            assert(v@[a] == old(v)@[a]);
                        }
                        if b < old(v)@.len() {
                            assert(v@[b] == old(v)@[b]);
                        }
                    };
                };
                assert forall|j: int| 0 <= j < v@.len() implies #[trigger] v@[j].1 == x0 || exists|i0: int|
                    0 <= i0 < old(v)@.len() && v@[j] == old(v)@[i0] by {
                    if j < old(v)@.len() {
                        assert(v@[j] == old(v)@[j]);
                    }
                };
            }
        },
    }
}

/// Removes the entry named `k` and hands back its value.
pub fn take<V>(v: &mut Vec<(String, V)>, k: &str) -> (r: Option<V>)
    requires
        keys_unique(old(v)@),
    ensures
        keys_unique(final(v)@),
        to_map(final(v)@) == to_map(old(v)@).remove(k@),
        r is None <==> !to_map(old(v)@).contains_key(k@),
        r matches Some(x) ==> x == to_map(old(v)@)[k@],
        forall|j: int|
            0 <= j < final(v)@.len() ==> exists|i: int|
                0 <= i < old(v)@.len() && #[trigger] final(v)@[j] == old(v)@[i],
{
    proof {
        lemma_map(v@);
    }
    match find_key(v, k) {
        Some(i) => {
            let (_, x) = v.remove(i);
            proof {
                assert forall|j: int| 0 <= j < v@.len() implies #[trigger] v@[j] == (if j < i {
                    old(v)@[j]
                } else {
                    old(v)@[j + 1]
                }) by {};
                assert(keys_unique(v@)) by {
                    assert forall|a: int, b: int|
                        0 <= a < v@.len() && 0 <= b < v@.len() && #[trigger] v@[a].0@
                            == #[trigger] v@[b].0@ implies a == b by {
                        let a0 = if a < i { a } else { a + 1 };
                        let b0 = if b < i { b } else { b + 1 };
                        assert(v@[a] == old(v)@[a0]);
                        assert(v@[b] == old(v)@[b0]);
                    };
                };
                let m = to_map(old(v)@).remove(k@);
                assert forall|key: Seq<char>| #[trigger] m.contains_key(key) <==> has_key(
                    v@,
                    key,
                ) by {
                    if m.contains_key(key) {
                        let j = choose|j: int| 0 <= j < old(v)@.len() && #[trigger] old(v)@[j].0@
                            == key;
                        assert(j != i);
                        let j1 = if j < i { j } else { j - 1 };
                        assert(v@[j1] == old(v)@[j]);
                    }
                    if has_key(v@, key) {
                        let j = choose|j: int| 0 <= j < v@.len() && #[trigger] v@[j].0@ == key;
                        let j0 = if j < i { j } else { j + 1 };
                        assert(v@[j] == old(v)@[j0]);
                        assert(j0 != i);
                    }
                };
                assert forall|j: int| 0 <= j < v@.len() implies m[#[trigger] v@[j].0@]
                    == v@[j].1 by {
                    let j0 = if j < i { j } else { j + 1 };
                    assert(v@[j] == old(v)@[j0]);
                    assert(j0 != i);
                };
                lemma_same_map(v@, m);
                assert forall|j: int| 0 <= j < v@.len() implies exists|i0: int|
                    0 <= i0 < old(v)@.len() && #[trigger] v@[j] == old(v)@[i0] by {
                    let j0 = if j < i { j } else { j + 1 };
                    assert(v@[j] == old(v)@[j0]);
                };
            }
            Some(x)
        },
        None => {
            assert(to_map(v@).remove(k@) =~= to_map(v@));
            assert forall|j: int| 0 <= j < v@.len() implies exists|i0: int|
                0 <= i0 < old(v)@.len() && #[trigger] v@[j] == old(v)@[i0] by {
                assert(v@[j] == old(v)@[j]);
            };
            None
        },
    }
}

} // verus!
