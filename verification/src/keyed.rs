//! Sequences of named entries kept in strictly ascending name order, read as
//! maps from name to entry.
use vstd::prelude::*;
use crate::order::{
    name_lt, compare_names, NameOrder, lemma_name_lt_irreflexive, lemma_name_lt_asymmetric,
    lemma_name_lt_transitive, lemma_name_lt_total,
};

verus! {

/// A model value that carries a name.
pub trait KeyedView {
    spec fn key(self) -> Seq<char>;
}

/// An executable value whose name can be read.
pub trait Named {
    spec fn name_view(&self) -> Seq<char>;

    fn name_str(&self) -> (r: &str)
        ensures
            r@ == self.name_view(),
    ;
}

/// The names of the entries of `s`, in order.
pub open spec fn keys_of<V: KeyedView>(s: Seq<V>) -> Seq<Seq<char>> {
    s.map_values(|v: V| v.key())
}

/// Each name comes strictly before the next: ascending, without repeats.
pub open spec fn strictly_sorted(names: Seq<Seq<char>>) -> bool {
    forall|i: int, j: int| 0 <= i < j < names.len() ==> name_lt(#[trigger] names[i], #[trigger] names[j])
}

/// The map that results from inserting the entries of `s` one after another
/// under their names: of two entries with one name, the later one stays.
pub open spec fn keyed_map<V: KeyedView>(s: Seq<V>) -> Map<Seq<char>, V>
    decreases s.len(),
{
    if s.len() == 0 {
        Map::empty()
    } else {
        keyed_map(s.drop_last()).insert(s.last().key(), s.last())
    }
}

/// `s` lists the entries of `m` in ascending order of name, each once.
pub open spec fn lists_exactly<V: KeyedView>(s: Seq<V>, m: Map<Seq<char>, V>) -> bool {
    &&& strictly_sorted(keys_of(s))
    &&& forall|i: int| 0 <= i < s.len() ==> #[trigger] m.contains_key(s[i].key()) && m[s[i].key()] == s[i]
    &&& forall|k: Seq<char>| #[trigger] m.contains_key(k) ==> exists|i: int| 0 <= i < s.len() && s[i].key() == k
}

proof fn lemma_keys_of_index<V: KeyedView>(s: Seq<V>, i: int)
    requires
        0 <= i < s.len(),
    ensures
        keys_of(s)[i] == s[i].key(),
        keys_of(s).len() == s.len(),
{
}

/// The map of a sequence without repeated names holds exactly its entries.
pub proof fn lemma_keyed_map_of_sorted<V: KeyedView>(s: Seq<V>)
    requires
        strictly_sorted(keys_of(s)),
    ensures
        keyed_map(s).dom().finite(),
        keyed_map(s).len() == s.len(),
        lists_exactly(s, keyed_map(s)),
    decreases s.len(),
{
    if s.len() > 0 {
        let t = s.drop_last();
        assert(strictly_sorted(keys_of(t))) by {
            assert forall|i: int, j: int| 0 <= i < j < keys_of(t).len() implies name_lt(
                #[trigger] keys_of(t)[i],
                #[trigger] keys_of(t)[j],
            ) by {
                lemma_keys_of_index(s, i);
                lemma_keys_of_index(s, j);
            }
        }
        lemma_keyed_map_of_sorted(t);
        let last = s.last();
        let n = s.len() - 1;
        assert forall|i: int| 0 <= i < t.len() implies t[i].key() != last.key() by {
            lemma_keys_of_index(s, i);
            lemma_keys_of_index(s, n);
            assert(name_lt(keys_of(s)[i], keys_of(s)[n]));
            lemma_name_lt_irreflexive(last.key());
        }
        assert(!keyed_map(t).contains_key(last.key()));
        assert(strictly_sorted(keys_of(s)));
        assert forall|i: int| 0 <= i < s.len() implies #[trigger] keyed_map(s).contains_key(s[i].key())
            && keyed_map(s)[s[i].key()] == s[i] by {
            if i < n {
                assert(t[i] == s[i]);
                assert(keyed_map(t).contains_key(t[i].key()));
            }
        }
        assert forall|k: Seq<char>| #[trigger] keyed_map(s).contains_key(k) implies exists|i: int|
            0 <= i < s.len() && s[i].key() == k by {
            if k == last.key() {
                assert(s[n].key() == k);
            } else {
                assert(keyed_map(t).contains_key(k));
                let i = choose|i: int| 0 <= i < t.len() && t[i].key() == k;
                assert(s[i] == t[i]);
            }
        }
    }
}

/// Two sequences that list one map in ascending order are the same.
pub proof fn lemma_lists_exactly_unique<V: KeyedView>(s1: Seq<V>, s2: Seq<V>, m: Map<Seq<char>, V>)
    requires
        lists_exactly(s1, m),
        lists_exactly(s2, m),
    ensures
        s1 == s2,
{
    let n = if s1.len() < s2.len() { s1.len() } else { s2.len() };
    if n > 0 {
        lemma_lists_exactly_prefix(s1, s2, m, n - 1);
    }
    if s1.len() >= s2.len() {
        lemma_lists_exactly_no_extra(s1, s2, m, n as int);
    } else {
        lemma_lists_exactly_no_extra(s2, s1, m, n as int);
    }
    assert forall|i: int| 0 <= i < s1.len() implies s1[i] == s2[i] by {
        assert(m.contains_key(s1[i].key()));
        assert(m.contains_key(s2[i].key()));
    }
    assert(s1 =~= s2);
}

proof fn lemma_lists_exactly_no_extra<V: KeyedView>(s1: Seq<V>, s2: Seq<V>, m: Map<Seq<char>, V>, n: int)
    requires
        lists_exactly(s1, m),
        lists_exactly(s2, m),
        n == s2.len(),
        n <= s1.len(),
        forall|j: int| 0 <= j < n ==> s1[j].key() == s2[j].key(),
    ensures
        s1.len() == n,
{
    if s1.len() > n {
        assert(m.contains_key(s1[n].key()));
        let j = choose|j: int| 0 <= j < s2.len() && s2[j].key() == s1[n].key();
        lemma_keys_of_index(s1, j);
        lemma_keys_of_index(s1, n);
        assert(name_lt(keys_of(s1)[j], keys_of(s1)[n]));
        lemma_name_lt_irreflexive(s1[n].key());
    }
}

proof fn lemma_lists_exactly_prefix<V: KeyedView>(s1: Seq<V>, s2: Seq<V>, m: Map<Seq<char>, V>, i: int)
    requires
        lists_exactly(s1, m),
        lists_exactly(s2, m),
        0 <= i < s1.len(),
        i < s2.len(),
    ensures
        forall|j: int| 0 <= j <= i ==> s1[j].key() == s2[j].key(),
    decreases i,
{
    if i > 0 {
        lemma_lists_exactly_prefix(s1, s2, m, i - 1);
    }
    let a = s1[i].key();
    let b = s2[i].key();
    if a != b {
        lemma_name_lt_total(a, b);
        if name_lt(a, b) {
            lemma_lists_exactly_misplaced(s1, s2, m, i);
        } else {
            lemma_lists_exactly_misplaced(s2, s1, m, i);
        }
    }
}

proof fn lemma_lists_exactly_misplaced<V: KeyedView>(s1: Seq<V>, s2: Seq<V>, m: Map<Seq<char>, V>, i: int)
    requires
        lists_exactly(s1, m),
        lists_exactly(s2, m),
        0 <= i < s1.len(),
        i < s2.len(),
        forall|j: int| 0 <= j < i ==> s1[j].key() == s2[j].key(),
    ensures
        !name_lt(s1[i].key(), s2[i].key()),
{
    let a = s1[i].key();
    if name_lt(a, s2[i].key()) {
        assert(m.contains_key(a));
        let j = choose|j: int| 0 <= j < s2.len() && s2[j].key() == a;
        lemma_keys_of_index(s1, i);
        lemma_keys_of_index(s2, i);
        lemma_keys_of_index(s2, j);
        if j < i {
            lemma_keys_of_index(s1, j);
            assert(name_lt(keys_of(s1)[j], keys_of(s1)[i]));
            lemma_name_lt_irreflexive(a);
        } else if j == i {
            lemma_name_lt_irreflexive(a);
        } else {
            assert(name_lt(keys_of(s2)[i], keys_of(s2)[j]));
            lemma_name_lt_asymmetric(a, s2[i].key());
        }
    }
}

/// A sequence that lists two maps exactly makes them equal.
pub proof fn lemma_lists_exactly_same_map<V: KeyedView>(s: Seq<V>, m1: Map<Seq<char>, V>, m2: Map<Seq<char>, V>)
    requires
        lists_exactly(s, m1),
        lists_exactly(s, m2),
    ensures
        m1 == m2,
{
    assert forall|k: Seq<char>| m1.contains_key(k) implies m2.contains_key(k) && m1[k] == m2[k] by {
        let i = choose|i: int| 0 <= i < s.len() && s[i].key() == k;
        assert(m2.contains_key(s[i].key()));
    }
    assert forall|k: Seq<char>| m2.contains_key(k) implies m1.contains_key(k) by {
        let i = choose|i: int| 0 <= i < s.len() && s[i].key() == k;
        assert(m1.contains_key(s[i].key()));
    }
    assert(m1 =~= m2);
}

/// Inserting an entry at its place keeps the order, and adds it to the map.
pub proof fn lemma_insert_at<V: KeyedView>(s: Seq<V>, pos: int, v: V)
    requires
        strictly_sorted(keys_of(s)),
        0 <= pos <= s.len(),
        forall|i: int| 0 <= i < pos ==> name_lt(#[trigger] s[i].key(), v.key()),
        forall|i: int| pos <= i < s.len() ==> name_lt(v.key(), #[trigger] s[i].key()),
    ensures
        strictly_sorted(keys_of(s.insert(pos, v))),
        keyed_map(s.insert(pos, v)) == keyed_map(s).insert(v.key(), v),
{
    let t = s.insert(pos, v);
    assert forall|i: int, j: int| 0 <= i < j < keys_of(t).len() implies name_lt(
        #[trigger] keys_of(t)[i],
        #[trigger] keys_of(t)[j],
    ) by {
        lemma_keys_of_index(t, i);
        lemma_keys_of_index(t, j);
        if i < pos && j < pos {
            lemma_keys_of_index(s, i);
            lemma_keys_of_index(s, j);
        } else if i < pos && j == pos {
        } else if i < pos {
            lemma_keys_of_index(s, i);
            lemma_keys_of_index(s, j - 1);
        } else if i == pos {
            assert(t[j] == s[j - 1]);
        } else {
            lemma_keys_of_index(s, i - 1);
            lemma_keys_of_index(s, j - 1);
        }
    }
    lemma_keyed_map_of_sorted(s);
    lemma_keyed_map_of_sorted(t);
    let m = keyed_map(s).insert(v.key(), v);
    assert(lists_exactly(t, m)) by {
        assert forall|i: int| 0 <= i < t.len() implies #[trigger] m.contains_key(t[i].key()) && m[t[i].key()]
            == t[i] by {
            if i < pos {
                assert(t[i] == s[i]);
                assert(name_lt(s[i].key(), v.key()));
                lemma_name_lt_irreflexive(v.key());
                assert(keyed_map(s).contains_key(s[i].key()));
            } else if i > pos {
                assert(t[i] == s[i - 1]);
                assert(name_lt(v.key(), s[i - 1].key()));
                lemma_name_lt_irreflexive(v.key());
                assert(keyed_map(s).contains_key(s[i - 1].key()));
            }
        }
        assert forall|k: Seq<char>| #[trigger] m.contains_key(k) implies exists|i: int|
            0 <= i < t.len() && t[i].key() == k by {
            if k == v.key() {
                assert(t[pos].key() == k);
            } else {
                assert(keyed_map(s).contains_key(k));
                let i = choose|i: int| 0 <= i < s.len() && s[i].key() == k;
                if i < pos {
                    assert(t[i] == s[i]);
                } else {
                    assert(t[i + 1] == s[i]);
                }
            }
        }
    }
    lemma_lists_exactly_same_map(t, keyed_map(t), m);
}

/// Replacing an entry by one of the same name keeps the order, and replaces it in the map.
pub proof fn lemma_update_at<V: KeyedView>(s: Seq<V>, pos: int, v: V)
    requires
        strictly_sorted(keys_of(s)),
        0 <= pos < s.len(),
        s[pos].key() == v.key(),
    ensures
        strictly_sorted(keys_of(s.update(pos, v))),
        keyed_map(s.update(pos, v)) == keyed_map(s).insert(v.key(), v),
{
    let t = s.update(pos, v);
    assert(keys_of(t) =~= keys_of(s)) by {
        assert forall|i: int| 0 <= i < s.len() implies keys_of(t)[i] == keys_of(s)[i] by {
            lemma_keys_of_index(t, i);
            lemma_keys_of_index(s, i);
        }
    }
    lemma_keyed_map_of_sorted(s);
    lemma_keyed_map_of_sorted(t);
    let m = keyed_map(s).insert(v.key(), v);
    assert(lists_exactly(t, m)) by {
        assert forall|i: int| 0 <= i < t.len() implies #[trigger] m.contains_key(t[i].key()) && m[t[i].key()]
            == t[i] by {
            if i != pos {
                assert(t[i] == s[i]);
                lemma_keys_of_index(s, i);
                lemma_keys_of_index(s, pos);
                if i < pos {
                    assert(name_lt(keys_of(s)[i], keys_of(s)[pos]));
                } else {
                    assert(name_lt(keys_of(s)[pos], keys_of(s)[i]));
                }
                lemma_name_lt_irreflexive(v.key());
                assert(keyed_map(s).contains_key(s[i].key()));
            }
        }
        assert forall|k: Seq<char>| #[trigger] m.contains_key(k) implies exists|i: int|
            0 <= i < t.len() && t[i].key() == k by {
            if k == v.key() {
                assert(t[pos].key() == k);
            } else {
                assert(keyed_map(s).contains_key(k));
                let i = choose|i: int| 0 <= i < s.len() && s[i].key() == k;
                assert(t[i] == s[i]);
            }
        }
    }
    lemma_lists_exactly_same_map(t, keyed_map(t), m);
}

/// Removing an entry keeps the order, and removes its name from the map.
pub proof fn lemma_remove_at<V: KeyedView>(s: Seq<V>, pos: int)
    requires
        strictly_sorted(keys_of(s)),
        0 <= pos < s.len(),
    ensures
        strictly_sorted(keys_of(s.remove(pos))),
        keyed_map(s.remove(pos)) == keyed_map(s).remove(s[pos].key()),
{
    let t = s.remove(pos);
    let k0 = s[pos].key();
    assert forall|i: int, j: int| 0 <= i < j < keys_of(t).len() implies name_lt(
        #[trigger] keys_of(t)[i],
        #[trigger] keys_of(t)[j],
    ) by {
        lemma_keys_of_index(t, i);
        lemma_keys_of_index(t, j);
        let i2 = if i < pos { i } else { i + 1 };
        let j2 = if j < pos { j } else { j + 1 };
        assert(t[i] == s[i2]);
        assert(t[j] == s[j2]);
        lemma_keys_of_index(s, i2);
        lemma_keys_of_index(s, j2);
    }
    lemma_keyed_map_of_sorted(s);
    lemma_keyed_map_of_sorted(t);
    let m = keyed_map(s).remove(k0);
    assert(lists_exactly(t, m)) by {
        assert forall|i: int| 0 <= i < t.len() implies #[trigger] m.contains_key(t[i].key()) && m[t[i].key()]
            == t[i] by {
            let i2 = if i < pos { i } else { i + 1 };
            assert(t[i] == s[i2]);
            lemma_keys_of_index(s, i2);
            lemma_keys_of_index(s, pos);
            if i2 < pos {
                assert(name_lt(keys_of(s)[i2], keys_of(s)[pos]));
            } else {
                assert(name_lt(keys_of(s)[pos], keys_of(s)[i2]));
            }
            lemma_name_lt_irreflexive(k0);
            assert(keyed_map(s).contains_key(s[i2].key()));
        }
        assert forall|k: Seq<char>| #[trigger] m.contains_key(k) implies exists|i: int|
            0 <= i < t.len() && t[i].key() == k by {
            assert(keyed_map(s).contains_key(k));
            let i = choose|i: int| 0 <= i < s.len() && s[i].key() == k;
            assert(i != pos);
            if i < pos {
                assert(t[i] == s[i]);
            } else {
                assert(t[i - 1] == s[i]);
            }
        }
    }
    lemma_lists_exactly_same_map(t, keyed_map(t), m);
}

/// Where `key` stands in a list sorted by name: at `r.0` when `r.1`, or
/// else `r.0` is where an entry named `key` would go.
pub fn locate<T: Named>(items: &Vec<T>, key: &str) -> (r: (usize, bool))
    requires
        strictly_sorted(items@.map_values(|t: T| t.name_view())),
    ensures
        r.0 <= items@.len(),
        r.1 ==> r.0 < items@.len() && items@[r.0 as int].name_view() == key@,
        !r.1 ==> forall|i: int| r.0 <= i < items@.len() ==> name_lt(key@, #[trigger] items@[i].name_view()),
        forall|i: int| 0 <= i < r.0 ==> name_lt(#[trigger] items@[i].name_view(), key@),
{
    let ghost names = items@.map_values(|t: T| t.name_view());
    let mut i: usize = 0;
    while i < items.len()
        invariant
            i <= items@.len(),
            names == items@.map_values(|t: T| t.name_view()),
            strictly_sorted(names),
            forall|j: int| 0 <= j < i ==> name_lt(#[trigger] items@[j].name_view(), key@),
        decreases items@.len() - i,
    {
        let c = compare_names(items[i].name_str(), key);
        match c {
            NameOrder::Less => {},
            NameOrder::Equal => {
                return (i, true);
            },
            NameOrder::Greater => {
                proof {
                    assert forall|j: int| i <= j < items@.len() implies name_lt(
                        key@,
                        #[trigger] items@[j].name_view(),
                    ) by {
                        if j > i {
                            assert(names[i as int] == items@[i as int].name_view());
                            assert(names[j] == items@[j].name_view());
                            assert(name_lt(names[i as int], names[j]));
                            lemma_name_lt_transitive(key@, names[i as int], names[j]);
                        }
                    }
                }
                return (i, false);
            },
        }
        i = i + 1;
    }
    (i, false)
}

} // verus!
