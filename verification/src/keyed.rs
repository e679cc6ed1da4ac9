//! Keyed tables held as lists of `(key, value)` pairs: setting a key (a later value replaces an
//! earlier one) and adding to the list kept under a key, each key kept in the order it was
//! first met.
use vstd::prelude::*;
use crate::types::{group_view, string_pairs};
use vstd::string::StringExecFns;

verus! {

broadcast use vstd::seq_lib::group_seq_properties;

/// The keys of a keyed table, in order.
pub open spec fn keys_of<V>(m: Seq<(Seq<char>, V)>) -> Seq<Seq<char>> {
    m.map_values(|p: (Seq<char>, V)| p.0)
}

/// The position of the first occurrence of `k` among `keys`.
pub open spec fn key_pos(keys: Seq<Seq<char>>, k: Seq<char>) -> Option<int>
    decreases keys.len(),
{
    if keys.len() == 0 {
        None
    } else if keys[0] == k {
        Some(0)
    } else {
        match key_pos(keys.drop_first(), k) {
            Some(i) => Some(i + 1),
            None => None,
        }
    }
}

/// `key_pos` finds the first occurrence, or there is none.
pub proof fn lemma_key_pos(keys: Seq<Seq<char>>, k: Seq<char>)
    ensures
        match key_pos(keys, k) {
            Some(i) => 0 <= i < keys.len() && keys[i] == k && forall|j: int| 0 <= j < i ==> keys[j] != k,
            None => forall|j: int| 0 <= j < keys.len() ==> keys[j] != k,
        },
    decreases keys.len(),
{
    if keys.len() > 0 {
        lemma_key_pos(keys.drop_first(), k);
        if keys[0] != k {
            assert forall|j: int| 0 < j < keys.len() implies keys[j] == keys.drop_first()[j - 1] by {}
        }
    }
}

/// The table with `k` set to `v`: the value of an existing key is replaced in place, a new key
/// goes at the end.
pub open spec fn assoc_set<V>(m: Seq<(Seq<char>, V)>, k: Seq<char>, v: V) -> Seq<(Seq<char>, V)> {
    match key_pos(keys_of(m), k) {
        Some(i) => m.update(i, (k, v)),
        None => m.push((k, v)),
    }
}

/// The table after setting each pair in turn.
pub open spec fn assoc_set_all<V>(m: Seq<(Seq<char>, V)>, pairs: Seq<(Seq<char>, V)>) -> Seq<(Seq<char>, V)>
    decreases pairs.len(),
{
    if pairs.len() == 0 {
        m
    } else {
        let p = pairs.last();
        assoc_set(assoc_set_all(m, pairs.drop_last()), p.0, p.1)
    }
}

/// The table with `v` added at the end of the list under `k` (a new key starts a list).
pub open spec fn group_add<V>(m: Seq<(Seq<char>, Seq<V>)>, k: Seq<char>, v: V) -> Seq<(Seq<char>, Seq<V>)> {
    match key_pos(keys_of(m), k) {
        Some(i) => m.update(i, (k, m[i].1.push(v))),
        None => m.push((k, seq![v])),
    }
}

/// The table after adding each pair in turn.
pub open spec fn group_all<V>(m: Seq<(Seq<char>, Seq<V>)>, pairs: Seq<(Seq<char>, V)>) -> Seq<(Seq<char>, Seq<V>)>
    decreases pairs.len(),
{
    if pairs.len() == 0 {
        m
    } else {
        let p = pairs.last();
        group_add(group_all(m, pairs.drop_last()), p.0, p.1)
    }
}

/// The position of key `k` in a table.
pub fn find_key<V>(m: &Vec<(String, V)>, k: &String) -> (r: Option<usize>)
    ensures
        match r {
            Some(i) => key_pos(m@.map_values(|p: (String, V)| p.0@), k@) == Some(i as int),
            None => key_pos(m@.map_values(|p: (String, V)| p.0@), k@) is None,
        },
{
    let ghost keys = m@.map_values(|p: (String, V)| p.0@);
    proof {
        lemma_key_pos(keys, k@);
    }
    let mut i: usize = 0;
    while i < m.len()
        invariant
            i <= m.len(),
            keys == m@.map_values(|p: (String, V)| p.0@),
            forall|j: int| 0 <= j < i ==> keys[j] != k@,
            match key_pos(keys, k@) {
                Some(x) => 0 <= x < keys.len() && keys[x] == k@ && forall|j: int| 0 <= j < x ==> keys[j] != k@,
                None => forall|j: int| 0 <= j < keys.len() ==> keys[j] != k@,
            },
        decreases m.len() - i,
    {
        if m[i].0 == *k {
            assert(keys[i as int] == k@);
            return Some(i);
        }
        i = i + 1;
    }
    None
}

/// Sets `k` to `v` in a table of strings.
pub fn set_string(m: &mut Vec<(String, String)>, k: String, v: String)
    ensures
        string_pairs(final(m)@) == assoc_set(string_pairs(old(m)@), k@, v@),
{
    let ghost before = string_pairs(m@);
    assert(keys_of(before) =~= m@.map_values(|p: (String, String)| p.0@));
    match find_key(m, &k) {
        Some(i) => {
            proof {
                lemma_key_pos(m@.map_values(|p: (String, String)| p.0@), k@);
            }
            m.set(i, (k, v));
            assert(string_pairs(m@) =~= before.update(i as int, (k@, v@)));
        },
        None => {
            m.push((k, v));
            assert(string_pairs(m@) =~= before.push((k@, v@)));
        },
    }
}

/// Adds `v` to the list under `k`.
pub fn group_push<V: View>(m: &mut Vec<(String, Vec<V>)>, k: String, v: V)
    ensures
        group_view(final(m)@) == group_add(group_view(old(m)@), k@, v@),
{
    let ghost before = group_view(m@);
    assert(keys_of(before) =~= m@.map_values(|p: (String, Vec<V>)| p.0@));
    match find_key(m, &k) {
        Some(i) => {
            proof {
                lemma_key_pos(m@.map_values(|p: (String, Vec<V>)| p.0@), k@);
            }
            let ghost old_list = m@[i as int].1@;
            let mut entry = m.remove(i);
            entry.1.push(v);
            m.insert(i, entry);
            assert(group_view(m@) =~= before.update(
                i as int,
                (k@, before[i as int].1.push(v@)),
            )) by {
                assert(entry.1@ == old_list.push(v));
                assert(entry.1@.map_values(|x: V| x@) =~= old_list.map_values(|x: V| x@).push(v@));
            }
        },
        None => {
            let mut list: Vec<V> = Vec::new();
            list.push(v);
            m.push((k, list));
            assert(list@.map_values(|x: V| x@) =~= seq![v@]);
            assert(group_view(m@) =~= before.push((k@, seq![v@])));
        },
    }
}

/// The value under key `k`, if the table has that key.
pub open spec fn lookup<V>(m: Seq<(Seq<char>, V)>, k: Seq<char>) -> Option<V> {
    match key_pos(keys_of(m), k) {
        Some(i) => Some(m[i].1),
        None => None,
    }
}

/// The position of key `k` in a table, by the key's characters.
pub fn find_key_str<V>(m: &Vec<(String, V)>, k: &str) -> (r: Option<usize>)
    ensures
        match r {
            Some(i) => key_pos(m@.map_values(|p: (String, V)| p.0@), k@) == Some(i as int)
                && i < m@.len(),
            None => key_pos(m@.map_values(|p: (String, V)| p.0@), k@) is None,
        },
{
    let owned = String::from_str(k);
    let r = find_key(m, &owned);
    proof {
        lemma_key_pos(m@.map_values(|p: (String, V)| p.0@), k@);
    }
    r
}

/// No key occurs twice in the table.
pub open spec fn keys_distinct<V>(m: Seq<(Seq<char>, V)>) -> bool {
    forall|a: int, b: int| 0 <= a < b < m.len() ==> m[a].0 != m[b].0
}

proof fn lemma_group_add<V>(m: Seq<(Seq<char>, Seq<V>)>, k: Seq<char>, v: V)
    requires
        keys_distinct(m),
    ensures
        keys_distinct(group_add(m, k, v)),
        exists|x: int| 0 <= x < group_add(m, k, v).len() && group_add(m, k, v)[x].0 == k,
        forall|x: int| #![trigger m[x]] 0 <= x < m.len() ==> exists|y: int| #![trigger group_add(m, k, v)[y]]
            0 <= y < group_add(m, k, v).len() && group_add(m, k, v)[y].0 == m[x].0,
        forall|x: int, i: int| 0 <= x < group_add(m, k, v).len() && 0 <= i < group_add(m, k, v)[x].1.len()
            ==> (#[trigger] group_add(m, k, v)[x].1[i] == v && group_add(m, k, v)[x].0 == k) || (x < m.len()
                && i < m[x].1.len() && m[x].1[i] == group_add(m, k, v)[x].1[i] && m[x].0
                == group_add(m, k, v)[x].0),
{
    let g = group_add(m, k, v);
    lemma_key_pos(keys_of(m), k);
    match key_pos(keys_of(m), k) {
        Some(i) => {
            assert(keys_of(m)[i] == m[i].0);
            assert forall|x: int| 0 <= x < g.len() implies #[trigger] g[x].0 == m[x].0 by {}
            assert(g[i].0 == k);
        },
        None => {
            assert forall|j: int| 0 <= j < m.len() implies m[j].0 != k by {
                assert(keys_of(m)[j] == m[j].0);
            }
            assert forall|x: int| 0 <= x < m.len() implies #[trigger] g[x].0 == m[x].0 by {}
            assert(g[m.len() as int].0 == k);
        },
    }
    assert forall|x: int| #![trigger m[x]] 0 <= x < m.len() implies exists|y: int| #![trigger g[y]]
        0 <= y < g.len() && g[y].0 == m[x].0 by {
        assert(g[x].0 == m[x].0);
    }
}


/// The values of the pairs with key `k`, in order.
pub open spec fn values_under<V>(pairs: Seq<(Seq<char>, V)>, k: Seq<char>) -> Seq<V>
    decreases pairs.len(),
{
    if pairs.len() == 0 {
        Seq::empty()
    } else if pairs.last().0 == k {
        values_under(pairs.drop_last(), k).push(pairs.last().1)
    } else {
        values_under(pairs.drop_last(), k)
    }
}

/// Every value of a pair with key `k` is among the values under `k`.
pub proof fn lemma_values_under_has<V>(pairs: Seq<(Seq<char>, V)>, k: Seq<char>)
    ensures
        forall|j: int| 0 <= j < pairs.len() && (#[trigger] pairs[j]).0 == k ==> values_under(pairs, k).contains(
            pairs[j].1,
        ),
    decreases pairs.len(),
{
    if pairs.len() > 0 {
        let init = pairs.drop_last();
        lemma_values_under_has(init, k);
        let vu = values_under(pairs, k);
        assert forall|j: int| 0 <= j < pairs.len() && (#[trigger] pairs[j]).0 == k implies vu.contains(pairs[j].1) by {
            if j < init.len() {
                assert(pairs[j] == init[j]);
                let w = choose|w: int| 0 <= w < values_under(init, k).len() && values_under(init, k)[w] == pairs[j].1;
                assert(vu[w] == pairs[j].1);
            } else {
                assert(vu.last() == pairs[j].1);
            }
        }
    }
}

/// Grouping pairs by key: each key lists exactly the values of the pairs with that key, in the
/// order of the pairs, and every key that some pair has is listed.
pub proof fn law_group_all_lists<V>(pairs: Seq<(Seq<char>, V)>)
    ensures
        keys_distinct(group_all(Seq::empty(), pairs)),
        forall|x: int| 0 <= x < group_all(Seq::empty(), pairs).len() ==> (#[trigger] group_all(
            Seq::empty(),
            pairs,
        )[x]).1 == values_under(pairs, group_all(Seq::empty(), pairs)[x].0),
        forall|k: Seq<char>| #[trigger] values_under(pairs, k).len() > 0 ==> exists|x: int|
            0 <= x < group_all(Seq::empty(), pairs).len() && group_all(Seq::empty(), pairs)[x].0 == k,
    decreases pairs.len(),
{
    law_group_all(pairs);
    if pairs.len() > 0 {
        let init = pairs.drop_last();
        let p = pairs.last();
        law_group_all_lists(init);
        let m = group_all(Seq::<(Seq<char>, Seq<V>)>::empty(), init);
        let g = group_all(Seq::<(Seq<char>, Seq<V>)>::empty(), pairs);
        assert(g == group_add(m, p.0, p.1));
        lemma_key_pos(keys_of(m), p.0);
        match key_pos(keys_of(m), p.0) {
            Some(i) => {
                assert(keys_of(m)[i] == m[i].0);
                assert forall|x: int| 0 <= x < g.len() implies (#[trigger] g[x]).1 == values_under(pairs, g[x].0) by {
                    if x != i {
                        assert(g[x] == m[x]);
                        assert(m[x].0 != m[i].0);
                    }
                }
                assert forall|k: Seq<char>| #[trigger] values_under(pairs, k).len() > 0 implies exists|x: int|
                    0 <= x < g.len() && g[x].0 == k by {
                    if k == p.0 {
                        assert(g[i].0 == k);
                    } else {
                        assert(values_under(pairs, k) == values_under(init, k));
                        let x = choose|x: int| 0 <= x < m.len() && m[x].0 == k;
                        assert(g[x].0 == m[x].0);
                    }
                }
            },
            None => {
                assert forall|j: int| 0 <= j < m.len() implies m[j].0 != p.0 by {
                    assert(keys_of(m)[j] == m[j].0);
                }
                assert(values_under(init, p.0).len() == 0);
                assert(values_under(pairs, p.0) =~= seq![p.1]);
                assert forall|x: int| 0 <= x < g.len() implies (#[trigger] g[x]).1 == values_under(pairs, g[x].0) by {
                    if x < m.len() {
                        assert(g[x] == m[x]);
                    }
                }
                assert forall|k: Seq<char>| #[trigger] values_under(pairs, k).len() > 0 implies exists|x: int|
                    0 <= x < g.len() && g[x].0 == k by {
                    if k == p.0 {
                        assert(g[m.len() as int].0 == k);
                    } else {
                        assert(values_under(pairs, k) == values_under(init, k));
                        let x = choose|x: int| 0 <= x < m.len() && m[x].0 == k;
                        assert(g[x].0 == m[x].0);
                    }
                }
            },
        }
    } else {
        assert forall|k: Seq<char>| #[trigger] values_under(pairs, k).len() > 0 implies exists|x: int|
            0 <= x < group_all(Seq::<(Seq<char>, Seq<V>)>::empty(), pairs).len()
                && group_all(Seq::<(Seq<char>, Seq<V>)>::empty(), pairs)[x].0 == k by {}
    }
}

/// Grouping pairs by key: no key is listed twice, the key of every pair is listed, and every
/// value listed under a key comes from a pair with that key.
pub proof fn law_group_all<V>(pairs: Seq<(Seq<char>, V)>)
    ensures
        keys_distinct(group_all(Seq::empty(), pairs)),
        forall|j: int| #![trigger pairs[j]] 0 <= j < pairs.len() ==> exists|x: int|
            #![trigger group_all(Seq::empty(), pairs)[x]]
            0 <= x < group_all(Seq::empty(), pairs).len() && group_all(Seq::empty(), pairs)[x].0 == pairs[j].0,
        forall|x: int, i: int| 0 <= x < group_all(Seq::empty(), pairs).len() && 0 <= i < group_all(
            Seq::empty(),
            pairs,
        )[x].1.len() ==> pairs.contains(
            (group_all(Seq::empty(), pairs)[x].0, #[trigger] group_all(Seq::empty(), pairs)[x].1[i]),
        ),
    decreases pairs.len(),
{
    if pairs.len() > 0 {
        let init = pairs.drop_last();
        let p = pairs.last();
        law_group_all(init);
        let m = group_all(Seq::<(Seq<char>, Seq<V>)>::empty(), init);
        let g = group_all(Seq::<(Seq<char>, Seq<V>)>::empty(), pairs);
        assert(g == group_add(m, p.0, p.1));
        lemma_group_add(m, p.0, p.1);
        assert forall|j: int| #![trigger pairs[j]] 0 <= j < pairs.len() implies exists|x: int| #![trigger g[x]]
            0 <= x < g.len() && g[x].0 == pairs[j].0 by {
            if j < init.len() {
                assert(pairs[j] == init[j]);
                let x = choose|x: int| #![trigger m[x]] 0 <= x < m.len() && m[x].0 == init[j].0;
                assert(m[x].0 == m[x].0);
            }
        }
        assert forall|x: int, i: int| 0 <= x < g.len() && 0 <= i < g[x].1.len() implies pairs.contains(
            (g[x].0, #[trigger] g[x].1[i]),
        ) by {
            if g[x].1[i] == p.1 && g[x].0 == p.0 {
                assert(pairs[pairs.len() - 1] == (g[x].0, g[x].1[i]));
            } else {
                assert(init.contains((m[x].0, m[x].1[i])));
                let w = choose|w: int| 0 <= w < init.len() && init[w] == (m[x].0, m[x].1[i]);
                assert(pairs[w] == init[w]);
            }
        }
    }
}

proof fn lemma_assoc_set<V>(m: Seq<(Seq<char>, V)>, k: Seq<char>, v: V)
    requires
        keys_distinct(m),
    ensures
        keys_distinct(assoc_set(m, k, v)),
        lookup(assoc_set(m, k, v), k) == Some(v),
        forall|q: Seq<char>| q != k ==> #[trigger] lookup(assoc_set(m, k, v), q) == lookup(m, q),
{
    let g = assoc_set(m, k, v);
    lemma_key_pos(keys_of(m), k);
    lemma_key_pos(keys_of(g), k);
    match key_pos(keys_of(m), k) {
        Some(i) => {
            assert(keys_of(m)[i] == m[i].0);
            assert(keys_of(g) =~= keys_of(m));
            assert forall|x: int| 0 <= x < g.len() implies #[trigger] g[x].0 == m[x].0 by {}
            assert(key_pos(keys_of(g), k) == Some(i));
        },
        None => {
            assert forall|j: int| 0 <= j < m.len() implies m[j].0 != k by {
                assert(keys_of(m)[j] == m[j].0);
            }
            assert(keys_of(g) =~= keys_of(m).push(k));
            assert forall|x: int| 0 <= x < m.len() implies #[trigger] g[x].0 == m[x].0 by {}
            match key_pos(keys_of(g), k) {
                Some(a) => {
                    if a < m.len() {
                        assert(keys_of(g)[a] == keys_of(m)[a]);
                        assert(keys_of(m)[a] == m[a].0);
                    }
                    assert(a == m.len());
                },
                None => {
                    assert(keys_of(g)[m.len() as int] == k);
                },
            }
        },
    }
    assert forall|q: Seq<char>| q != k implies #[trigger] lookup(g, q) == lookup(m, q) by {
        lemma_key_pos(keys_of(m), q);
        lemma_key_pos(keys_of(g), q);
        match key_pos(keys_of(m), k) {
            Some(i) => {
                assert(keys_of(g) =~= keys_of(m));
            },
            None => {
                assert(keys_of(g) =~= keys_of(m).push(k));
                match key_pos(keys_of(m), q) {
                    Some(a) => {
                        assert(keys_of(g)[a] == q);
                        match key_pos(keys_of(g), q) {
                            Some(b) => {
                                if b < a {
                                    assert(keys_of(g)[b] == keys_of(m)[b]);
                                }
                                if a < b {
                                    assert(keys_of(g)[a] == q);
                                }
                                assert(a == b);
                            },
                            None => {},
                        }
                    },
                    None => {
                        match key_pos(keys_of(g), q) {
                            Some(b) => {
                                if b < m.len() {
                                    assert(keys_of(g)[b] == keys_of(m)[b]);
                                }
                                assert(keys_of(g)[m.len() as int] == k);
                            },
                            None => {},
                        }
                    },
                }
            },
        }
    }
}

/// The value of the last pair with key `k`, if any.
pub open spec fn last_value<V>(pairs: Seq<(Seq<char>, V)>, k: Seq<char>) -> Option<V>
    decreases pairs.len(),
{
    if pairs.len() == 0 {
        None
    } else if pairs.last().0 == k {
        Some(pairs.last().1)
    } else {
        last_value(pairs.drop_last(), k)
    }
}

/// Setting pairs in turn: no key is listed twice, and each key holds the value of the last pair
/// with that key (a later value replaces an earlier one).
pub proof fn law_assoc_set_all<V>(pairs: Seq<(Seq<char>, V)>)
    ensures
        keys_distinct(assoc_set_all(Seq::empty(), pairs)),
        forall|k: Seq<char>| #[trigger] lookup(assoc_set_all(Seq::empty(), pairs), k) == last_value(pairs, k),
    decreases pairs.len(),
{
    if pairs.len() == 0 {
        assert forall|k: Seq<char>| #[trigger] lookup(assoc_set_all(Seq::<(Seq<char>, V)>::empty(), pairs), k)
            == last_value(pairs, k) by {
            assert(keys_of(Seq::<(Seq<char>, V)>::empty()) =~= Seq::<Seq<char>>::empty());
        }
    } else {
        let init = pairs.drop_last();
        let p = pairs.last();
        law_assoc_set_all(init);
        let m = assoc_set_all(Seq::<(Seq<char>, V)>::empty(), init);
        lemma_assoc_set(m, p.0, p.1);
        assert forall|k: Seq<char>| #[trigger] lookup(assoc_set_all(Seq::<(Seq<char>, V)>::empty(), pairs), k)
            == last_value(pairs, k) by {
            if k != p.0 {
                assert(lookup(m, k) == last_value(init, k));
            }
        }
    }
}

} // verus!
