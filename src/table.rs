//! Lookups in lists of keyed entries, where the first entry for a key wins.
use vstd::prelude::*;
use crate::keys::KeyCode;

verus! {

/// `i` is the first position of `m` whose key is `k`.
pub open spec fn is_first_index<V>(m: Seq<(KeyCode, V)>, k: KeyCode, i: int) -> bool {
    &&& 0 <= i < m.len()
    &&& m[i].0 == k
    &&& forall|j: int| 0 <= j < i ==> m[j].0 != k
}

/// The first position of `m` whose key is `k`, if any.
pub open spec fn key_index<V>(m: Seq<(KeyCode, V)>, k: KeyCode) -> Option<int> {
    if exists|i: int| is_first_index(m, k, i) {
        Some(choose|i: int| is_first_index(m, k, i))
    } else {
        None
    }
}

/// The value of the first entry of `m` whose key is `k`, if any.
pub open spec fn lookup<V>(m: Seq<(KeyCode, V)>, k: KeyCode) -> Option<V> {
    match key_index(m, k) {
        Some(i) => Some(m[i].1),
        None => None,
    }
}

/// No two entries of `m` share a key.
pub open spec fn keys_unique<V>(m: Seq<(KeyCode, V)>) -> bool {
    forall|a: int, b: int| 0 <= a < m.len() && 0 <= b < m.len() && a != b ==> m[a].0 != m[b].0
}

/// The keys of the entries of `m`.
pub open spec fn keys_of<V>(m: Seq<(KeyCode, V)>) -> Set<KeyCode> {
    Set::new(|k: KeyCode| exists|i: int| 0 <= i < m.len() && m[i].0 == k)
}

/// The first position whose key is `k` is unique.
pub proof fn lemma_first_index_unique<V>(m: Seq<(KeyCode, V)>, k: KeyCode, i: int)
    requires
        is_first_index(m, k, i),
    ensures
        key_index(m, k) == Some(i),
{
    let c = choose|c: int| is_first_index(m, k, c);
    if c < i {
        assert(m[c].0 != k);
    } else if i < c {
        assert(m[i].0 != k);
    }
}

/// Where no entry has key `k`, there is no first position for it.
pub proof fn lemma_no_index<V>(m: Seq<(KeyCode, V)>, k: KeyCode)
    requires
        forall|j: int| 0 <= j < m.len() ==> m[j].0 != k,
    ensures
        key_index(m, k) is None,
        !keys_of(m).contains(k),
{
}

/// With unique keys, any entry with key `k` is the first one.
pub proof fn lemma_unique_index<V>(m: Seq<(KeyCode, V)>, k: KeyCode)
    requires
        keys_unique(m),
    ensures
        key_index(m, k) is None <==> !keys_of(m).contains(k),
        forall|i: int| 0 <= i < m.len() && m[i].0 == k ==> key_index(m, k) == Some(i),
{
    assert forall|i: int| 0 <= i < m.len() && m[i].0 == k implies key_index(m, k) == Some(i) by {
        assert(is_first_index(m, k, i));
        lemma_first_index_unique(m, k, i);
    }
    if keys_of(m).contains(k) {
        let i = choose|i: int| 0 <= i < m.len() && m[i].0 == k;
        assert(key_index(m, k) == Some(i));
    } else {
        assert forall|j: int| 0 <= j < m.len() implies m[j].0 != k by {
            if m[j].0 == k {
                assert(keys_of(m).contains(k));
            }
        }
    }
}

/// Two lists with the same key at each position have the same first
/// positions and the same keys.
pub proof fn lemma_same_keys<A, B>(m: Seq<(KeyCode, A)>, n: Seq<(KeyCode, B)>, k: KeyCode)
    requires
        m.len() == n.len(),
        forall|j: int| 0 <= j < m.len() ==> m[j].0 == n[j].0,
    ensures
        key_index(m, k) == key_index(n, k),
        keys_of(m).contains(k) == keys_of(n).contains(k),
{
    if exists|i: int| is_first_index(m, k, i) {
        let i = choose|i: int| is_first_index(m, k, i);
        assert(is_first_index(n, k, i));
        lemma_first_index_unique(n, k, i);
    } else if exists|i: int| is_first_index(n, k, i) {
        let i = choose|i: int| is_first_index(n, k, i);
        assert(is_first_index(m, k, i));
    }
    if keys_of(m).contains(k) {
        let j = choose|j: int| 0 <= j < m.len() && m[j].0 == k;
        assert(n[j].0 == k);
    }
    if keys_of(n).contains(k) {
        let j = choose|j: int| 0 <= j < n.len() && n[j].0 == k;
        assert(m[j].0 == k);
    }
}

/// `m` with the entry for `k` set to `v`: the first entry for `k` changes
/// in place, and where there is none a new one goes at the end.
pub open spec fn put<V>(m: Seq<(KeyCode, V)>, k: KeyCode, v: V) -> Seq<(KeyCode, V)> {
    match key_index(m, k) {
        Some(i) => m.update(i, (k, v)),
        None => m.push((k, v)),
    }
}

/// The entries of `m` with each value replaced by its view.
pub open spec fn view_entries<A: View>(m: Seq<(KeyCode, A)>) -> Seq<(KeyCode, A::V)> {
    m.map_values(|e: (KeyCode, A)| (e.0, e.1@))
}

pub proof fn lemma_view_keys<A: View>(m: Seq<(KeyCode, A)>, k: KeyCode)
    ensures
        key_index(view_entries(m), k) == key_index(m, k),
        keys_of(view_entries(m)).contains(k) == keys_of(m).contains(k),
        keys_unique(view_entries(m)) == keys_unique(m),
{
    lemma_same_keys(m, view_entries(m), k);
    let n = view_entries(m);
    assert(forall|j: int| 0 <= j < m.len() ==> #[trigger] n[j].0 == m[j].0);
    if keys_unique(m) {
        assert forall|a: int, b: int| 0 <= a < n.len() && 0 <= b < n.len() && a != b implies n[a].0 != n[b].0 by {
            assert(n[a].0 == m[a].0 && n[b].0 == m[b].0);
        }
    }
    if keys_unique(n) {
        assert forall|a: int, b: int| 0 <= a < m.len() && 0 <= b < m.len() && a != b implies m[a].0 != m[b].0 by {
            assert(n[a].0 == m[a].0 && n[b].0 == m[b].0);
        }
    }
}

pub proof fn lemma_view_put<A: View>(m: Seq<(KeyCode, A)>, k: KeyCode, v: A)
    ensures
        view_entries(put(m, k, v)) == put(view_entries(m), k, v@),
{
    lemma_view_keys(m, k);
    assert(view_entries(put(m, k, v)) =~= put(view_entries(m), k, v@));
}

pub proof fn lemma_view_remove<A: View>(m: Seq<(KeyCode, A)>, i: int)
    requires
        0 <= i < m.len(),
    ensures
        view_entries(m.remove(i)) == view_entries(m).remove(i),
{
    assert(view_entries(m.remove(i)) =~= view_entries(m).remove(i));
}

pub proof fn lemma_view_update<A: View>(m: Seq<(KeyCode, A)>, i: int, k: KeyCode, v: A)
    requires
        0 <= i < m.len(),
    ensures
        view_entries(m.update(i, (k, v))) == view_entries(m).update(i, (k, v@)),
{
    assert(view_entries(m.update(i, (k, v))) =~= view_entries(m).update(i, (k, v@)));
}

/// Setting an entry keeps the keys unique.
pub proof fn lemma_put_unique<V>(m: Seq<(KeyCode, V)>, k: KeyCode, v: V)
    requires
        keys_unique(m),
    ensures
        keys_unique(put(m, k, v)),
        keys_of(put(m, k, v)) == keys_of(m).insert(k),
        lookup(put(m, k, v), k) == Some(v),
        forall|k2: KeyCode| k2 != k ==> #[trigger] key_index(put(m, k, v), k2) == key_index(m, k2),
{
    lemma_unique_index(m, k);
    let p = put(m, k, v);
    match key_index(m, k) {
        Some(i) => {
            assert(is_first_index(m, k, i));
        },
        None => {
            assert forall|j: int| 0 <= j < m.len() implies m[j].0 != k by {
                if m[j].0 == k {
                    assert(keys_of(m).contains(k));
                }
            }
        },
    }
    assert(keys_unique(p));
    assert(keys_of(p) =~= keys_of(m).insert(k)) by {
        assert forall|x: KeyCode| #[trigger] keys_of(p).contains(x) implies keys_of(m).insert(k).contains(x) by {
            let j = choose|j: int| 0 <= j < p.len() && p[j].0 == x;
            if x != k {
                assert(m[j].0 == x);
            }
        }
        assert forall|x: KeyCode| #[trigger] keys_of(m).insert(k).contains(x) implies keys_of(p).contains(x) by {
            if x == k {
                match key_index(m, k) {
                    Some(i) => assert(p[i].0 == k),
                    None => assert(p[m.len() as int].0 == k),
                }
            } else {
                let j = choose|j: int| 0 <= j < m.len() && m[j].0 == x;
                assert(p[j].0 == x);
            }
        }
    }
    lemma_unique_index(p, k);
    match key_index(m, k) {
        Some(i) => assert(p[i].0 == k),
        None => assert(p[m.len() as int].0 == k),
    }
    assert forall|k2: KeyCode| k2 != k implies #[trigger] key_index(p, k2) == key_index(m, k2) by {
        lemma_unique_index(p, k2);
        lemma_unique_index(m, k2);
        if keys_of(m).contains(k2) {
            let j = choose|j: int| 0 <= j < m.len() && m[j].0 == k2;
            assert(p[j].0 == k2);
        }
        assert(keys_of(p).contains(k2) == keys_of(m).contains(k2));
    }
}

/// Removing an entry keeps the keys unique and drops its key.
pub proof fn lemma_remove_unique<V>(m: Seq<(KeyCode, V)>, i: int)
    requires
        keys_unique(m),
        0 <= i < m.len(),
    ensures
        keys_unique(m.remove(i)),
        keys_of(m.remove(i)) == keys_of(m).remove(m[i].0),
        forall|k2: KeyCode| k2 != m[i].0 ==> #[trigger] lookup(m.remove(i), k2) == lookup(m, k2),
{
    let r = m.remove(i);
    assert forall|a: int, b: int| 0 <= a < r.len() && 0 <= b < r.len() && a != b implies r[a].0 != r[b].0 by {
        let a2 = if a < i { a } else { a + 1 };
        let b2 = if b < i { b } else { b + 1 };
        assert(r[a] == m[a2]);
        assert(r[b] == m[b2]);
    }
    assert(keys_of(r) =~= keys_of(m).remove(m[i].0)) by {
        assert forall|x: KeyCode| #[trigger] keys_of(r).contains(x) implies keys_of(m).remove(m[i].0).contains(x) by {
            let j = choose|j: int| 0 <= j < r.len() && r[j].0 == x;
            let j2 = if j < i { j } else { j + 1 };
            assert(m[j2].0 == x);
        }
        assert forall|x: KeyCode| #[trigger] keys_of(m).remove(m[i].0).contains(x) implies keys_of(r).contains(x) by {
            let j = choose|j: int| 0 <= j < m.len() && m[j].0 == x;
            if j < i {
                assert(r[j].0 == x);
            } else {
                assert(r[j - 1].0 == x);
            }
        }
    }
    assert forall|k2: KeyCode| k2 != m[i].0 implies #[trigger] lookup(r, k2) == lookup(m, k2) by {
        lemma_unique_index(r, k2);
        lemma_unique_index(m, k2);
        if keys_of(m).contains(k2) {
            let j = choose|j: int| 0 <= j < m.len() && m[j].0 == k2;
            if j < i {
                assert(r[j] == m[j]);
            } else {
                assert(r[j - 1] == m[j]);
            }
        }
    }
}

/// Sets the entry for `k` to `v`.
pub fn put_entry<V>(m: &mut Vec<(KeyCode, V)>, k: KeyCode, v: V)
    ensures
        final(m)@ == put(old(m)@, k, v),
{
    match find_key(m, k) {
        Some(i) => {
            m.remove(i);
            m.insert(i, (k, v));
            assert(m@ =~= put(old(m)@, k, v));
        },
        None => {
            m.push((k, v));
        },
    }
}

/// The position of the first entry of `m` whose key is `k`.
pub fn find_key<V>(m: &Vec<(KeyCode, V)>, k: KeyCode) -> (r: Option<usize>)
    ensures
        match r {
            Some(i) => key_index(m@, k) == Some(i as int) && i < m@.len(),
            None => key_index(m@, k) is None && !keys_of(m@).contains(k),
        },
{
    let mut i: usize = 0;
    while i < m.len()
        invariant
            i <= m@.len(),
            forall|j: int| 0 <= j < i ==> m@[j].0 != k,
        decreases m@.len() - i,
    {
        if m[i].0 == k {
            proof {
                lemma_first_index_unique(m@, k, i as int);
            }
            return Some(i);
        }
        i = i + 1;
    }
    proof {
        lemma_no_index(m@, k);
    }
    None
}

} // verus!
