//! Sequences of `(key, value)` entries read as maps, for entry vectors whose
//! keys are unique.
use vstd::prelude::*;

verus! {

/// No key occurs twice.
pub open spec fn keys_unique<K, V>(s: Seq<(K, V)>) -> bool {
    forall|i: int, j: int| 0 <= i < j < s.len() ==> s[i].0 != s[j].0
}

/// The map that a sequence of entries denotes.
pub open spec fn map_of<K, V>(s: Seq<(K, V)>) -> Map<K, V> {
    Map::new(
        |k: K| exists|i: int| 0 <= i < s.len() && s[i].0 == k,
        |k: K| s[choose|i: int| 0 <= i < s.len() && s[i].0 == k].1,
    )
}

/// The entries of `m` that `keep` accepts.
pub open spec fn map_filter<K, V>(m: Map<K, V>, keep: spec_fn(K, V) -> bool) -> Map<K, V> {
    Map::new(|k: K| m.contains_key(k) && keep(k, m[k]), |k: K| m[k])
}

pub proof fn lemma_map_of_at<K, V>(s: Seq<(K, V)>, i: int)
    requires
        keys_unique(s),
        0 <= i < s.len(),
    ensures
        map_of(s).contains_key(s[i].0),
        map_of(s)[s[i].0] == s[i].1,
{
    let k = s[i].0;
    assert(exists|j: int| 0 <= j < s.len() && s[j].0 == k);
    let j = choose|j: int| 0 <= j < s.len() && s[j].0 == k;
    assert(j == i);
}

pub proof fn lemma_map_of_index<K, V>(s: Seq<(K, V)>, k: K) -> (i: int)
    requires
        keys_unique(s),
        map_of(s).contains_key(k),
    ensures
        0 <= i < s.len(),
        s[i].0 == k,
        map_of(s)[k] == s[i].1,
{
    let i = choose|i: int| 0 <= i < s.len() && s[i].0 == k;
    lemma_map_of_at(s, i);
    i
}

pub proof fn lemma_map_of_update<K, V>(s: Seq<(K, V)>, i: int, x: (K, V))
    requires
        keys_unique(s),
        0 <= i < s.len(),
        x.0 == s[i].0,
    ensures
        keys_unique(s.update(i, x)),
        map_of(s.update(i, x)) == map_of(s).insert(x.0, x.1),
{
    let t = s.update(i, x);
    assert(keys_unique(t));
    assert forall|k: K| #[trigger] map_of(t).contains_key(k) == map_of(s).insert(x.0, x.1).contains_key(k) by {
        if map_of(s).contains_key(k) {
            let j = choose|j: int| 0 <= j < s.len() && s[j].0 == k;
            assert(t[j].0 == k);
        }
        if map_of(t).contains_key(k) {
            let j = choose|j: int| 0 <= j < t.len() && t[j].0 == k;
            assert(s[j].0 == k);
        }
    }
    assert forall|k: K| #[trigger] map_of(t).contains_key(k) implies map_of(t)[k] == map_of(s).insert(x.0, x.1)[k] by {
        let j = choose|j: int| 0 <= j < t.len() && t[j].0 == k;
        lemma_map_of_at(t, j);
        if j != i {
            lemma_map_of_at(s, j);
        }
    }
    assert(map_of(t) =~= map_of(s).insert(x.0, x.1));
}

pub proof fn lemma_map_of_push<K, V>(s: Seq<(K, V)>, x: (K, V))
    requires
        keys_unique(s),
        !map_of(s).contains_key(x.0),
    ensures
        keys_unique(s.push(x)),
        map_of(s.push(x)) == map_of(s).insert(x.0, x.1),
{
    let t = s.push(x);
    assert forall|i: int, j: int| 0 <= i < j < t.len() implies t[i].0 != t[j].0 by {
        if j == s.len() {
            assert(map_of(s).contains_key(s[i].0));
        }
    }
    assert forall|k: K| #[trigger] map_of(t).contains_key(k) == map_of(s).insert(x.0, x.1).contains_key(k) by {
        if map_of(s).contains_key(k) {
            let j = choose|j: int| 0 <= j < s.len() && s[j].0 == k;
            assert(t[j].0 == k);
        }
        if k == x.0 {
            assert(t[s.len() as int].0 == k);
        }
        if map_of(t).contains_key(k) {
            let j = choose|j: int| 0 <= j < t.len() && t[j].0 == k;
            if j < s.len() {
                assert(s[j].0 == k);
            }
        }
    }
    assert forall|k: K| #[trigger] map_of(t).contains_key(k) implies map_of(t)[k] == map_of(s).insert(x.0, x.1)[k] by {
        let j = choose|j: int| 0 <= j < t.len() && t[j].0 == k;
        lemma_map_of_at(t, j);
        if j < s.len() {
            lemma_map_of_at(s, j);
        }
    }
    assert(map_of(t) =~= map_of(s).insert(x.0, x.1));
}

pub proof fn lemma_map_of_empty<K, V>(s: Seq<(K, V)>)
    requires
        s.len() == 0,
    ensures
        keys_unique(s),
        map_of(s) == Map::<K, V>::empty(),
{
    assert(map_of(s) =~= Map::<K, V>::empty());
}

pub proof fn lemma_map_of_prefix<K, V>(s: Seq<(K, V)>, i: int)
    requires
        keys_unique(s),
        0 <= i < s.len(),
    ensures
        keys_unique(s.subrange(0, i)),
        keys_unique(s.subrange(0, i + 1)),
        !map_of(s.subrange(0, i)).contains_key(s[i].0),
        map_of(s.subrange(0, i + 1)) == map_of(s.subrange(0, i)).insert(s[i].0, s[i].1),
{
    let p = s.subrange(0, i);
    assert(s.subrange(0, i + 1) =~= p.push(s[i]));
    assert(keys_unique(p));
    if map_of(p).contains_key(s[i].0) {
        let j = choose|j: int| 0 <= j < p.len() && p[j].0 == s[i].0;
        assert(s[j].0 == s[i].0);
    }
    lemma_map_of_push(p, s[i]);
}

pub proof fn lemma_map_filter_insert<K, V>(m: Map<K, V>, k: K, v: V, keep: spec_fn(K, V) -> bool)
    requires
        !m.contains_key(k),
    ensures
        keep(k, v) ==> map_filter(m.insert(k, v), keep) == map_filter(m, keep).insert(k, v),
        !keep(k, v) ==> map_filter(m.insert(k, v), keep) == map_filter(m, keep),
        !map_filter(m, keep).contains_key(k),
{
    if keep(k, v) {
        assert(map_filter(m.insert(k, v), keep) =~= map_filter(m, keep).insert(k, v));
    } else {
        assert(map_filter(m.insert(k, v), keep) =~= map_filter(m, keep));
    }
}

pub proof fn lemma_map_filter_all<K, V>(m: Map<K, V>, keep: spec_fn(K, V) -> bool)
    ensures
        map_filter(Map::<K, V>::empty(), keep) == Map::<K, V>::empty(),
{
    assert(map_filter(Map::<K, V>::empty(), keep) =~= Map::<K, V>::empty());
}

pub proof fn lemma_to_set_push<T>(s: Seq<T>, x: T)
    ensures
        s.push(x).to_set() == s.to_set().insert(x),
{
    assert forall|y: T| #[trigger] s.push(x).to_set().contains(y) == s.to_set().insert(x).contains(y) by {
        if s.contains(y) {
            let j = choose|j: int| 0 <= j < s.len() && s[j] == y;
            assert(s.push(x)[j] == y);
        }
        if y == x {
            assert(s.push(x)[s.len() as int] == y);
        }
        if s.push(x).contains(y) {
            let j = choose|j: int| 0 <= j < s.len() + 1 && s.push(x)[j] == y;
            if j < s.len() {
                assert(s[j] == y);
            }
        }
    }
    assert(s.push(x).to_set() =~= s.to_set().insert(x));
}

pub proof fn lemma_to_set_prefix<T>(s: Seq<T>, i: int)
    requires
        0 <= i < s.len(),
    ensures
        s.subrange(0, i + 1).to_set() == s.subrange(0, i).to_set().insert(s[i]),
{
    assert(s.subrange(0, i + 1) =~= s.subrange(0, i).push(s[i]));
    lemma_to_set_push(s.subrange(0, i), s[i]);
}

pub proof fn lemma_to_set_empty<T>(s: Seq<T>)
    requires
        s.len() == 0,
    ensures
        s.to_set() == Set::<T>::empty(),
{
    assert(s.to_set() =~= Set::<T>::empty());
}

/// The entries of `s` with `g` applied to each value.
pub open spec fn map_vals<K, V, W>(s: Seq<(K, V)>, g: spec_fn(V) -> W) -> Seq<(K, W)> {
    s.map_values(|e: (K, V)| (e.0, g(e.1)))
}

pub proof fn lemma_map_vals<K, V, W>(s: Seq<(K, V)>, g: spec_fn(V) -> W)
    requires
        keys_unique(s),
    ensures
        keys_unique(map_vals(s, g)),
        map_of(map_vals(s, g)) == map_of(s).map_values(g),
{
    let t = map_vals(s, g);
    assert(keys_unique(t));
    assert forall|k: K| #[trigger] map_of(t).contains_key(k) == map_of(s).map_values(g).contains_key(k) by {
        if map_of(s).contains_key(k) {
            let j = choose|j: int| 0 <= j < s.len() && s[j].0 == k;
            assert(t[j].0 == k);
        }
        if map_of(t).contains_key(k) {
            let j = choose|j: int| 0 <= j < t.len() && t[j].0 == k;
            assert(s[j].0 == k);
        }
    }
    assert forall|k: K| #[trigger] map_of(t).contains_key(k) implies map_of(t)[k] == map_of(s).map_values(g)[k] by {
        let j = choose|j: int| 0 <= j < t.len() && t[j].0 == k;
        lemma_map_of_at(t, j);
        lemma_map_of_at(s, j);
    }
    assert(map_of(t) =~= map_of(s).map_values(g));
}

/// One step of rebuilding a sequence with only the entries that `keep` accepts.
pub proof fn lemma_filter_step<K, V>(s: Seq<(K, V)>, i: int, out: Seq<(K, V)>, keep: spec_fn(K, V) -> bool)
    requires
        keys_unique(s),
        keys_unique(out),
        0 <= i < s.len(),
        map_of(out) == map_filter(map_of(s.subrange(0, i)), keep),
    ensures
        keep(s[i].0, s[i].1) ==> keys_unique(out.push(s[i])) && map_of(out.push(s[i])) == map_filter(
            map_of(s.subrange(0, i + 1)),
            keep,
        ),
        !keep(s[i].0, s[i].1) ==> map_of(out) == map_filter(map_of(s.subrange(0, i + 1)), keep),
{
    lemma_map_of_prefix(s, i);
    lemma_map_filter_insert(map_of(s.subrange(0, i)), s[i].0, s[i].1, keep);
    if keep(s[i].0, s[i].1) {
        lemma_map_of_push(out, s[i]);
    }
}

pub proof fn lemma_map_filter_start<K, V>(s: Seq<(K, V)>, out: Seq<(K, V)>, keep: spec_fn(K, V) -> bool)
    requires
        out.len() == 0,
    ensures
        keys_unique(out),
        map_of(out) == map_filter(map_of(s.subrange(0, 0)), keep),
{
    lemma_map_of_empty(out);
    lemma_map_of_empty(s.subrange(0, 0));
    lemma_map_filter_all(map_of(s.subrange(0, 0)), keep);
}

pub proof fn lemma_map_of_remove_at<K, V>(s: Seq<(K, V)>, i: int)
    requires
        keys_unique(s),
        0 <= i < s.len(),
    ensures
        keys_unique(s.remove(i)),
        map_of(s.remove(i)) == map_of(s).remove(s[i].0),
{
    let t = s.remove(i);
    assert forall|a: int, b: int| 0 <= a < b < t.len() implies t[a].0 != t[b].0 by {
        let a2 = if a < i { a } else { a + 1 };
        let b2 = if b < i { b } else { b + 1 };
        assert(t[a] == s[a2] && t[b] == s[b2]);
    }
    assert forall|k: K| #[trigger] map_of(t).contains_key(k) == map_of(s).remove(s[i].0).contains_key(k) by {
        if map_of(s).contains_key(k) && k != s[i].0 {
            let j = choose|j: int| 0 <= j < s.len() && s[j].0 == k;
            if j < i {
                assert(t[j].0 == k);
            } else {
                assert(j != i);
                assert(t[j - 1].0 == k);
            }
        }
        if map_of(t).contains_key(k) {
            let j = choose|j: int| 0 <= j < t.len() && t[j].0 == k;
            let j2 = if j < i { j } else { j + 1 };
            assert(s[j2].0 == k);
            assert(j2 != i);
        }
    }
    assert forall|k: K| #[trigger] map_of(t).contains_key(k) implies map_of(t)[k] == map_of(s).remove(s[i].0)[k] by {
        let j = choose|j: int| 0 <= j < t.len() && t[j].0 == k;
        lemma_map_of_at(t, j);
        let j2 = if j < i { j } else { j + 1 };
        assert(t[j] == s[j2]);
        lemma_map_of_at(s, j2);
    }
    assert(map_of(t) =~= map_of(s).remove(s[i].0));
}

pub proof fn lemma_filter_insert<T>(s: Set<T>, x: T, f: spec_fn(T) -> bool)
    ensures
        f(x) ==> s.insert(x).filter(f) == s.filter(f).insert(x),
        !f(x) ==> s.insert(x).filter(f) == s.filter(f),
{
    if f(x) {
        assert(s.insert(x).filter(f) =~= s.filter(f).insert(x));
    } else {
        assert(s.insert(x).filter(f) =~= s.filter(f));
    }
}

/// The sum of `f` over the elements of `s`.
pub open spec fn sum_of<T>(s: Seq<T>, f: spec_fn(T) -> int) -> int
    decreases s.len(),
{
    if s.len() == 0 {
        0
    } else {
        sum_of(s.drop_last(), f) + f(s.last())
    }
}

pub proof fn lemma_sum_prefix<T>(s: Seq<T>, f: spec_fn(T) -> int, i: int)
    requires
        0 <= i < s.len(),
        forall|x: T| #[trigger] f(x) >= 0,
    ensures
        sum_of(s.subrange(0, i + 1), f) == sum_of(s.subrange(0, i), f) + f(s[i]),
        sum_of(s.subrange(0, i + 1), f) <= sum_of(s, f),
    decreases s.len(),
{
    assert(s.subrange(0, i + 1).drop_last() =~= s.subrange(0, i));
    if i + 1 < s.len() {
        lemma_sum_prefix(s.drop_last(), f, i);
        assert(s.drop_last().subrange(0, i + 1) =~= s.subrange(0, i + 1));
        assert(s.drop_last().subrange(0, i) =~= s.subrange(0, i));
    } else {
        assert(s.subrange(0, i + 1) =~= s);
    }
}

pub proof fn lemma_sum_full<T>(s: Seq<T>, f: spec_fn(T) -> int)
    ensures
        sum_of(s.subrange(0, s.len() as int), f) == sum_of(s, f),
        sum_of(s.subrange(0, 0), f) == 0,
{
    assert(s.subrange(0, s.len() as int) =~= s);
}

pub proof fn lemma_sum_nonneg<T>(s: Seq<T>, f: spec_fn(T) -> int)
    requires
        forall|x: T| #[trigger] f(x) >= 0,
    ensures
        sum_of(s, f) >= 0,
    decreases s.len(),
{
    if s.len() > 0 {
        lemma_sum_nonneg(s.drop_last(), f);
    }
}

} // verus!
