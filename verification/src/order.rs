//! Orders on the keys the library sorts by, and the sorted sequence of a set.
//!
//! Strings order by their characters, lexicographically by code point, which
//! is the order Rust gives `String` (UTF-8 preserves code point order).
use vstd::prelude::*;

verus! {

/// Lexicographic order on character sequences, by code point.
pub open spec fn seq_lt(a: Seq<char>, b: Seq<char>) -> bool
    decreases a.len(),
{
    if a.len() == 0 {
        b.len() > 0
    } else if b.len() == 0 {
        false
    } else if a[0] != b[0] {
        (a[0] as int) < (b[0] as int)
    } else {
        seq_lt(a.drop_first(), b.drop_first())
    }
}

/// A strict total order on `K`.
pub open spec fn strict_total<K>(lt: spec_fn(K, K) -> bool) -> bool {
    &&& forall|a: K| #![trigger lt(a, a)] !lt(a, a)
    &&& forall|a: K, b: K, c: K| #![trigger lt(a, b), lt(b, c)] lt(a, b) && lt(b, c) ==> lt(a, c)
    &&& forall|a: K, b: K| #![trigger lt(a, b)] a != b ==> lt(a, b) || lt(b, a)
}

/// Every element precedes every later one.
pub open spec fn strictly_sorted<K>(s: Seq<K>, lt: spec_fn(K, K) -> bool) -> bool {
    forall|i: int, j: int| 0 <= i < j < s.len() ==> lt(#[trigger] s[i], #[trigger] s[j])
}

/// The elements of `s` in ascending order: the one strictly sorted sequence
/// holding exactly them.
pub open spec fn sorted_seq_of<K>(s: Set<K>, lt: spec_fn(K, K) -> bool) -> Seq<K> {
    choose|q: Seq<K>| strictly_sorted(q, lt) && (forall|x: K| q.contains(x) <==> s.contains(x))
}

pub proof fn lemma_seq_lt_irreflexive(a: Seq<char>)
    ensures
        !seq_lt(a, a),
    decreases a.len(),
{
    if a.len() > 0 {
        lemma_seq_lt_irreflexive(a.drop_first());
    }
}

pub proof fn lemma_seq_lt_transitive(a: Seq<char>, b: Seq<char>, c: Seq<char>)
    requires
        seq_lt(a, b),
        seq_lt(b, c),
    ensures
        seq_lt(a, c),
    decreases a.len(),
{
    if a.len() > 0 && b.len() > 0 && c.len() > 0 {
        if a[0] == b[0] && b[0] == c[0] {
            lemma_seq_lt_transitive(a.drop_first(), b.drop_first(), c.drop_first());
        }
    }
}

pub proof fn lemma_seq_lt_total(a: Seq<char>, b: Seq<char>)
    requires
        a != b,
    ensures
        seq_lt(a, b) || seq_lt(b, a),
    decreases a.len(),
{
    if a.len() > 0 && b.len() > 0 {
        if a[0] == b[0] {
            if a.drop_first() == b.drop_first() {
                assert(a =~= seq![a[0]] + a.drop_first());
                assert(b =~= seq![b[0]] + b.drop_first());
            }
            lemma_seq_lt_total(a.drop_first(), b.drop_first());
        } else {
            assert((a[0] as int) != (b[0] as int));
        }
    } else if a.len() == 0 && b.len() == 0 {
        assert(a =~= b);
    }
}

/// `seq_lt` is a strict total order.
pub proof fn lemma_seq_lt_strict_total()
    ensures
        strict_total(|a: Seq<char>, b: Seq<char>| seq_lt(a, b)),
{
    assert forall|a: Seq<char>| !seq_lt(a, a) by {
        lemma_seq_lt_irreflexive(a);
    }
    assert forall|a: Seq<char>, b: Seq<char>, c: Seq<char>| seq_lt(a, b) && seq_lt(b, c) implies seq_lt(
        a,
        c,
    ) by {
        lemma_seq_lt_transitive(a, b, c);
    }
    assert forall|a: Seq<char>, b: Seq<char>| a != b implies seq_lt(a, b) || seq_lt(b, a) by {
        lemma_seq_lt_total(a, b);
    }
}

/// Two strictly sorted sequences holding the same elements are equal.
pub proof fn lemma_sorted_unique<K>(a: Seq<K>, b: Seq<K>, lt: spec_fn(K, K) -> bool)
    requires
        strict_total(lt),
        strictly_sorted(a, lt),
        strictly_sorted(b, lt),
        forall|x: K| a.contains(x) <==> b.contains(x),
    ensures
        a == b,
    decreases a.len(),
{
    if a.len() == 0 {
        if b.len() > 0 {
            assert(b.contains(b[0]));
        }
        assert(a =~= b);
    } else {
        assert(a.contains(a[0]));
        assert(b.len() > 0);
        assert(b.contains(b[0]));
        let j = choose|j: int| 0 <= j < b.len() && b[j] == a[0];
        let i = choose|i: int| 0 <= i < a.len() && a[i] == b[0];
        if a[0] != b[0] {
            assert(i > 0 && j > 0);
            assert(lt(a[0], a[i]));
            assert(lt(b[0], b[j]));
            assert(lt(a[0], a[0]));
        }
        let a1 = a.drop_first();
        let b1 = b.drop_first();
        assert forall|i: int, j: int| 0 <= i < j < a1.len() implies lt(#[trigger] a1[i], #[trigger] a1[j]) by {
            assert(a1[i] == a[i + 1] && a1[j] == a[j + 1]);
        }
        assert forall|i: int, j: int| 0 <= i < j < b1.len() implies lt(#[trigger] b1[i], #[trigger] b1[j]) by {
            assert(b1[i] == b[i + 1] && b1[j] == b[j + 1]);
        }
        assert forall|x: K| a1.contains(x) implies b1.contains(x) by {
            let k = choose|k: int| 0 <= k < a1.len() && a1[k] == x;
            assert(a[k + 1] == x);
            assert(lt(a[0], a[k + 1]));
            assert(b.contains(x));
            let m = choose|m: int| 0 <= m < b.len() && b[m] == x;
            if m == 0 {
                assert(lt(x, x));
            }
            assert(b1[m - 1] == x);
        }
        assert forall|x: K| b1.contains(x) implies a1.contains(x) by {
            let k = choose|k: int| 0 <= k < b1.len() && b1[k] == x;
            assert(b[k + 1] == x);
            assert(lt(b[0], b[k + 1]));
            assert(a.contains(x));
            let m = choose|m: int| 0 <= m < a.len() && a[m] == x;
            if m == 0 {
                assert(lt(x, x));
            }
            assert(a1[m - 1] == x);
        }
        lemma_sorted_unique(a1, b1, lt);
        assert(a =~= seq![a[0]] + a1);
        assert(b =~= seq![b[0]] + b1);
    }
}

/// `q` with `x` put in its place.
pub open spec fn insert_in_order<K>(q: Seq<K>, x: K, lt: spec_fn(K, K) -> bool) -> Seq<K>
    decreases q.len(),
{
    if q.len() == 0 {
        seq![x]
    } else if lt(x, q[0]) {
        seq![x] + q
    } else {
        seq![q[0]] + insert_in_order(q.drop_first(), x, lt)
    }
}

proof fn lemma_insert_in_order<K>(q: Seq<K>, x: K, lt: spec_fn(K, K) -> bool)
    requires
        strict_total(lt),
        strictly_sorted(q, lt),
        !q.contains(x),
    ensures
        strictly_sorted(insert_in_order(q, x, lt), lt),
        forall|y: K| #[trigger] insert_in_order(q, x, lt).contains(y) <==> (q.contains(y) || y == x),
    decreases q.len(),
{
    let r = insert_in_order(q, x, lt);
    if q.len() == 0 {
        assert(r[0] == x);
    } else if lt(x, q[0]) {
        assert forall|i: int, j: int| 0 <= i < j < r.len() implies lt(#[trigger] r[i], #[trigger] r[j]) by {
            assert(r[j] == q[j - 1]);
            if i == 0 {
                if j - 1 > 0 {
                    assert(lt(q[0], q[j - 1]));
                }
            } else {
                assert(r[i] == q[i - 1]);
            }
        }
        assert forall|y: K| #[trigger] r.contains(y) <==> (q.contains(y) || y == x) by {
            if r.contains(y) {
                let k = choose|k: int| 0 <= k < r.len() && r[k] == y;
                if k > 0 {
                    assert(q[k - 1] == y);
                }
            }
            if q.contains(y) {
                let k = choose|k: int| 0 <= k < q.len() && q[k] == y;
                assert(r[k + 1] == y);
            }
            if y == x {
                assert(r[0] == y);
            }
        }
    } else {
        assert(q.contains(q[0]));
        assert(lt(q[0], x));
        let q1 = q.drop_first();
        assert forall|i: int, j: int| 0 <= i < j < q1.len() implies lt(#[trigger] q1[i], #[trigger] q1[j]) by {
            assert(q1[i] == q[i + 1] && q1[j] == q[j + 1]);
        }
        if q1.contains(x) {
            let k = choose|k: int| 0 <= k < q1.len() && q1[k] == x;
            assert(q[k + 1] == x);
        }
        lemma_insert_in_order(q1, x, lt);
        let rest = insert_in_order(q1, x, lt);
        assert(r == seq![q[0]] + rest);
        assert forall|i: int, j: int| 0 <= i < j < r.len() implies lt(#[trigger] r[i], #[trigger] r[j]) by {
            assert(r[j] == rest[j - 1]);
            if i == 0 {
                assert(rest.contains(rest[j - 1]));
                if rest[j - 1] != x {
                    let k = choose|k: int| 0 <= k < q1.len() && q1[k] == rest[j - 1];
                    assert(q[k + 1] == rest[j - 1]);
                }
            } else {
                assert(r[i] == rest[i - 1]);
            }
        }
        assert forall|y: K| #[trigger] r.contains(y) <==> (q.contains(y) || y == x) by {
            if r.contains(y) {
                let k = choose|k: int| 0 <= k < r.len() && r[k] == y;
                if k > 0 {
                    assert(rest[k - 1] == y);
                    assert(rest.contains(y));
                    if y != x {
                        let m = choose|m: int| 0 <= m < q1.len() && q1[m] == y;
                        assert(q[m + 1] == y);
                    }
                }
            }
            if q.contains(y) {
                let k = choose|k: int| 0 <= k < q.len() && q[k] == y;
                if k == 0 {
                    assert(r[0] == y);
                } else {
                    assert(q1[k - 1] == y);
                    assert(rest.contains(y));
                    let m = choose|m: int| 0 <= m < rest.len() && rest[m] == y;
                    assert(r[m + 1] == y);
                }
            }
            if y == x {
                assert(rest.contains(x));
                let m = choose|m: int| 0 <= m < rest.len() && rest[m] == x;
                assert(r[m + 1] == x);
            }
        }
    }
}

/// A finite set under a strict total order has its sorted sequence.
pub proof fn lemma_sorted_seq_exists<K>(s: Set<K>, lt: spec_fn(K, K) -> bool)
    requires
        s.finite(),
        strict_total(lt),
    ensures
        strictly_sorted(sorted_seq_of(s, lt), lt),
        forall|x: K| #[trigger] sorted_seq_of(s, lt).contains(x) <==> s.contains(x),
    decreases s.len(),
{
    if s.len() == 0 {
        let q = Seq::<K>::empty();
        assert forall|x: K| q.contains(x) <==> s.contains(x) by {
            if s.contains(x) {
                assert(s.remove(x).len() < s.len());
            }
        }
        assert(strictly_sorted(q, lt) && (forall|x: K| q.contains(x) <==> s.contains(x)));
    } else {
        let x = s.choose();
        let rest = s.remove(x);
        lemma_sorted_seq_exists(rest, lt);
        let q = sorted_seq_of(rest, lt);
        lemma_insert_in_order(q, x, lt);
        let r = insert_in_order(q, x, lt);
        assert forall|y: K| r.contains(y) <==> s.contains(y) by {
            if y == x {
                assert(s.contains(x));
            }
        }
        assert(strictly_sorted(r, lt) && (forall|y: K| r.contains(y) <==> s.contains(y)));
    }
}

/// A strictly sorted sequence holding exactly the elements of `s` is the
/// sorted sequence of `s`.
pub proof fn lemma_sorted_seq_of<K>(q: Seq<K>, s: Set<K>, lt: spec_fn(K, K) -> bool)
    requires
        strict_total(lt),
        strictly_sorted(q, lt),
        forall|x: K| q.contains(x) <==> s.contains(x),
    ensures
        sorted_seq_of(s, lt) == q,
{
    let r = sorted_seq_of(s, lt);
    assert(strictly_sorted(r, lt) && (forall|x: K| r.contains(x) <==> s.contains(x)));
    lemma_sorted_unique(q, r, lt);
}

} // verus!

verus! {

/// The map a sequence of `(key, value)` pairs builds when each pair sets its
/// key, so a later pair for a key replaces an earlier one.
pub open spec fn pairs_map<K, V>(s: Seq<(K, V)>) -> Map<K, V>
    decreases s.len(),
{
    if s.len() == 0 {
        Map::empty()
    } else {
        pairs_map(s.drop_last()).insert(s.last().0, s.last().1)
    }
}

pub proof fn lemma_pairs_map_push<K, V>(s: Seq<(K, V)>, x: (K, V))
    ensures
        pairs_map(s.push(x)) == pairs_map(s).insert(x.0, x.1),
{
    assert(s.push(x).drop_last() =~= s);
}

/// A key is present exactly when some pair names it.
pub proof fn lemma_pairs_map_dom<K, V>(s: Seq<(K, V)>, k: K)
    ensures
        pairs_map(s).contains_key(k) <==> exists|i: int| 0 <= i < s.len() && (#[trigger] s[i]).0 == k,
    decreases s.len(),
{
    if s.len() > 0 {
        lemma_pairs_map_dom(s.drop_last(), k);
        if pairs_map(s.drop_last()).contains_key(k) {
            let i = choose|i: int| 0 <= i < s.drop_last().len() && (#[trigger] s.drop_last()[i]).0 == k;
            assert(s[i].0 == k);
        }
        if exists|i: int| 0 <= i < s.len() && (#[trigger] s[i]).0 == k {
            let i = choose|i: int| 0 <= i < s.len() && (#[trigger] s[i]).0 == k;
            if i < s.len() - 1 {
                assert(s.drop_last()[i].0 == k);
            }
        }
    }
}

/// With distinct keys, each pair's key maps to its value.
pub proof fn lemma_pairs_map_distinct<K, V>(s: Seq<(K, V)>, i: int)
    requires
        0 <= i < s.len(),
        forall|a: int, b: int| 0 <= a < b < s.len() ==> (#[trigger] s[a]).0 != (#[trigger] s[b]).0,
    ensures
        pairs_map(s).contains_key(s[i].0),
        pairs_map(s)[s[i].0] == s[i].1,
    decreases s.len(),
{
    if i < s.len() - 1 {
        lemma_pairs_map_distinct(s.drop_last(), i);
        assert(s.drop_last()[i] == s[i]);
        assert(s[i].0 != s[s.len() - 1].0);
    }
}

/// Ascending order on car numbers and seasons.
pub open spec fn car_lt() -> spec_fn(u16, u16) -> bool {
    |a: u16, b: u16| a < b
}

/// The ascending order on small integers is a strict total order.
pub proof fn lemma_u16_strict_total()
    ensures
        strict_total(car_lt()),
{
}

} // verus!

verus! {

/// No key appears twice.
pub open spec fn distinct_keys<K, V>(s: Seq<(K, V)>) -> bool {
    forall|a: int, b: int| 0 <= a < b < s.len() ==> (#[trigger] s[a]).0 != (#[trigger] s[b]).0
}

/// With distinct keys, replacing one pair's value updates the map there.
pub proof fn lemma_distinct_map_update<K, V>(s: Seq<(K, V)>, p: int, v: V)
    requires
        distinct_keys(s),
        0 <= p < s.len(),
    ensures
        pairs_map(s.update(p, (s[p].0, v))) == pairs_map(s).insert(s[p].0, v),
        distinct_keys(s.update(p, (s[p].0, v))),
{
    let t = s.update(p, (s[p].0, v));
    assert forall|a: int, b: int| 0 <= a < b < t.len() implies (#[trigger] t[a]).0 != (#[trigger] t[b]).0 by {
        assert(t[a].0 == s[a].0 && t[b].0 == s[b].0);
    }
    assert forall|k: K| pairs_map(t).contains_key(k) == pairs_map(s).insert(s[p].0, v).contains_key(k) by {
        lemma_pairs_map_dom(t, k);
        lemma_pairs_map_dom(s, k);
        if exists|i: int| 0 <= i < t.len() && (#[trigger] t[i]).0 == k {
            let i = choose|i: int| 0 <= i < t.len() && (#[trigger] t[i]).0 == k;
            assert(s[i].0 == k);
        }
        if exists|i: int| 0 <= i < s.len() && (#[trigger] s[i]).0 == k {
            let i = choose|i: int| 0 <= i < s.len() && (#[trigger] s[i]).0 == k;
            assert(t[i].0 == k);
        }
    }
    assert forall|k: K| #[trigger] pairs_map(t).contains_key(k) implies pairs_map(t)[k] == pairs_map(
        s,
    ).insert(s[p].0, v)[k] by {
        lemma_pairs_map_dom(t, k);
        let i = choose|i: int| 0 <= i < t.len() && (#[trigger] t[i]).0 == k;
        lemma_pairs_map_distinct(t, i);
        if i != p {
            lemma_pairs_map_distinct(s, i);
            assert(t[i] == s[i]);
        }
    }
    assert(pairs_map(t) =~= pairs_map(s).insert(s[p].0, v));
}

/// With distinct keys, inserting a pair for a new key anywhere adds it to the
/// map.
pub proof fn lemma_distinct_map_insert<K, V>(s: Seq<(K, V)>, p: int, x: (K, V))
    requires
        distinct_keys(s),
        0 <= p <= s.len(),
        forall|i: int| 0 <= i < s.len() ==> (#[trigger] s[i]).0 != x.0,
    ensures
        pairs_map(s.insert(p, x)) == pairs_map(s).insert(x.0, x.1),
        distinct_keys(s.insert(p, x)),
{
    let t = s.insert(p, x);
    assert forall|a: int, b: int| 0 <= a < b < t.len() implies (#[trigger] t[a]).0 != (#[trigger] t[b]).0 by {
        if a < p && b < p {
        } else if a < p && b == p {
        } else if a < p {
            assert(t[b] == s[b - 1]);
        } else if a == p {
            assert(t[b] == s[b - 1]);
        } else {
            assert(t[a] == s[a - 1] && t[b] == s[b - 1]);
        }
    }
    assert forall|k: K| pairs_map(t).contains_key(k) == pairs_map(s).insert(x.0, x.1).contains_key(k) by {
        lemma_pairs_map_dom(t, k);
        lemma_pairs_map_dom(s, k);
        if exists|i: int| 0 <= i < t.len() && (#[trigger] t[i]).0 == k {
            let i = choose|i: int| 0 <= i < t.len() && (#[trigger] t[i]).0 == k;
            if i < p {
                assert(s[i].0 == k);
            } else if i > p {
                assert(s[i - 1].0 == k);
            }
        }
        if exists|i: int| 0 <= i < s.len() && (#[trigger] s[i]).0 == k {
            let i = choose|i: int| 0 <= i < s.len() && (#[trigger] s[i]).0 == k;
            if i < p {
                assert(t[i].0 == k);
            } else {
                assert(t[i + 1].0 == k);
            }
        }
        if k == x.0 {
            assert(t[p].0 == k);
        }
    }
    assert forall|k: K| #[trigger] pairs_map(t).contains_key(k) implies pairs_map(t)[k] == pairs_map(
        s,
    ).insert(x.0, x.1)[k] by {
        lemma_pairs_map_dom(t, k);
        let i = choose|i: int| 0 <= i < t.len() && (#[trigger] t[i]).0 == k;
        lemma_pairs_map_distinct(t, i);
        if i < p {
            lemma_pairs_map_distinct(s, i);
        } else if i > p {
            lemma_pairs_map_distinct(s, i - 1);
            assert(t[i] == s[i - 1]);
        }
    }
    assert(pairs_map(t) =~= pairs_map(s).insert(x.0, x.1));
}

/// With distinct keys, appending a pair for a new key keeps them distinct.
pub proof fn lemma_distinct_push<K, V>(s: Seq<(K, V)>, x: (K, V))
    requires
        distinct_keys(s),
        forall|i: int| 0 <= i < s.len() ==> (#[trigger] s[i]).0 != x.0,
    ensures
        distinct_keys(s.push(x)),
        pairs_map(s.push(x)) == pairs_map(s).insert(x.0, x.1),
{
    lemma_distinct_map_insert(s, s.len() as int, x);
    assert(s.insert(s.len() as int, x) =~= s.push(x));
}

} // verus!

verus! {

/// The first index below `n` that satisfies `p`, if any.
pub open spec fn first_index(n: int, p: spec_fn(int) -> bool) -> Option<int>
    decreases n,
{
    if n <= 0 {
        None
    } else {
        match first_index(n - 1, p) {
            Some(i) => Some(i),
            None => if p(n - 1) {
                Some(n - 1)
            } else {
                None
            },
        }
    }
}

/// `first_index` finds the least index that satisfies `p`, or none below `n`.
pub proof fn lemma_first_index(n: int, p: spec_fn(int) -> bool)
    ensures
        match first_index(n, p) {
            Some(i) => 0 <= i < n && p(i) && forall|j: int| 0 <= j < i ==> !#[trigger] p(j),
            None => forall|j: int| 0 <= j < n ==> !#[trigger] p(j),
        },
    decreases n,
{
    if n > 0 {
        lemma_first_index(n - 1, p);
    }
}

/// An index that satisfies `p`, with none below it that does, is the one
/// `first_index` finds.
pub proof fn lemma_first_index_is(n: int, p: spec_fn(int) -> bool, i: int)
    requires
        0 <= i < n,
        p(i),
        forall|j: int| 0 <= j < i ==> !#[trigger] p(j),
    ensures
        first_index(n, p) == Some(i),
{
    lemma_first_index(n, p);
}

/// When no index below `n` satisfies `p`, `first_index` finds none.
pub proof fn lemma_first_index_none(n: int, p: spec_fn(int) -> bool)
    requires
        forall|j: int| 0 <= j < n ==> !#[trigger] p(j),
    ensures
        first_index(n, p) is None,
{
    lemma_first_index(n, p);
}

} // verus!
