//! Component allowances and the one rule the domain implements.
//!
//! Allowances are seeded from the regulations, never parsed from document
//! text, so the seed is complete from the first ingest. The domain implements
//! exactly one rule: a count above its allowance is an exceedance.
use vstd::prelude::*;

use crate::fact::ComponentCode;
use crate::order::seq_lt;
use crate::text::{str_eq, str_lt};

verus! {

/// The table a sequence of `(code, allowance)` rows builds: each row sets its
/// code, so a later row for a code replaces an earlier one.
pub open spec fn rows_map(rows: Seq<(Seq<char>, u32)>) -> Map<Seq<char>, u32>
    decreases rows.len(),
{
    if rows.len() == 0 {
        Map::empty()
    } else {
        rows_map(rows.drop_last()).insert(rows.last().0, rows.last().1)
    }
}

/// The rows of a vector, each code taken by its characters.
pub open spec fn rows_view(rows: Seq<(ComponentCode, u32)>) -> Seq<(Seq<char>, u32)> {
    rows.map_values(|row: (ComponentCode, u32)| (row.0@, row.1))
}

/// Codes strictly ascending, so each code holds one row.
pub open spec fn codes_ascending(rows: Seq<(Seq<char>, u32)>) -> bool {
    forall|i: int, j: int| 0 <= i < j < rows.len() ==> seq_lt((#[trigger] rows[i]).0, (#[trigger] rows[j]).0)
}

proof fn lemma_rows_map_ascending(rows: Seq<(Seq<char>, u32)>)
    requires
        codes_ascending(rows),
    ensures
        forall|x: Seq<char>| #[trigger] rows_map(rows).contains_key(x) <==> exists|i: int|
            0 <= i < rows.len() && (#[trigger] rows[i]).0 == x,
        forall|i: int| 0 <= i < rows.len() ==> rows_map(rows)[(#[trigger] rows[i]).0] == rows[i].1,
    decreases rows.len(),
{
    if rows.len() > 0 {
        let d = rows.drop_last();
        let l = rows.last();
        assert forall|i: int, j: int| 0 <= i < j < d.len() implies seq_lt((#[trigger] d[i]).0, (#[trigger] d[j]).0) by {
            assert(d[i] == rows[i] && d[j] == rows[j]);
        }
        lemma_rows_map_ascending(d);
        crate::order::lemma_seq_lt_irreflexive(l.0);
        assert forall|x: Seq<char>| #[trigger] rows_map(rows).contains_key(x) <==> exists|i: int|
            0 <= i < rows.len() && (#[trigger] rows[i]).0 == x by {
            if rows_map(d).contains_key(x) {
                let i = choose|i: int| 0 <= i < d.len() && (#[trigger] d[i]).0 == x;
                assert(rows[i] == d[i]);
            }
            if exists|i: int| 0 <= i < rows.len() && (#[trigger] rows[i]).0 == x {
                let i = choose|i: int| 0 <= i < rows.len() && (#[trigger] rows[i]).0 == x;
                if i < d.len() {
                    assert(d[i] == rows[i]);
                }
            }
        }
        assert forall|i: int| 0 <= i < rows.len() implies rows_map(rows)[(#[trigger] rows[i]).0] == rows[i].1 by {
            if i < d.len() {
                assert(d[i] == rows[i]);
                assert(seq_lt(rows[i].0, rows[rows.len() - 1].0));
                assert(rows[i].0 != l.0);
            }
        }
    }
}

/// Put `code`'s row in its place among rows ascending by code, replacing the
/// code's row if it has one.
fn put_row(out: &mut Vec<(ComponentCode, u32)>, code: ComponentCode, value: u32)
    requires
        codes_ascending(rows_view(old(out)@)),
    ensures
        codes_ascending(rows_view(final(out)@)),
        rows_map(rows_view(final(out)@)) == rows_map(rows_view(old(out)@)).insert(code@, value),
{
    let ghost o = rows_view(out@);
    let ghost c = code@;
    proof {
        crate::order::lemma_seq_lt_strict_total();
        lemma_rows_map_ascending(o);
    }
    let mut p: usize = 0;
    while p < out.len() && str_lt(out[p].0.as_str(), code.as_str())
        invariant
            p <= out@.len(),
            out@ == old(out)@,
            o == rows_view(out@),
            c == code@,
            forall|k: int| 0 <= k < p ==> seq_lt((#[trigger] o[k]).0, c),
        decreases out.len() - p,
    {
        p = p + 1;
    }
    if p < out.len() && str_eq(out[p].0.as_str(), code.as_str()) {
        out.set(p, (code, value));
        let ghost n = rows_view(out@);
        proof {
            assert(n =~= o.update(p as int, (c, value)));
            assert forall|i: int, j: int| 0 <= i < j < n.len() implies seq_lt((#[trigger] n[i]).0, (#[trigger] n[j]).0) by {
                assert(n[i].0 == o[i].0 && n[j].0 == o[j].0);
            }
            lemma_rows_map_ascending(n);
            let m0 = rows_map(o);
            let m1 = rows_map(n);
            assert forall|x: Seq<char>| #[trigger] m1.contains_key(x) == m0.insert(c, value).contains_key(x) by {
                if m1.contains_key(x) {
                    let i = choose|i: int| 0 <= i < n.len() && (#[trigger] n[i]).0 == x;
                    assert(o[i].0 == x);
                }
                if m0.contains_key(x) {
                    let i = choose|i: int| 0 <= i < o.len() && (#[trigger] o[i]).0 == x;
                    assert(n[i].0 == x);
                }
                if x == c {
                    assert(n[p as int].0 == x);
                }
            }
            assert forall|x: Seq<char>| m1.contains_key(x) implies #[trigger] m1[x] == m0.insert(c, value)[x] by {
                let i = choose|i: int| 0 <= i < n.len() && (#[trigger] n[i]).0 == x;
                assert(o[i].0 == x);
                assert(o[p as int].0 == c);
                if i != p {
                    assert(n[i] == o[i]);
                    if i < p {
                        assert(seq_lt(o[i].0, o[p as int].0));
                    } else {
                        assert(seq_lt(o[p as int].0, o[i].0));
                    }
                    crate::order::lemma_seq_lt_irreflexive(c);
                    assert(x != c);
                }
            }
            assert(m1 =~= m0.insert(c, value));
        }
    } else {
        out.insert(p, (code, value));
        let ghost n = rows_view(out@);
        proof {
            assert(n =~= o.insert(p as int, (c, value)));
            if p < o.len() {
                crate::order::lemma_seq_lt_total(o[p as int].0, c);
                assert(seq_lt(c, o[p as int].0));
            }
            assert forall|i: int, j: int| 0 <= i < j < n.len() implies seq_lt((#[trigger] n[i]).0, (#[trigger] n[j]).0) by {
                if j < p {
                    assert(n[i] == o[i] && n[j] == o[j]);
                } else if j == p {
                    assert(n[i] == o[i]);
                } else if i == p {
                    assert(n[j] == o[j - 1]);
                    if j - 1 > p {
                        assert(seq_lt(o[p as int].0, o[j - 1].0));
                        crate::order::lemma_seq_lt_transitive(c, o[p as int].0, o[j - 1].0);
                    }
                } else if i < p {
                    assert(n[i] == o[i] && n[j] == o[j - 1]);
                    assert(seq_lt(o[i].0, c));
                    if j - 1 >= p {
                        if j - 1 > p {
                            assert(seq_lt(o[p as int].0, o[j - 1].0));
                            crate::order::lemma_seq_lt_transitive(c, o[p as int].0, o[j - 1].0);
                        }
                        crate::order::lemma_seq_lt_transitive(o[i].0, c, o[j - 1].0);
                    }
                } else {
                    assert(n[i] == o[i - 1] && n[j] == o[j - 1]);
                }
            }
            lemma_rows_map_ascending(n);
            let m0 = rows_map(o);
            let m1 = rows_map(n);
            assert forall|x: Seq<char>| #[trigger] m1.contains_key(x) == m0.insert(c, value).contains_key(x) by {
                if m1.contains_key(x) {
                    let i = choose|i: int| 0 <= i < n.len() && (#[trigger] n[i]).0 == x;
                    if i < p {
                        assert(o[i].0 == x);
                    } else if i > p {
                        assert(o[i - 1].0 == x);
                    }
                }
                if m0.contains_key(x) {
                    let i = choose|i: int| 0 <= i < o.len() && (#[trigger] o[i]).0 == x;
                    if i < p {
                        assert(n[i].0 == x);
                    } else {
                        assert(n[i + 1].0 == x);
                    }
                }
                if x == c {
                    assert(n[p as int].0 == x);
                }
            }
            assert forall|x: Seq<char>| m1.contains_key(x) implies #[trigger] m1[x] == m0.insert(c, value)[x] by {
                let i = choose|i: int| 0 <= i < n.len() && (#[trigger] n[i]).0 == x;
                if i < p {
                    assert(n[i] == o[i]);
                    assert(seq_lt(o[i].0, c));
                    crate::order::lemma_seq_lt_irreflexive(c);
                } else if i > p {
                    assert(n[i] == o[i - 1]);
                    if i - 1 > p {
                        assert(seq_lt(o[p as int].0, o[i - 1].0));
                        crate::order::lemma_seq_lt_transitive(c, o[p as int].0, o[i - 1].0);
                    }
                    crate::order::lemma_seq_lt_irreflexive(c);
                }
            }
            assert(m1 =~= m0.insert(c, value));
        }
    }
}

/// One season's seeded allowance table: a component code maps to a permitted
/// count.
///
/// The season's valid components are exactly the rows present, so a lookup that
/// misses tells the sweep the component is unknown rather than assuming a
/// default.
#[derive(Debug, Clone, Default, PartialEq, Eq)]
pub struct Allowances {
    by_component: Vec<(ComponentCode, u32)>,
}

impl View for Allowances {
    type V = Map<Seq<char>, u32>;

    closed spec fn view(&self) -> Map<Seq<char>, u32> {
        rows_map(rows_view(self.by_component@))
    }
}

impl Allowances {
    /// Build an allowance table from `(component, allowance)` rows. A code
    /// repeated keeps its last row. The table keeps one row per code, codes
    /// ascending, so tables built from rows that give the same allowances are
    /// the same table, whatever the rows' order.
    pub fn from_rows(rows: Vec<(ComponentCode, u32)>) -> (r: Self)
        ensures
            r@ == rows_map(rows_view(rows@)),
            codes_ascending(r.rows()),
    {
        let mut by_component: Vec<(ComponentCode, u32)> = Vec::new();
        let mut i: usize = 0;
        while i < rows.len()
            invariant
                i <= rows@.len(),
                codes_ascending(rows_view(by_component@)),
                rows_map(rows_view(by_component@)) == rows_map(rows_view(rows@).take(i as int)),
            decreases rows.len() - i,
        {
            let code = rows[i].0.clone();
            let value = rows[i].1;
            put_row(&mut by_component, code, value);
            assert(rows_view(rows@).take(i + 1).drop_last() =~= rows_view(rows@).take(i as int));
            i = i + 1;
        }
        assert(rows_view(rows@).take(i as int) =~= rows_view(rows@));
        Allowances { by_component }
    }

    /// The table's rows as values, in the order it keeps them.
    pub closed spec fn rows(&self) -> Seq<(Seq<char>, u32)> {
        rows_view(self.by_component@)
    }

    /// Two tables that keep their rows ascending by code and give the same
    /// allowances keep the same rows, so they compare equal.
    pub proof fn lemma_same_allowances_same_rows(a: Self, b: Self)
        requires
            codes_ascending(a.rows()),
            codes_ascending(b.rows()),
            a@ == b@,
        ensures
            a.rows() == b.rows(),
    {
        let ra = a.rows();
        let rb = b.rows();
        let lt = |x: Seq<char>, y: Seq<char>| seq_lt(x, y);
        let ka = ra.map_values(|r: (Seq<char>, u32)| r.0);
        let kb = rb.map_values(|r: (Seq<char>, u32)| r.0);
        lemma_rows_map_ascending(ra);
        lemma_rows_map_ascending(rb);
        crate::order::lemma_seq_lt_strict_total();
        assert forall|i: int, j: int| 0 <= i < j < ka.len() implies lt(#[trigger] ka[i], #[trigger] ka[j]) by {
            assert(seq_lt(ra[i].0, ra[j].0));
        }
        assert forall|i: int, j: int| 0 <= i < j < kb.len() implies lt(#[trigger] kb[i], #[trigger] kb[j]) by {
            assert(seq_lt(rb[i].0, rb[j].0));
        }
        assert forall|x: Seq<char>| ka.contains(x) <==> kb.contains(x) by {
            if ka.contains(x) {
                let i = choose|i: int| 0 <= i < ka.len() && ka[i] == x;
                assert(ra[i].0 == x);
                assert(rows_map(rb).contains_key(x));
                let j = choose|j: int| 0 <= j < rb.len() && (#[trigger] rb[j]).0 == x;
                assert(kb[j] == x);
            }
            if kb.contains(x) {
                let i = choose|i: int| 0 <= i < kb.len() && kb[i] == x;
                assert(rb[i].0 == x);
                assert(rows_map(ra).contains_key(x));
                let j = choose|j: int| 0 <= j < ra.len() && (#[trigger] ra[j]).0 == x;
                assert(ka[j] == x);
            }
        }
        crate::order::lemma_sorted_unique(ka, kb, lt);
        assert forall|i: int| 0 <= i < ra.len() implies ra[i] == rb[i] by {
            assert(ka[i] == kb[i]);
            assert(rows_map(ra)[ra[i].0] == ra[i].1);
            assert(rows_map(rb)[rb[i].0] == rb[i].1);
        }
        assert(ra =~= rb);
    }

    /// The permitted count for a component, or `None` when the component is not
    /// seeded.
    pub fn allowance(&self, component: &ComponentCode) -> (r: Option<u32>)
        ensures
            r == (if self@.contains_key(component@) {
                Some(self@[component@])
            } else {
                None
            }),
    {
        let ghost rows = rows_view(self.by_component@);
        let mut i = self.by_component.len();
        assert(rows.take(i as int) =~= rows);
        while i > 0
            invariant
                i <= self.by_component@.len(),
                rows == rows_view(self.by_component@),
                rows_map(rows.take(i as int)).contains_key(component@) == rows_map(rows).contains_key(
                    component@,
                ),
                rows_map(rows.take(i as int))[component@] == rows_map(rows)[component@],
            decreases i,
        {
            let row = &self.by_component[i - 1];
            assert(rows.take(i as int).drop_last() =~= rows.take(i - 1));
            assert(rows.take(i as int).last() == rows[i - 1]);
            if crate::text::str_eq(row.0.as_str(), component.as_str()) {
                return Some(row.1);
            }
            i = i - 1;
        }
        assert(rows.take(0) =~= Seq::<(Seq<char>, u32)>::empty());
        None
    }

    /// Whether `count` exceeds the allowance: the single domain rule.
    ///
    /// `Some(true)` above the allowance, `Some(false)` at or below it, and
    /// `None` when the component is not seeded, so a caller cannot mistake an
    /// unknown component for a compliant one.
    pub fn exceeds(&self, component: &ComponentCode, count: u32) -> (r: Option<bool>)
        ensures
            r == (if self@.contains_key(component@) {
                Some(count > self@[component@])
            } else {
                None
            }),
    {
        match self.allowance(component) {
            Some(allowance) => Some(count > allowance),
            None => None,
        }
    }

    /// The 2026 regulation allowances: ICE, TC and EXH four each, MGU-K, ES and
    /// PU-CE three each, PU-ANC six.
    pub fn seed() -> (r: Self)
        ensures
            r@ == Map::<Seq<char>, u32>::empty().insert("ICE"@, 4).insert("TC"@, 4).insert(
                "EXH"@,
                4,
            ).insert("MGU-K"@, 3).insert("ES"@, 3).insert("PU-CE"@, 3).insert("PU-ANC"@, 6),
    {
        let rows = vec![
            (ComponentCode::new("ICE"), 4),
            (ComponentCode::new("TC"), 4),
            (ComponentCode::new("EXH"), 4),
            (ComponentCode::new("MGU-K"), 3),
            (ComponentCode::new("ES"), 3),
            (ComponentCode::new("PU-CE"), 3),
            (ComponentCode::new("PU-ANC"), 6),
        ];
        let ghost v = rows_view(rows@);
        let r = Self::from_rows(rows);
        proof {
            reveal_with_fuel(rows_map, 8);
            assert(v.drop_last().drop_last().drop_last().drop_last().drop_last().drop_last().drop_last()
                =~= Seq::<(Seq<char>, u32)>::empty());
        }
        r
    }
}

} // verus!
