//! The documents known to print a legend code their own table contradicts.
//!
//! The 2026 Monaco snapshot prints `EX` in its legend code cell while its
//! table header and the legend's own description both say `EXH`; the cell
//! survives from the previous season's template. Without a correction,
//! [`label_columns`](crate::label_columns) refuses the document rather than
//! pick one of the two spellings.
//!
//! `EX` is not a misprint of `EXH` everywhere: it is the live 2025 code for the
//! same physical part. So the season is the whole key. Within 2026 the rename
//! needs no round, because a correction whose code the legend does not print
//! stands down silently.
//!
//! A correction renames legend codes and nothing else: never counts, car
//! numbers or team names.
use vstd::prelude::*;

use crate::error::{LabelError, LabelErrorV};
use crate::fact::Season;
use crate::legend::{has_code, rename_spec, EntryV, Legend};

verus! {

/// A legend code a document prints, and the code it means.
#[derive(Debug, PartialEq, Eq)]
pub struct LegendRename {
    /// The stale code, exactly as the legend prints it.
    printed: String,
    /// The code the rest of the document uses.
    meant: String,
}

impl View for LegendRename {
    type V = (Seq<char>, Seq<char>);

    closed spec fn view(&self) -> (Seq<char>, Seq<char>) {
        (self.printed@, self.meant@)
    }
}

impl LegendRename {
    /// The stale code, exactly as the legend prints it.
    pub fn printed(&self) -> (r: &str)
        ensures
            r@ == self@.0,
    {
        self.printed.as_str()
    }

    /// The code the rest of the document uses.
    pub fn meant(&self) -> (r: &str)
        ensures
            r@ == self@.1,
    {
        self.meant.as_str()
    }
}

/// The renames as plain values.
pub open spec fn renames_view(v: Seq<LegendRename>) -> Seq<(Seq<char>, Seq<char>)> {
    v.map_values(|r: LegendRename| r@)
}

/// What one season's misprinted documents need before their columns can be
/// labelled. Obtainable only from [`for_season`] or [`known`].
#[derive(Debug, PartialEq, Eq)]
pub struct Correction {
    season: Season,
    renames: Vec<LegendRename>,
}

/// A correction as plain values: its season and its renames.
pub type CorrectionV = (Season, Seq<(Seq<char>, Seq<char>)>);

impl View for Correction {
    type V = CorrectionV;

    closed spec fn view(&self) -> CorrectionV {
        (self.season, renames_view(self.renames@))
    }
}

/// Every recorded correction.
///
/// 2026: the Monaco snapshot's legend prints `EX` where its header and its own
/// description say `EXH`. No other 2026 document prints `EX`, so the rename
/// stands down on all of them.
pub open spec fn known_spec() -> Seq<CorrectionV> {
    seq![(2026u16, seq![(seq!['E', 'X'], seq!['E', 'X', 'H'])])]
}

/// The legend after each rename in turn, and the refusal that stopped them,
/// if one did. A refusal leaves the renames before it applied.
pub open spec fn apply_spec(v: Seq<EntryV>, renames: Seq<(Seq<char>, Seq<char>)>) -> (
    Seq<EntryV>,
    Option<LabelErrorV>,
)
    decreases renames.len(),
{
    if renames.len() == 0 {
        (v, None)
    } else {
        let (printed, meant) = renames[0];
        if has_code(v, printed) && has_code(v, meant) {
            (v, Some(LabelErrorV::CorrectionWouldMergeCodes { printed, meant }))
        } else {
            apply_spec(rename_spec(v, printed, meant), renames.drop_first())
        }
    }
}

impl Correction {
    /// The season whose documents this correction applies to.
    pub fn season(&self) -> (r: Season)
        ensures
            r == self@.0,
    {
        self.season
    }

    /// The renames, in the order they apply.
    pub fn renames(&self) -> (r: &[LegendRename])
        ensures
            renames_view(r@) == self@.1,
    {
        self.renames.as_slice()
    }

    /// Rewrite the stale codes this correction names.
    ///
    /// A rename whose printed code the legend does not carry stands down, and
    /// the legend passes through untouched. A legend that declares the stale
    /// code and the code it means side by side refuses.
    pub fn apply(&self, legend: &mut Legend) -> (r: Result<(), LabelError>)
        ensures
            final(legend)@ == apply_spec(old(legend)@, self@.1).0,
            match r {
                Ok(()) => apply_spec(old(legend)@, self@.1).1 is None,
                Err(e) => apply_spec(old(legend)@, self@.1).1 == Some(e@),
            },
    {
        let ghost total = apply_spec(legend@, self@.1);
        assert(self@.1.skip(0) =~= self@.1);
        let mut i: usize = 0;
        while i < self.renames.len()
            invariant
                i <= self.renames@.len(),
                total == apply_spec(old(legend)@, self@.1),
                apply_spec(legend@, self@.1.skip(i as int)) == total,
            decreases self.renames@.len() - i,
        {
            let ghost rest = self@.1.skip(i as int);
            assert(rest[0] == self.renames@[i as int]@);
            assert(rest.drop_first() =~= self@.1.skip(i + 1));
            let rename = &self.renames[i];
            match legend.rename(rename.printed.as_str(), rename.meant.as_str()) {
                Ok(()) => {},
                Err(e) => {
                    return Err(e);
                },
            }
            i = i + 1;
        }
        assert(self@.1.skip(i as int) =~= Seq::empty());
        Ok(())
    }
}

/// The corrections as plain values.
pub open spec fn corrections_view(v: Seq<Correction>) -> Seq<CorrectionV> {
    v.map_values(|c: Correction| c@)
}

/// Every document known to print a legend code its own table contradicts, at
/// most one entry per season.
pub fn known() -> (r: Vec<Correction>)
    ensures
        corrections_view(r@) == known_spec(),
{
    let stale = LegendRename { printed: String::from_str("EX"), meant: String::from_str("EXH") };
    proof {
        reveal_strlit("EX");
        reveal_strlit("EXH");
        assert(stale@.0 =~= seq!['E', 'X']);
        assert(stale@.1 =~= seq!['E', 'X', 'H']);
    }
    let renames = vec![stale];
    let monaco = Correction { season: 2026, renames };
    assert(monaco@.1 =~= seq![(seq!['E', 'X'], seq!['E', 'X', 'H'])]);
    let r = vec![monaco];
    assert(corrections_view(r@) =~= known_spec());
    r
}

/// The correction that applies to a season's documents, if any.
///
/// The caller resolves this once and passes the result to
/// [`parse_snapshot`](crate::parse_snapshot) for every document of that
/// season. Passing it to a correctly printed document is safe: a rename whose
/// code the legend does not print stands down.
pub fn for_season(season: Season) -> (r: Option<Correction>)
    ensures
        match r {
            Some(c) => exists|i: int|
                0 <= i < known_spec().len() && #[trigger] known_spec()[i] == c@ && c@.0 == season
                    && forall|j: int| 0 <= j < i ==> (#[trigger] known_spec()[j]).0 != season,
            None => forall|i: int| 0 <= i < known_spec().len() ==> (#[trigger] known_spec()[i]).0 != season,
        },
{
    let mut all = known();
    let mut i: usize = 0;
    while i < all.len()
        invariant
            i <= all@.len(),
            corrections_view(all@) == known_spec(),
            forall|j: int| 0 <= j < i ==> (#[trigger] known_spec()[j]).0 != season,
        decreases all@.len() - i,
    {
        assert(known_spec()[i as int] == all@[i as int]@);
        if all[i].season == season {
            let found = all.remove(i);
            return Some(found);
        }
        i = i + 1;
    }
    None
}

/// No two recorded corrections name one season, so [`for_season`], which takes
/// the first match, reaches every entry.
pub proof fn lemma_known_seasons_distinct()
    ensures
        forall|i: int, j: int|
            0 <= i < j < known_spec().len() ==> (#[trigger] known_spec()[i]).0 != (
            #[trigger] known_spec()[j]).0,
{
}

/// Every recorded rename changes the code: a rename onto itself would refuse as
/// a merge on every legend that prints the code.
pub proof fn lemma_known_renames_change_the_code()
    ensures
        forall|i: int, k: int|
            0 <= i < known_spec().len() && 0 <= k < known_spec()[i].1.len() ==> (
            #[trigger] known_spec()[i].1[k]).0 != known_spec()[i].1[k].1,
{
    assert(seq!['E', 'X'].len() != seq!['E', 'X', 'H'].len());
}

/// A correction renames codes and nothing else: the legend it leaves keeps
/// every entry in place with its description, whether or not a rename refused.
pub proof fn lemma_corrections_touch_codes_only(v: Seq<EntryV>, renames: Seq<(Seq<char>, Seq<char>)>)
    ensures
        apply_spec(v, renames).0.len() == v.len(),
        forall|i: int| 0 <= i < v.len() ==> (#[trigger] apply_spec(v, renames).0[i]).1 == v[i].1,
    decreases renames.len(),
{
    if renames.len() > 0 {
        let (printed, meant) = renames[0];
        if !(has_code(v, printed) && has_code(v, meant)) {
            let w = rename_spec(v, printed, meant);
            assert(w.len() == v.len());
            assert forall|i: int| 0 <= i < v.len() implies #[trigger] w[i].1 == v[i].1 by {}
            lemma_corrections_touch_codes_only(w, renames.drop_first());
        }
    }
}

/// A correction stands down on a legend that prints none of the codes it
/// renames: the legend passes through untouched and nothing refuses.
pub proof fn lemma_correction_stands_down(v: Seq<EntryV>, renames: Seq<(Seq<char>, Seq<char>)>)
    requires
        forall|i: int| 0 <= i < renames.len() ==> !has_code(v, (#[trigger] renames[i]).0),
    ensures
        apply_spec(v, renames) == (v, None::<LabelErrorV>),
    decreases renames.len(),
{
    if renames.len() > 0 {
        assert(!has_code(v, renames[0].0));
        assert forall|i: int| 0 <= i < renames.drop_first().len() implies !has_code(
            v,
            (#[trigger] renames.drop_first()[i]).0,
        ) by {
            assert(renames.drop_first()[i] == renames[i + 1]);
        }
        lemma_correction_stands_down(v, renames.drop_first());
    }
}

} // verus!
