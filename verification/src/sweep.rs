//! The invariant sweep: the oracle that cross-checks facts against each other.
//!
//! Three independent documents state the same running count. The snapshot
//! publishes before an event, the new-elements document lands after it, and an
//! infringement restates the count of the element it penalizes. The sweep folds
//! the facts into per-component timelines and checks the oracle equations over
//! them, flagging every disagreement rather than guessing which witness is
//! right.
//!
//! It folds by seat, never by car number: a running count belongs to a team's
//! car entry. Each document seats on the roster of the event it describes: a
//! snapshot at event N states the count reached before N's own parts, so it
//! seats on the roster of N-1; the other documents describe N itself. The
//! season's first event has nothing before it, so a snapshot there seats on its
//! own roster.
//!
//! It runs over surviving facts only: a superseded fact is skipped.
//!
//! The printed team is checked by grouping alone: over the cars one document
//! lists, two printed under one string must be teammates in the roster it
//! seated on, and two printed under different strings must not be.
//!
//! The equations checked:
//!
//! - the count after an event equals the prior snapshot plus that event's new
//!   elements, and that count equals the next event's snapshot;
//! - the "previously used" figure equals the snapshot;
//! - the stated conformity matches the computed count-over-allowance flag;
//! - an infringement's stated ordinal equals the computed count after its event;
//! - the set of elements infringements penalize equals the set the new-elements
//!   document flags not in conformity;
//! - a document's team strings group the cars it lists the way the roster it
//!   seated on groups them.
use vstd::prelude::*;

use crate::allowance::Allowances;
use crate::fact::{Car, Claim, ComponentCode, Conformity, Fact, Round, Season, Team};
use crate::order::{car_lt, pairs_map, seq_lt, sorted_seq_of, strictly_sorted};
use crate::seat::{AmbV, Seat, SeatAmbiguity, SeatV, Seats};

verus! {

/// The first event of a season: the one a snapshot cannot look back past.
pub const FIRST_ROUND: Round = 1;

/// A disagreement the sweep found between independent witnesses.
///
/// Each variant names where the disagreement sits and the two figures that
/// clash, so a conflict is actionable and never a bare boolean.
#[derive(Debug, Clone, PartialEq, Eq)]
pub enum Conflict {
    /// The count after one event does not equal the next event's snapshot.
    SnapshotDisagreement {
        /// The seat whose totals clash.
        seat: Seat,
        /// The component whose totals clash.
        component: ComponentCode,
        /// The event whose computed count-after is under test.
        from_round: Round,
        /// The following event whose snapshot should match.
        to_round: Round,
        /// The computed count after `from_round`.
        count_after: u32,
        /// The snapshot the following event states.
        next_snapshot: u32,
    },
    /// A "previously used" figure does not equal the snapshot.
    PreviouslyUsedMismatch {
        /// The seat whose figures clash.
        seat: Seat,
        /// The component whose figures clash.
        component: ComponentCode,
        /// The event the document belongs to.
        round: Round,
        /// The "previously used" figure the document states.
        previously_used: u32,
        /// The snapshot for the same event.
        snapshot: u32,
    },
    /// A stated conformity disagrees with the computed count-over-allowance
    /// flag.
    StatedExceedanceMismatch {
        /// The seat under test.
        seat: Seat,
        /// The component under test.
        component: ComponentCode,
        /// The event the document belongs to.
        round: Round,
        /// Whether the document states the element is not in conformity.
        stated_not_in_conformity: bool,
        /// Whether the computed count exceeds the allowance.
        computed_exceeds: bool,
    },
    /// An infringement's stated ordinal does not equal the computed count after
    /// its event.
    OrdinalMismatch {
        /// The seat the infringement belongs to.
        seat: Seat,
        /// The penalized component.
        component: ComponentCode,
        /// The event the infringement belongs to.
        round: Round,
        /// The ordinal the infringement restates.
        stated_ordinal: u32,
        /// The computed count after the event.
        count_after: u32,
    },
    /// For one event, the elements infringements penalize differ from the
    /// elements the new-elements document flags not in conformity. Each side is
    /// a set of `(seat, component)` elements, in ascending order.
    PenalizedSetMismatch {
        /// The event.
        round: Round,
        /// The elements infringements penalize.
        penalized: Vec<(Seat, ComponentCode)>,
        /// The elements flagged not in conformity.
        not_in_conformity: Vec<(Seat, ComponentCode)>,
    },
    /// A fact references a component the allowances never seed.
    UnknownComponent {
        /// The unseeded component.
        component: ComponentCode,
    },
    /// The rosters seat no car of this number at the event the document
    /// describes. Reported once per `(document, car)`.
    UnknownSeat {
        /// The event the document belongs to.
        document_round: Round,
        /// The event whose roster the sweep consulted.
        roster_round: Round,
        /// The car number the document prints.
        car: Car,
    },
    /// The seat resolver could not pair a team's roster diff.
    AmbiguousSeat(SeatAmbiguity),
    /// A document's team strings group the cars it lists differently from the
    /// roster it seated on. Both sides hold the disagreeing cars only: the
    /// document's grouping by the string it prints, the roster's by the team it
    /// entered them for, each in ascending order of name and of car.
    TeamGroupingMismatch {
        /// The event the document belongs to.
        document_round: Round,
        /// The event whose roster the sweep consulted.
        roster_round: Round,
        /// The disagreeing cars under each printed team string.
        printed: Vec<(Team, Vec<Car>)>,
        /// The same cars, under the team the roster entered each for.
        entered: Vec<(Team, Vec<Car>)>,
    },
}

/// A `(seat, component)` element as values.
pub type SeriesV = (SeatV, Seq<char>);

/// A grouping as values: each name with its cars.
pub type GroupsV = Seq<(Seq<char>, Seq<Car>)>;

/// A conflict as values.
pub enum ConflictV {
    SnapshotDisagreement(SeatV, Seq<char>, Round, Round, u32, u32),
    PreviouslyUsedMismatch(SeatV, Seq<char>, Round, u32, u32),
    StatedExceedanceMismatch(SeatV, Seq<char>, Round, bool, bool),
    OrdinalMismatch(SeatV, Seq<char>, Round, u32, u32),
    PenalizedSetMismatch(Round, Seq<SeriesV>, Seq<SeriesV>),
    UnknownComponent(Seq<char>),
    UnknownSeat(Round, Round, Car),
    AmbiguousSeat(AmbV),
    TeamGroupingMismatch(Round, Round, GroupsV, GroupsV),
}

pub open spec fn series_view(v: Seq<(Seat, ComponentCode)>) -> Seq<SeriesV> {
    v.map_values(|e: (Seat, ComponentCode)| (e.0@, e.1@))
}

pub open spec fn groups_view(v: Seq<(Team, Vec<Car>)>) -> GroupsV {
    v.map_values(|e: (Team, Vec<Car>)| (e.0@, e.1@))
}

impl View for Conflict {
    type V = ConflictV;

    open spec fn view(&self) -> ConflictV {
        match self {
            Conflict::SnapshotDisagreement {
                seat,
                component,
                from_round,
                to_round,
                count_after,
                next_snapshot,
            } => ConflictV::SnapshotDisagreement(
                seat@,
                component@,
                *from_round,
                *to_round,
                *count_after,
                *next_snapshot,
            ),
            Conflict::PreviouslyUsedMismatch { seat, component, round, previously_used, snapshot } =>
                ConflictV::PreviouslyUsedMismatch(
                seat@,
                component@,
                *round,
                *previously_used,
                *snapshot,
            ),
            Conflict::StatedExceedanceMismatch {
                seat,
                component,
                round,
                stated_not_in_conformity,
                computed_exceeds,
            } => ConflictV::StatedExceedanceMismatch(
                seat@,
                component@,
                *round,
                *stated_not_in_conformity,
                *computed_exceeds,
            ),
            Conflict::OrdinalMismatch { seat, component, round, stated_ordinal, count_after } =>
                ConflictV::OrdinalMismatch(seat@, component@, *round, *stated_ordinal, *count_after),
            Conflict::PenalizedSetMismatch { round, penalized, not_in_conformity } =>
                ConflictV::PenalizedSetMismatch(
                *round,
                series_view(penalized@),
                series_view(not_in_conformity@),
            ),
            Conflict::UnknownComponent { component } => ConflictV::UnknownComponent(component@),
            Conflict::UnknownSeat { document_round, roster_round, car } => ConflictV::UnknownSeat(
                *document_round,
                *roster_round,
                *car,
            ),
            Conflict::AmbiguousSeat(a) => ConflictV::AmbiguousSeat(a@),
            Conflict::TeamGroupingMismatch { document_round, roster_round, printed, entered } =>
                ConflictV::TeamGroupingMismatch(
                *document_round,
                *roster_round,
                groups_view(printed@),
                groups_view(entered@),
            ),
        }
    }
}

/// A list of conflicts as values.
pub open spec fn conflicts_view(v: Seq<Conflict>) -> Seq<ConflictV> {
    v.map_values(|c: Conflict| c@)
}

// ---------------------------------------------------------------------------
// The model of one fact.
// ---------------------------------------------------------------------------
/// The event whose roster seats the car a fact's document prints: the event
/// before for a snapshot past the season's first event, its own otherwise.
pub open spec fn seating_round_spec(claim: Claim, round: Round) -> Round {
    match claim {
        Claim::SnapshotCount(_) => if round > FIRST_ROUND {
            (round - 1) as Round
        } else {
            round
        },
        _ => round,
    }
}

/// The key a fact's seat is looked up by.
pub open spec fn seat_key(f: Fact) -> (Season, Round, Car) {
    (f.season, seating_round_spec(f.claim, f.round), f.car)
}

/// A live fact the seat map seats.
pub open spec fn seated(sm: Map<(Season, Round, Car), SeatV>, f: Fact) -> bool {
    !f.superseded && sm.contains_key(seat_key(f))
}

/// A live fact the seat map cannot seat.
pub open spec fn unseated(sm: Map<(Season, Round, Car), SeatV>, f: Fact) -> bool {
    !f.superseded && !sm.contains_key(seat_key(f))
}

/// What an unseated fact is reported once per: its document and its car.
pub open spec fn doc_car(f: Fact) -> (Round, u32, Car) {
    (f.round, f.document, f.car)
}

/// One `UnknownSeat` per `(document, car)` the seat map cannot seat, in the
/// order the facts first name them.
pub open spec fn unknown_seats(fs: Seq<Fact>, sm: Map<(Season, Round, Car), SeatV>) -> Seq<ConflictV>
    decreases fs.len(),
{
    if fs.len() == 0 {
        Seq::empty()
    } else {
        let prev = unknown_seats(fs.drop_last(), sm);
        let f = fs.last();
        if unseated(sm, f) && !(exists|j: int|
            0 <= j < fs.len() - 1 && unseated(sm, #[trigger] fs[j]) && doc_car(fs[j]) == doc_car(f)) {
            prev.push(ConflictV::UnknownSeat(f.round, seating_round_spec(f.claim, f.round), f.car))
        } else {
            prev
        }
    }
}

// ---------------------------------------------------------------------------
// The model of the team grouping.
// ---------------------------------------------------------------------------
/// The unit the grouping is compared over: a document (its event and number)
/// read against one event's roster.
pub type ReadingKey = (Round, u32, Round);

/// The cars one reading puts under each `(printed team, entered team)` pair.
pub type CellsV = Map<(Seq<char>, Seq<char>), Set<Car>>;

pub open spec fn reading_key(f: Fact) -> ReadingKey {
    (f.round, f.document, seating_round_spec(f.claim, f.round))
}

/// Every reading's grouping, over the live, seated facts that print a team.
pub open spec fn readings_of(fs: Seq<Fact>, sm: Map<(Season, Round, Car), SeatV>) -> Map<ReadingKey, CellsV>
    decreases fs.len(),
{
    if fs.len() == 0 {
        Map::empty()
    } else {
        let prev = readings_of(fs.drop_last(), sm);
        let f = fs.last();
        if seated(sm, f) && f.printed_team.is_some() {
            let rk = reading_key(f);
            let cells = if prev.contains_key(rk) {
                prev[rk]
            } else {
                Map::empty()
            };
            let pair = (f.printed_team.unwrap()@, sm[seat_key(f)].1);
            let cars = if cells.contains_key(pair) {
                cells[pair]
            } else {
                Set::empty()
            };
            prev.insert(rk, cells.insert(pair, cars.insert(f.car)))
        } else {
            prev
        }
    }
}

/// A printed string covering more than one entered team.
pub open spec fn merging(c: CellsV, p: Seq<char>) -> bool {
    exists|e1: Seq<char>, e2: Seq<char>|
        e1 != e2 && #[trigger] c.contains_key((p, e1)) && #[trigger] c.contains_key((p, e2))
}

/// An entered team split across more than one printed string.
pub open spec fn splitting(c: CellsV, e: Seq<char>) -> bool {
    exists|p1: Seq<char>, p2: Seq<char>|
        p1 != p2 && #[trigger] c.contains_key((p1, e)) && #[trigger] c.contains_key((p2, e))
}

/// A cell that breaks the one-to-one correspondence.
pub open spec fn flagged(c: CellsV, p: Seq<char>, e: Seq<char>) -> bool {
    c.contains_key((p, e)) && (merging(c, p) || splitting(c, e))
}

/// The disagreeing cars under each printed string.
pub open spec fn printed_groups(c: CellsV) -> Map<Seq<char>, Set<Car>> {
    Map::new(
        |p: Seq<char>| exists|e: Seq<char>| flagged(c, p, e),
        |p: Seq<char>| Set::new(|car: Car| exists|e: Seq<char>| flagged(c, p, e) && c[(p, e)].contains(car)),
    )
}

/// The disagreeing cars under each entered team.
pub open spec fn entered_groups(c: CellsV) -> Map<Seq<char>, Set<Car>> {
    Map::new(
        |e: Seq<char>| exists|p: Seq<char>| flagged(c, p, e),
        |e: Seq<char>| Set::new(|car: Car| exists|p: Seq<char>| flagged(c, p, e) && c[(p, e)].contains(car)),
    )
}

pub open spec fn name_lt() -> spec_fn(Seq<char>, Seq<char>) -> bool {
    |a: Seq<char>, b: Seq<char>| seq_lt(a, b)
}

/// A grouping as its names in ascending order, each with its cars ascending.
pub open spec fn sorted_groups(m: Map<Seq<char>, Set<Car>>) -> GroupsV {
    sorted_seq_of(m.dom(), name_lt()).map_values(
        |p: Seq<char>| (p, sorted_seq_of(m[p], car_lt())),
    )
}

/// The conflict one reading raises, if its two groupings disagree.
pub open spec fn grouping_conflict_spec(rk: ReadingKey, c: CellsV) -> Option<ConflictV> {
    if exists|p: Seq<char>, e: Seq<char>| flagged(c, p, e) {
        Some(
            ConflictV::TeamGroupingMismatch(
                rk.0,
                rk.2,
                sorted_groups(printed_groups(c)),
                sorted_groups(entered_groups(c)),
            ),
        )
    } else {
        None
    }
}

/// The order readings are reported in.
pub open spec fn rk_less(a: ReadingKey, b: ReadingKey) -> bool {
    a.0 < b.0 || (a.0 == b.0 && (a.1 < b.1 || (a.1 == b.1 && a.2 < b.2)))
}

pub open spec fn rk_lt() -> spec_fn(ReadingKey, ReadingKey) -> bool {
    |a: ReadingKey, b: ReadingKey| rk_less(a, b)
}

/// The grouping conflicts of the readings in `keys`, in that order.
pub open spec fn grouping_list(rs: Map<ReadingKey, CellsV>, keys: Seq<ReadingKey>) -> Seq<ConflictV>
    decreases keys.len(),
{
    if keys.len() == 0 {
        Seq::empty()
    } else {
        let prev = grouping_list(rs, keys.drop_last());
        match grouping_conflict_spec(keys.last(), rs[keys.last()]) {
            Some(c) => prev.push(c),
            None => prev,
        }
    }
}

// ---------------------------------------------------------------------------
// The model of the timelines.
// ---------------------------------------------------------------------------
/// What every claim about one `(seat, component)` at one event folds to:
/// snapshot, fitted count, conformity, previously used, stated ordinal, and
/// whether an infringement penalized it.
pub type DataV = (Option<u32>, Option<u32>, Option<Conformity>, Option<u32>, Option<u32>, bool);

/// A timeline cell's key: the seat, the component, the event.
pub type CellKey = (Season, Seq<char>, u8, Seq<char>, Round);

pub open spec fn empty_data() -> DataV {
    (None, None, None, None, None, false)
}

/// Fold one claim into an event's data.
pub open spec fn absorb_spec(d: DataV, c: Claim) -> DataV {
    match c {
        Claim::SnapshotCount(n) => (Some(n), d.1, d.2, d.3, d.4, d.5),
        Claim::ElementsFitted { count, conformity } => (d.0, Some(count), Some(conformity), d.3, d.4, d.5),
        Claim::PreviouslyUsed(n) => (d.0, d.1, d.2, Some(n), d.4, d.5),
        Claim::StatedOrdinal(n) => (d.0, d.1, d.2, d.3, Some(n), d.5),
        Claim::Penalty(_) => (d.0, d.1, d.2, d.3, d.4, true),
    }
}

pub open spec fn sat_add(a: u32, b: u32) -> u32 {
    if a + b > u32::MAX {
        u32::MAX
    } else {
        (a + b) as u32
    }
}

/// The count after the event: the snapshot plus this event's fitted parts,
/// when a snapshot anchors the event.
pub open spec fn count_after_spec(d: DataV) -> Option<u32> {
    match d.0 {
        Some(s) => Some(
            sat_add(
                s,
                match d.1 {
                    Some(f) => f,
                    None => 0,
                },
            ),
        ),
        None => None,
    }
}

pub open spec fn cell_key_of(seat: SeatV, f: Fact) -> CellKey {
    (seat.0, seat.1, seat.2, f.component@, f.round)
}

/// Every seated cell's data, folded over the live facts in order.
pub open spec fn timelines_of(fs: Seq<Fact>, sm: Map<(Season, Round, Car), SeatV>) -> Map<CellKey, DataV>
    decreases fs.len(),
{
    if fs.len() == 0 {
        Map::empty()
    } else {
        let prev = timelines_of(fs.drop_last(), sm);
        let f = fs.last();
        if seated(sm, f) {
            let k = cell_key_of(sm[seat_key(f)], f);
            let d = if prev.contains_key(k) {
                prev[k]
            } else {
                empty_data()
            };
            prev.insert(k, absorb_spec(d, f.claim))
        } else {
            prev
        }
    }
}

/// The order timeline cells are visited in: seat (season, team, slot), then
/// component, then event.
pub open spec fn cell_less(a: CellKey, b: CellKey) -> bool {
    a.0 < b.0 || (a.0 == b.0 && (seq_lt(a.1, b.1) || (a.1 == b.1 && (a.2 < b.2 || (a.2 == b.2 && (
    seq_lt(a.3, b.3) || (a.3 == b.3 && a.4 < b.4)))))))
}

pub open spec fn cell_lt() -> spec_fn(CellKey, CellKey) -> bool {
    |a: CellKey, b: CellKey| cell_less(a, b)
}

pub open spec fn seat_of_key(k: CellKey) -> SeatV {
    (k.0, k.1, k.2)
}

/// An unseeded component, reported at the first cell naming it.
pub open spec fn unknown_part(ks: Seq<CellKey>, i: int, a: Map<Seq<char>, u32>) -> Seq<ConflictV> {
    let k = ks[i];
    if !a.contains_key(k.3) && !(exists|j: int| 0 <= j < i && (#[trigger] ks[j]).3 == k.3) {
        seq![ConflictV::UnknownComponent(k.3)]
    } else {
        Seq::empty()
    }
}

/// A previously-used figure against the snapshot.
pub open spec fn prev_used_part(t: Map<CellKey, DataV>, k: CellKey) -> Seq<ConflictV> {
    let d = t[k];
    match (d.3, d.0) {
        (Some(pu), Some(sn)) => if pu != sn {
            seq![ConflictV::PreviouslyUsedMismatch(seat_of_key(k), k.3, k.4, pu, sn)]
        } else {
            Seq::empty()
        },
        _ => Seq::empty(),
    }
}

/// A stated conformity against the computed exceedance, for a seeded
/// component.
pub open spec fn exceed_part(t: Map<CellKey, DataV>, k: CellKey, a: Map<Seq<char>, u32>) -> Seq<ConflictV> {
    let d = t[k];
    match (d.2, count_after_spec(d)) {
        (Some(cf), Some(ca)) => if a.contains_key(k.3) && ((cf == Conformity::NotInConformity) != (ca
            > a[k.3])) {
            seq![
                ConflictV::StatedExceedanceMismatch(
                    seat_of_key(k),
                    k.3,
                    k.4,
                    cf == Conformity::NotInConformity,
                    ca > a[k.3],
                ),
            ]
        } else {
            Seq::empty()
        },
        _ => Seq::empty(),
    }
}

/// A stated ordinal against the count after.
pub open spec fn ordinal_part(t: Map<CellKey, DataV>, k: CellKey) -> Seq<ConflictV> {
    let d = t[k];
    match (d.4, count_after_spec(d)) {
        (Some(o), Some(ca)) => if o != ca {
            seq![ConflictV::OrdinalMismatch(seat_of_key(k), k.3, k.4, o, ca)]
        } else {
            Seq::empty()
        },
        _ => Seq::empty(),
    }
}

/// The conflicts one cell proves on its own: an unseeded component (reported
/// at the first cell naming it), a previously-used figure against the
/// snapshot, a stated conformity against the computed exceedance, and a stated
/// ordinal against the count after.
pub open spec fn cell_local(t: Map<CellKey, DataV>, ks: Seq<CellKey>, i: int, a: Map<Seq<char>, u32>) -> Seq<ConflictV> {
    unknown_part(ks, i, a) + prev_used_part(t, ks[i]) + exceed_part(t, ks[i], a) + ordinal_part(t, ks[i])
}

/// The local conflicts of the first `n` cells.
pub open spec fn local_upto(t: Map<CellKey, DataV>, ks: Seq<CellKey>, a: Map<Seq<char>, u32>, n: int) -> Seq<
    ConflictV,
>
    decreases n,
{
    if n <= 0 {
        Seq::empty()
    } else {
        local_upto(t, ks, a, n - 1) + cell_local(t, ks, n - 1, a)
    }
}

/// The disagreement between cell `i` and the next, when both belong to one
/// `(seat, component)` and the count after the first differs from the
/// second's snapshot.
pub open spec fn snap_pair(t: Map<CellKey, DataV>, ks: Seq<CellKey>, i: int) -> Seq<ConflictV> {
    if i + 1 < ks.len() {
        let a = ks[i];
        let b = ks[i + 1];
        if a.0 == b.0 && a.1 == b.1 && a.2 == b.2 && a.3 == b.3 {
            match (count_after_spec(t[a]), t[b].0) {
                (Some(ca), Some(ns)) => if ca != ns {
                    seq![ConflictV::SnapshotDisagreement(seat_of_key(a), a.3, a.4, b.4, ca, ns)]
                } else {
                    Seq::empty()
                },
                _ => Seq::empty(),
            }
        } else {
            Seq::empty()
        }
    } else {
        Seq::empty()
    }
}

pub open spec fn snap_upto(t: Map<CellKey, DataV>, ks: Seq<CellKey>, n: int) -> Seq<ConflictV>
    decreases n,
{
    if n <= 0 {
        Seq::empty()
    } else {
        snap_upto(t, ks, n - 1) + snap_pair(t, ks, n - 1)
    }
}

/// The elements at event `r`, among the first `n` cells, whose data carries
/// the flag `pen` picks: penalized, or flagged not in conformity.
pub open spec fn flagged_at(t: Map<CellKey, DataV>, ks: Seq<CellKey>, r: Round, pen: bool, n: int) -> Seq<SeriesV>
    decreases n,
{
    if n <= 0 {
        Seq::empty()
    } else {
        let prev = flagged_at(t, ks, r, pen, n - 1);
        let k = ks[n - 1];
        let on = if pen {
            t[k].5
        } else {
            t[k].2 == Some(Conformity::NotInConformity)
        };
        if k.4 == r && on {
            prev.push((seat_of_key(k), k.3))
        } else {
            prev
        }
    }
}

/// The per-event equation over the events below `n`.
pub open spec fn pen_upto(t: Map<CellKey, DataV>, ks: Seq<CellKey>, n: int) -> Seq<ConflictV>
    decreases n,
{
    if n <= 0 {
        Seq::empty()
    } else {
        let prev = pen_upto(t, ks, n - 1);
        let r = (n - 1) as Round;
        let p = flagged_at(t, ks, r, true, ks.len() as int);
        let q = flagged_at(t, ks, r, false, ks.len() as int);
        if p != q {
            prev.push(ConflictV::PenalizedSetMismatch(r, p, q))
        } else {
            prev
        }
    }
}

/// Everything `sweep` reports, in order: the resolver's ambiguities, the
/// unseated facts, the grouping disagreements, the per-event equations, the
/// snapshot chain, and the penalized sets.
pub open spec fn sweep_spec(
    fs: Seq<Fact>,
    a: Map<Seq<char>, u32>,
    sm: Map<(Season, Round, Car), SeatV>,
    ambs: Seq<AmbV>,
) -> Seq<ConflictV> {
    let rs = readings_of(fs, sm);
    let t = timelines_of(fs, sm);
    let ks = sorted_seq_of(t.dom(), cell_lt());
    ambs.map_values(|x: AmbV| ConflictV::AmbiguousSeat(x)) + unknown_seats(fs, sm) + grouping_list(
        rs,
        sorted_seq_of(rs.dom(), rk_lt()),
    ) + local_upto(t, ks, a, ks.len() as int) + snap_upto(t, ks, ks.len() as int) + pen_upto(
        t,
        ks,
        256,
    )
}


// ---------------------------------------------------------------------------
// Superseded facts never reach the sweep.
// ---------------------------------------------------------------------------
/// A fact no corrected document has superseded.
pub open spec fn is_live() -> spec_fn(Fact) -> bool {
    |f: Fact| !f.superseded
}

proof fn lemma_filter_last(fs: Seq<Fact>)
    requires
        fs.len() > 0,
    ensures
        fs.filter(is_live()) == if !fs.last().superseded {
            fs.drop_last().filter(is_live()).push(fs.last())
        } else {
            fs.drop_last().filter(is_live())
        },
{
    fs.drop_last().lemma_filter_push(fs.last(), is_live());
    assert(fs.drop_last().push(fs.last()) =~= fs);
}

proof fn lemma_readings_live(fs: Seq<Fact>, sm: Map<(Season, Round, Car), SeatV>)
    ensures
        readings_of(fs, sm) == readings_of(fs.filter(is_live()), sm),
    decreases fs.len(),
{
    if fs.len() > 0 {
        lemma_readings_live(fs.drop_last(), sm);
        lemma_filter_last(fs);
        let g = fs.drop_last().filter(is_live());
        if !fs.last().superseded {
            assert(g.push(fs.last()).drop_last() =~= g);
        }
    }
}

proof fn lemma_timelines_live(fs: Seq<Fact>, sm: Map<(Season, Round, Car), SeatV>)
    ensures
        timelines_of(fs, sm) == timelines_of(fs.filter(is_live()), sm),
    decreases fs.len(),
{
    if fs.len() > 0 {
        lemma_timelines_live(fs.drop_last(), sm);
        lemma_filter_last(fs);
        let g = fs.drop_last().filter(is_live());
        if !fs.last().superseded {
            assert(g.push(fs.last()).drop_last() =~= g);
        }
    }
}

proof fn lemma_unknown_live(fs: Seq<Fact>, sm: Map<(Season, Round, Car), SeatV>)
    ensures
        unknown_seats(fs, sm) == unknown_seats(fs.filter(is_live()), sm),
    decreases fs.len(),
{
    if fs.len() > 0 {
        lemma_unknown_live(fs.drop_last(), sm);
        lemma_filter_last(fs);
        let d = fs.drop_last();
        let g = d.filter(is_live());
        let f = fs.last();
        if !f.superseded {
            let h = g.push(f);
            assert(h.drop_last() =~= g);
            assert(h.last() == f);
            let before = exists|j: int|
                0 <= j < fs.len() - 1 && unseated(sm, #[trigger] fs[j]) && doc_car(fs[j])
                    == doc_car(f);
            let after = exists|j: int|
                0 <= j < h.len() - 1 && unseated(sm, #[trigger] h[j]) && doc_car(h[j]) == doc_car(f);
            if before {
                let j = choose|j: int|
                    0 <= j < fs.len() - 1 && unseated(sm, #[trigger] fs[j]) && doc_car(fs[j])
                        == doc_car(f);
                assert(d[j] == fs[j]);
                d.lemma_filter_contains(is_live(), j);
                let k = choose|k: int| 0 <= k < g.len() && g[k] == d[j];
                assert(h[k] == g[k]);
                assert(after);
            }
            if after {
                let k = choose|k: int|
                    0 <= k < h.len() - 1 && unseated(sm, #[trigger] h[k]) && doc_car(h[k]) == doc_car(f);
                assert(h[k] == g[k]);
                assert(g.contains(g[k]));
                d.lemma_filter_contains_rev(is_live(), g[k]);
                let j = choose|j: int| 0 <= j < d.len() && d[j] == g[k];
                assert(fs[j] == d[j]);
                assert(before);
            }
        }
    }
}

/// The sweep runs over surviving facts only: dropping every superseded fact
/// from its input leaves what it reports unchanged, so a correction is the
/// expected outcome and never a conflict.
pub proof fn lemma_sweep_ignores_superseded(
    fs: Seq<Fact>,
    a: Map<Seq<char>, u32>,
    sm: Map<(Season, Round, Car), SeatV>,
    ambs: Seq<AmbV>,
)
    ensures
        sweep_spec(fs, a, sm, ambs) == sweep_spec(fs.filter(is_live()), a, sm, ambs),
{
    lemma_readings_live(fs, sm);
    lemma_timelines_live(fs, sm);
    lemma_unknown_live(fs, sm);
}

// ---------------------------------------------------------------------------
// Facts the seat map cannot seat.
// ---------------------------------------------------------------------------
/// A live fact the seat map seats, as a filter.
pub open spec fn is_seated(sm: Map<(Season, Round, Car), SeatV>) -> spec_fn(Fact) -> bool {
    |f: Fact| seated(sm, f)
}

proof fn lemma_filter_last_seated(fs: Seq<Fact>, sm: Map<(Season, Round, Car), SeatV>)
    requires
        fs.len() > 0,
    ensures
        fs.filter(is_seated(sm)) == if seated(sm, fs.last()) {
            fs.drop_last().filter(is_seated(sm)).push(fs.last())
        } else {
            fs.drop_last().filter(is_seated(sm))
        },
{
    fs.drop_last().lemma_filter_push(fs.last(), is_seated(sm));
    assert(fs.drop_last().push(fs.last()) =~= fs);
}

/// A fact the seat map cannot seat joins no timeline and no team grouping:
/// keeping only the seated facts leaves both unchanged.
pub proof fn lemma_unseated_join_nothing(fs: Seq<Fact>, sm: Map<(Season, Round, Car), SeatV>)
    ensures
        timelines_of(fs, sm) == timelines_of(fs.filter(is_seated(sm)), sm),
        readings_of(fs, sm) == readings_of(fs.filter(is_seated(sm)), sm),
    decreases fs.len(),
{
    if fs.len() > 0 {
        lemma_unseated_join_nothing(fs.drop_last(), sm);
        lemma_filter_last_seated(fs, sm);
        let g = fs.drop_last().filter(is_seated(sm));
        if seated(sm, fs.last()) {
            assert(g.push(fs.last()).drop_last() =~= g);
        }
    }
}

/// Fact `j` is the first the seat map cannot seat for its document and car.
pub open spec fn first_unseated(fs: Seq<Fact>, sm: Map<(Season, Round, Car), SeatV>, j: int) -> bool {
    &&& 0 <= j < fs.len()
    &&& unseated(sm, fs[j])
    &&& !(exists|i: int| 0 <= i < j && unseated(sm, #[trigger] fs[i]) && doc_car(fs[i]) == doc_car(fs[j]))
}

/// The conflict a fact the seat map cannot seat is reported as.
pub open spec fn unknown_seat_of(f: Fact) -> ConflictV {
    ConflictV::UnknownSeat(f.round, seating_round_spec(f.claim, f.round), f.car)
}

/// `idx` lists, ascending, the facts that are first unseated for their
/// document and car, and the unknown seats are theirs, in that order.
pub open spec fn lists_first_unseated(fs: Seq<Fact>, sm: Map<(Season, Round, Car), SeatV>, idx: Seq<int>) -> bool {
    &&& idx.len() == unknown_seats(fs, sm).len()
    &&& forall|m: int|
        0 <= m < idx.len() ==> first_unseated(fs, sm, #[trigger] idx[m]) && unknown_seats(fs, sm)[m]
            == unknown_seat_of(fs[idx[m]])
    &&& forall|m1: int, m2: int| 0 <= m1 < m2 < idx.len() ==> #[trigger] idx[m1] < #[trigger] idx[m2]
    &&& forall|j: int| #[trigger] first_unseated(fs, sm, j) ==> exists|m: int| 0 <= m < idx.len() && idx[m] == j
}

proof fn lemma_unknown_index(fs: Seq<Fact>, sm: Map<(Season, Round, Car), SeatV>) -> (idx: Seq<int>)
    ensures
        lists_first_unseated(fs, sm, idx),
    decreases fs.len(),
{
    if fs.len() == 0 {
        Seq::empty()
    } else {
        let d = fs.drop_last();
        let prev = lemma_unknown_index(d, sm);
        let last = fs.len() - 1;
        assert forall|j: int| 0 <= j < d.len() implies #[trigger] first_unseated(d, sm, j) == first_unseated(fs, sm, j) by {
            assert(d[j] == fs[j]);
            if exists|i: int| 0 <= i < j && unseated(sm, #[trigger] fs[i]) && doc_car(fs[i]) == doc_car(fs[j]) {
                let i = choose|i: int| 0 <= i < j && unseated(sm, #[trigger] fs[i]) && doc_car(fs[i]) == doc_car(fs[j]);
                assert(d[i] == fs[i]);
            }
            if exists|i: int| 0 <= i < j && unseated(sm, #[trigger] d[i]) && doc_car(d[i]) == doc_car(d[j]) {
                let i = choose|i: int| 0 <= i < j && unseated(sm, #[trigger] d[i]) && doc_car(d[i]) == doc_car(d[j]);
                assert(d[i] == fs[i]);
            }
        }
        let u = unknown_seats(fs, sm);
        let up = unknown_seats(d, sm);
        if first_unseated(fs, sm, last) {
            let idx = prev.push(last);
            assert(u == up.push(unknown_seat_of(fs.last())));
            assert forall|m: int| 0 <= m < idx.len() implies first_unseated(fs, sm, #[trigger] idx[m]) && u[m]
                == unknown_seat_of(fs[idx[m]]) by {
                if m < prev.len() {
                    assert(idx[m] == prev[m]);
                    assert(first_unseated(d, sm, prev[m]));
                    assert(d[prev[m]] == fs[prev[m]]);
                }
            }
            assert forall|m1: int, m2: int| 0 <= m1 < m2 < idx.len() implies #[trigger] idx[m1] < #[trigger] idx[m2] by {
                assert(idx[m1] == prev[m1]);
                assert(first_unseated(d, sm, prev[m1]));
                if m2 < prev.len() {
                    assert(idx[m2] == prev[m2]);
                }
            }
            assert forall|j: int| #[trigger] first_unseated(fs, sm, j) implies exists|m: int|
                0 <= m < idx.len() && idx[m] == j by {
                if j < last {
                    assert(first_unseated(d, sm, j));
                    let m = choose|m: int| 0 <= m < prev.len() && prev[m] == j;
                    assert(idx[m] == j);
                } else {
                    assert(idx[prev.len() as int] == j);
                }
            }
            idx
        } else {
            assert(u == up);
            assert forall|m: int| 0 <= m < prev.len() implies first_unseated(fs, sm, #[trigger] prev[m]) && u[m]
                == unknown_seat_of(fs[prev[m]]) by {
                assert(first_unseated(d, sm, prev[m]));
                assert(d[prev[m]] == fs[prev[m]]);
            }
            assert forall|j: int| #[trigger] first_unseated(fs, sm, j) implies exists|m: int|
                0 <= m < prev.len() && prev[m] == j by {
                assert(j != last);
                assert(first_unseated(d, sm, j));
            }
            prev
        }
    }
}

/// The unknown seats are reported once per document and car that the seat map
/// cannot seat, for the first fact naming them, in the order of the facts.
pub proof fn lemma_unknown_seats_once(fs: Seq<Fact>, sm: Map<(Season, Round, Car), SeatV>)
    ensures
        exists|idx: Seq<int>| lists_first_unseated(fs, sm, idx),
{
    let idx = lemma_unknown_index(fs, sm);
}

// ---------------------------------------------------------------------------
// Counts follow the seat, never the car number.
// ---------------------------------------------------------------------------
/// Two facts feed the timelines alike: both seated in the same seat or both
/// unseated, with the same component, event and claim, whatever car numbers
/// they carry.
pub open spec fn feeds_alike(sm: Map<(Season, Round, Car), SeatV>, f: Fact, g: Fact) -> bool {
    &&& seated(sm, f) == seated(sm, g)
    &&& seated(sm, f) ==> sm[seat_key(f)] == sm[seat_key(g)]
    &&& f.component@ == g.component@
    &&& f.round == g.round
    &&& f.claim == g.claim
}

proof fn lemma_timelines_follow_the_seat(fs1: Seq<Fact>, fs2: Seq<Fact>, sm: Map<(Season, Round, Car), SeatV>)
    requires
        fs1.len() == fs2.len(),
        forall|i: int| 0 <= i < fs1.len() ==> feeds_alike(sm, #[trigger] fs1[i], fs2[i]),
    ensures
        timelines_of(fs1, sm) == timelines_of(fs2, sm),
    decreases fs1.len(),
{
    if fs1.len() > 0 {
        let d1 = fs1.drop_last();
        let d2 = fs2.drop_last();
        assert forall|i: int| 0 <= i < d1.len() implies feeds_alike(sm, #[trigger] d1[i], d2[i]) by {
            assert(d1[i] == fs1[i] && d2[i] == fs2[i]);
        }
        lemma_timelines_follow_the_seat(d1, d2, sm);
        assert(feeds_alike(sm, fs1[fs1.len() - 1], fs2[fs2.len() - 1]));
    }
}

/// The sweep folds by seat, never by car number: two fact lists that agree
/// fact by fact on seat, component, event and claim, whatever cars they name,
/// give the same timelines, and so the same per-event equations, snapshot
/// chain and penalized-set checks. A mid-season swap therefore keeps one
/// running total per seat.
pub proof fn lemma_counts_follow_the_seat(
    fs1: Seq<Fact>,
    fs2: Seq<Fact>,
    a: Map<Seq<char>, u32>,
    sm: Map<(Season, Round, Car), SeatV>,
)
    requires
        fs1.len() == fs2.len(),
        forall|i: int| 0 <= i < fs1.len() ==> feeds_alike(sm, #[trigger] fs1[i], fs2[i]),
    ensures
        timelines_of(fs1, sm) == timelines_of(fs2, sm),
        ({
            let t1 = timelines_of(fs1, sm);
            let t2 = timelines_of(fs2, sm);
            let ks1 = sorted_seq_of(t1.dom(), cell_lt());
            let ks2 = sorted_seq_of(t2.dom(), cell_lt());
            &&& local_upto(t1, ks1, a, ks1.len() as int) == local_upto(t2, ks2, a, ks2.len() as int)
            &&& snap_upto(t1, ks1, ks1.len() as int) == snap_upto(t2, ks2, ks2.len() as int)
            &&& pen_upto(t1, ks1, 256) == pen_upto(t2, ks2, 256)
        }),
{
    lemma_timelines_follow_the_seat(fs1, fs2, sm);
}

// ---------------------------------------------------------------------------
// Team names are compared only by grouping.
// ---------------------------------------------------------------------------
/// Two facts that differ at most in the team string they print.
pub open spec fn same_but_team(f: Fact, g: Fact) -> bool {
    &&& f.season == g.season
    &&& f.round == g.round
    &&& f.car == g.car
    &&& f.component@ == g.component@
    &&& f.claim == g.claim
    &&& f.document == g.document
    &&& f.superseded == g.superseded
}

/// `fs2` prints, fact by fact, what `fs1` prints with every team string
/// renamed by `rho`.
pub open spec fn renamed(fs1: Seq<Fact>, fs2: Seq<Fact>, rho: spec_fn(Seq<char>) -> Seq<char>) -> bool {
    &&& fs1.len() == fs2.len()
    &&& forall|i: int|
        0 <= i < fs1.len() ==> {
            &&& same_but_team(#[trigger] fs1[i], fs2[i])
            &&& fs1[i].printed_team.is_some() == fs2[i].printed_team.is_some()
            &&& fs1[i].printed_team.is_some() ==> fs2[i].printed_team.unwrap()@ == rho(
                fs1[i].printed_team.unwrap()@,
            )
        }
}

/// `rho` never gives two names the same spelling.
pub open spec fn injective(rho: spec_fn(Seq<char>) -> Seq<char>) -> bool {
    forall|a: Seq<char>, b: Seq<char>| #[trigger] rho(a) == #[trigger] rho(b) ==> a == b
}

/// One reading's cells, with every printed string renamed by `rho`.
pub open spec fn cells_renamed(c1: CellsV, c2: CellsV, rho: spec_fn(Seq<char>) -> Seq<char>) -> bool {
    &&& forall|p: Seq<char>, e: Seq<char>|
        #[trigger] c1.contains_key((p, e)) ==> c2.contains_key((rho(p), e)) && c2[(rho(p), e)] == c1[(
            p,
            e,
        )]
    &&& forall|q: Seq<char>, e: Seq<char>|
        #[trigger] c2.contains_key((q, e)) ==> exists|p: Seq<char>| #[trigger] rho(p) == q && c1.contains_key((p, e))
}

/// Every reading's cells, renamed by `rho`.
pub open spec fn readings_renamed(
    m1: Map<ReadingKey, CellsV>,
    m2: Map<ReadingKey, CellsV>,
    rho: spec_fn(Seq<char>) -> Seq<char>,
) -> bool {
    &&& m1.dom() == m2.dom()
    &&& forall|rk: ReadingKey| #[trigger] m1.contains_key(rk) ==> cells_renamed(m1[rk], m2[rk], rho)
}

/// Whether a reading raises a grouping conflict.
pub open spec fn conflicted(rs: Map<ReadingKey, CellsV>, rk: ReadingKey) -> bool {
    rs.contains_key(rk) && exists|p: Seq<char>, e: Seq<char>| flagged(rs[rk], p, e)
}

proof fn lemma_cells_insert(
    c1: CellsV,
    c2: CellsV,
    rho: spec_fn(Seq<char>) -> Seq<char>,
    p: Seq<char>,
    e: Seq<char>,
    cars: Set<Car>,
)
    requires
        cells_renamed(c1, c2, rho),
        injective(rho),
    ensures
        cells_renamed(c1.insert((p, e), cars), c2.insert((rho(p), e), cars), rho),
        c1.contains_key((p, e)) == c2.contains_key((rho(p), e)),
{
    let d1 = c1.insert((p, e), cars);
    let d2 = c2.insert((rho(p), e), cars);
    if c2.contains_key((rho(p), e)) {
        let w = choose|w: Seq<char>| #[trigger] rho(w) == rho(p) && c1.contains_key((w, e));
        assert(w == p);
    }
    assert forall|p1: Seq<char>, e1: Seq<char>| #[trigger] d1.contains_key((p1, e1)) implies d2.contains_key(
        (rho(p1), e1),
    ) && d2[(rho(p1), e1)] == d1[(p1, e1)] by {
        if (p1, e1) != (p, e) {
            assert(c1.contains_key((p1, e1)));
            if (rho(p1), e1) == (rho(p), e) {
                assert(p1 == p);
            }
        }
    }
    assert forall|q: Seq<char>, e1: Seq<char>| #[trigger] d2.contains_key((q, e1)) implies exists|w: Seq<char>|
        #[trigger] rho(w) == q && d1.contains_key((w, e1)) by {
        if (q, e1) == (rho(p), e) {
            assert(rho(p) == q && d1.contains_key((p, e1)));
        } else {
            assert(c2.contains_key((q, e1)));
            let w = choose|w: Seq<char>| #[trigger] rho(w) == q && c1.contains_key((w, e1));
            assert(d1.contains_key((w, e1)));
        }
    }
}

proof fn lemma_readings_renamed(
    fs1: Seq<Fact>,
    fs2: Seq<Fact>,
    sm: Map<(Season, Round, Car), SeatV>,
    rho: spec_fn(Seq<char>) -> Seq<char>,
)
    requires
        renamed(fs1, fs2, rho),
        injective(rho),
    ensures
        readings_renamed(readings_of(fs1, sm), readings_of(fs2, sm), rho),
    decreases fs1.len(),
{
    if fs1.len() > 0 {
        let d1 = fs1.drop_last();
        let d2 = fs2.drop_last();
        assert forall|i: int| 0 <= i < d1.len() implies {
            &&& same_but_team(#[trigger] d1[i], d2[i])
            &&& d1[i].printed_team.is_some() == d2[i].printed_team.is_some()
            &&& d1[i].printed_team.is_some() ==> d2[i].printed_team.unwrap()@ == rho(
                d1[i].printed_team.unwrap()@,
            )
        } by {
            assert(d1[i] == fs1[i] && d2[i] == fs2[i]);
        }
        lemma_readings_renamed(d1, d2, sm, rho);
        let f = fs1.last();
        let g = fs2.last();
        assert(same_but_team(fs1[fs1.len() - 1], fs2[fs2.len() - 1]));
        let prev1 = readings_of(d1, sm);
        let prev2 = readings_of(d2, sm);
        assert(seat_key(f) == seat_key(g));
        assert(reading_key(f) == reading_key(g));
        if seated(sm, f) && f.printed_team.is_some() {
            let rk = reading_key(f);
            let cells1 = if prev1.contains_key(rk) {
                prev1[rk]
            } else {
                Map::empty()
            };
            let cells2 = if prev2.contains_key(rk) {
                prev2[rk]
            } else {
                Map::empty()
            };
            assert(prev1.contains_key(rk) == prev2.contains_key(rk));
            assert(cells_renamed(cells1, cells2, rho));
            let p = f.printed_team.unwrap()@;
            let e = sm[seat_key(f)].1;
            assert(g.printed_team.unwrap()@ == rho(p));
            lemma_cells_insert(cells1, cells2, rho, p, e, Set::empty());
            let cars1 = if cells1.contains_key((p, e)) {
                cells1[(p, e)]
            } else {
                Set::empty()
            };
            let cars2 = if cells2.contains_key((rho(p), e)) {
                cells2[(rho(p), e)]
            } else {
                Set::empty()
            };
            assert(cars1 == cars2);
            lemma_cells_insert(cells1, cells2, rho, p, e, cars1.insert(f.car));
            let m1 = readings_of(fs1, sm);
            let m2 = readings_of(fs2, sm);
            assert(m1 == prev1.insert(rk, cells1.insert((p, e), cars1.insert(f.car))));
            assert(m2 == prev2.insert(rk, cells2.insert((rho(p), e), cars2.insert(g.car))));
            assert(m1.dom() =~= m2.dom());
        }
    }
}

proof fn lemma_flagged_renamed(c1: CellsV, c2: CellsV, rho: spec_fn(Seq<char>) -> Seq<char>)
    requires
        cells_renamed(c1, c2, rho),
        injective(rho),
    ensures
        (exists|p: Seq<char>, e: Seq<char>| flagged(c1, p, e)) == (exists|p: Seq<char>, e: Seq<char>|
            flagged(c2, p, e)),
{
    if exists|p: Seq<char>, e: Seq<char>| flagged(c1, p, e) {
        let (p, e) = choose|p: Seq<char>, e: Seq<char>| flagged(c1, p, e);
        assert(c2.contains_key((rho(p), e)));
        if merging(c1, p) {
            let (e1, e2) = choose|e1: Seq<char>, e2: Seq<char>|
                e1 != e2 && #[trigger] c1.contains_key((p, e1)) && #[trigger] c1.contains_key((p, e2));
            assert(c2.contains_key((rho(p), e1)) && c2.contains_key((rho(p), e2)));
            assert(merging(c2, rho(p)));
        } else {
            let (p1, p2) = choose|p1: Seq<char>, p2: Seq<char>|
                p1 != p2 && #[trigger] c1.contains_key((p1, e)) && #[trigger] c1.contains_key((p2, e));
            assert(c2.contains_key((rho(p1), e)) && c2.contains_key((rho(p2), e)));
            assert(rho(p1) != rho(p2));
            assert(splitting(c2, e));
        }
        assert(flagged(c2, rho(p), e));
    }
    if exists|q: Seq<char>, e: Seq<char>| flagged(c2, q, e) {
        let (q, e) = choose|q: Seq<char>, e: Seq<char>| flagged(c2, q, e);
        let p = choose|p: Seq<char>| #[trigger] rho(p) == q && c1.contains_key((p, e));
        if merging(c2, q) {
            let (e1, e2) = choose|e1: Seq<char>, e2: Seq<char>|
                e1 != e2 && #[trigger] c2.contains_key((q, e1)) && #[trigger] c2.contains_key((q, e2));
            let p1 = choose|w: Seq<char>| #[trigger] rho(w) == q && c1.contains_key((w, e1));
            let p2 = choose|w: Seq<char>| #[trigger] rho(w) == q && c1.contains_key((w, e2));
            assert(p1 == p && p2 == p);
            assert(merging(c1, p));
        } else {
            let (q1, q2) = choose|q1: Seq<char>, q2: Seq<char>|
                q1 != q2 && #[trigger] c2.contains_key((q1, e)) && #[trigger] c2.contains_key((q2, e));
            let p1 = choose|w: Seq<char>| #[trigger] rho(w) == q1 && c1.contains_key((w, e));
            let p2 = choose|w: Seq<char>| #[trigger] rho(w) == q2 && c1.contains_key((w, e));
            assert(p1 != p2);
            assert(splitting(c1, e));
        }
        assert(flagged(c1, p, e));
    }
}

/// Team names are compared only by grouping, never against another source's:
/// renaming every printed team string, so long as no two names come to share a
/// spelling, changes neither which documents are read against a roster nor
/// which of them raise a grouping conflict.
pub proof fn lemma_grouping_ignores_the_names(
    fs1: Seq<Fact>,
    fs2: Seq<Fact>,
    sm: Map<(Season, Round, Car), SeatV>,
    rho: spec_fn(Seq<char>) -> Seq<char>,
)
    requires
        renamed(fs1, fs2, rho),
        injective(rho),
    ensures
        readings_of(fs1, sm).dom() == readings_of(fs2, sm).dom(),
        forall|rk: ReadingKey|
            #[trigger] conflicted(readings_of(fs1, sm), rk) == conflicted(readings_of(fs2, sm), rk),
{
    lemma_readings_renamed(fs1, fs2, sm, rho);
    let m1 = readings_of(fs1, sm);
    let m2 = readings_of(fs2, sm);
    assert forall|rk: ReadingKey| #[trigger] conflicted(m1, rk) == conflicted(m2, rk) by {
        if m1.contains_key(rk) {
            lemma_flagged_renamed(m1[rk], m2[rk], rho);
        }
    }
}

// ---------------------------------------------------------------------------
// A reading agrees exactly when its teams pair one to one.
// ---------------------------------------------------------------------------
/// Each printed string pairs with one entered team, and each entered team with
/// one printed string.
pub open spec fn one_to_one(c: CellsV) -> bool {
    &&& forall|p: Seq<char>, e1: Seq<char>, e2: Seq<char>|
        #[trigger] c.contains_key((p, e1)) && #[trigger] c.contains_key((p, e2)) ==> e1 == e2
    &&& forall|p1: Seq<char>, p2: Seq<char>, e: Seq<char>|
        #[trigger] c.contains_key((p1, e)) && #[trigger] c.contains_key((p2, e)) ==> p1 == p2
}

/// A reading raises no grouping conflict exactly when its printed strings and
/// entered teams pair one to one; otherwise it raises one, whose two groupings
/// hold the cars of the cells that break the pairing, by printed string and by
/// entered team.
pub proof fn lemma_grouping_agrees_iff_one_to_one(rk: ReadingKey, c: CellsV)
    ensures
        grouping_conflict_spec(rk, c) is None <==> one_to_one(c),
        !one_to_one(c) ==> grouping_conflict_spec(rk, c) == Some(
            ConflictV::TeamGroupingMismatch(
                rk.0,
                rk.2,
                sorted_groups(printed_groups(c)),
                sorted_groups(entered_groups(c)),
            ),
        ),
{
    if one_to_one(c) {
        assert forall|p: Seq<char>, e: Seq<char>| !flagged(c, p, e) by {
            if merging(c, p) {
                let (e1, e2) = choose|e1: Seq<char>, e2: Seq<char>|
                    e1 != e2 && #[trigger] c.contains_key((p, e1)) && #[trigger] c.contains_key((p, e2));
                assert(e1 == e2);
            }
            if splitting(c, e) {
                let (p1, p2) = choose|p1: Seq<char>, p2: Seq<char>|
                    p1 != p2 && #[trigger] c.contains_key((p1, e)) && #[trigger] c.contains_key((p2, e));
                assert(p1 == p2);
            }
        }
    } else {
        if exists|p: Seq<char>, e1: Seq<char>, e2: Seq<char>|
            #[trigger] c.contains_key((p, e1)) && #[trigger] c.contains_key((p, e2)) && e1 != e2 {
            let (p, e1, e2) = choose|p: Seq<char>, e1: Seq<char>, e2: Seq<char>|
                #[trigger] c.contains_key((p, e1)) && #[trigger] c.contains_key((p, e2)) && e1 != e2;
            assert(merging(c, p));
            assert(flagged(c, p, e1));
        } else {
            let (p1, p2, e) = choose|p1: Seq<char>, p2: Seq<char>, e: Seq<char>|
                #[trigger] c.contains_key((p1, e)) && #[trigger] c.contains_key((p2, e)) && p1 != p2;
            assert(splitting(c, e));
            assert(flagged(c, p1, e));
        }
    }
}

// ---------------------------------------------------------------------------
// What each timeline cell raises on its own.
// ---------------------------------------------------------------------------
/// `ks` visits the cells of `t` in order, each once.
pub open spec fn visits(t: Map<CellKey, DataV>, ks: Seq<CellKey>) -> bool {
    &&& strictly_sorted(ks, cell_lt())
    &&& forall|k: CellKey| #[trigger] ks.contains(k) <==> t.contains_key(k)
}

proof fn lemma_timelines_finite(fs: Seq<Fact>, sm: Map<(Season, Round, Car), SeatV>)
    ensures
        timelines_of(fs, sm).dom().finite(),
    decreases fs.len(),
{
    if fs.len() > 0 {
        lemma_timelines_finite(fs.drop_last(), sm);
    }
}

/// The order the sweep visits the timeline cells in takes every cell of the
/// facts' timelines once, in order, so the laws stated for any visiting order
/// hold of the sweep's.
pub proof fn lemma_sweep_visits_every_cell(fs: Seq<Fact>, sm: Map<(Season, Round, Car), SeatV>)
    ensures
        visits(timelines_of(fs, sm), sorted_seq_of(timelines_of(fs, sm).dom(), cell_lt())),
{
    let t = timelines_of(fs, sm);
    lemma_timelines_finite(fs, sm);
    lemma_cell_lt_strict_total();
    crate::order::lemma_sorted_seq_exists(t.dom(), cell_lt());
}

proof fn lemma_contains_concat(p: Seq<ConflictV>, q: Seq<ConflictV>, x: ConflictV)
    ensures
        (p + q).contains(x) <==> p.contains(x) || q.contains(x),
{
    if (p + q).contains(x) {
        let k = choose|k: int| 0 <= k < (p + q).len() && (p + q)[k] == x;
        if k < p.len() {
            assert(p[k] == x);
        } else {
            assert(q[k - p.len()] == x);
        }
    }
    if p.contains(x) {
        let k = choose|k: int| 0 <= k < p.len() && p[k] == x;
        assert((p + q)[k] == x);
    }
    if q.contains(x) {
        let k = choose|k: int| 0 <= k < q.len() && q[k] == x;
        assert((p + q)[k + p.len()] == x);
    }
}

proof fn lemma_local_contains(t: Map<CellKey, DataV>, ks: Seq<CellKey>, a: Map<Seq<char>, u32>, n: int, x: ConflictV)
    requires
        0 <= n,
    ensures
        local_upto(t, ks, a, n).contains(x) <==> exists|i: int|
            0 <= i < n && #[trigger] cell_local(t, ks, i, a).contains(x),
    decreases n,
{
    if n > 0 {
        lemma_local_contains(t, ks, a, n - 1, x);
        lemma_contains_concat(local_upto(t, ks, a, n - 1), cell_local(t, ks, n - 1, a), x);
        if exists|i: int| 0 <= i < n && #[trigger] cell_local(t, ks, i, a).contains(x) {
            let i = choose|i: int| 0 <= i < n && #[trigger] cell_local(t, ks, i, a).contains(x);
            if i < n - 1 {
                assert(exists|i: int| 0 <= i < n - 1 && #[trigger] cell_local(t, ks, i, a).contains(x));
            }
        }
    }
}

proof fn lemma_cell_local_contains(t: Map<CellKey, DataV>, ks: Seq<CellKey>, i: int, a: Map<Seq<char>, u32>, x: ConflictV)
    ensures
        cell_local(t, ks, i, a).contains(x) <==> unknown_part(ks, i, a).contains(x) || prev_used_part(
            t,
            ks[i],
        ).contains(x) || exceed_part(t, ks[i], a).contains(x) || ordinal_part(t, ks[i]).contains(x),
{
    let u = unknown_part(ks, i, a);
    let pu = prev_used_part(t, ks[i]);
    let ex = exceed_part(t, ks[i], a);
    let od = ordinal_part(t, ks[i]);
    lemma_contains_concat(u, pu, x);
    lemma_contains_concat(u + pu, ex, x);
    lemma_contains_concat(u + pu + ex, od, x);
}

/// Each cell's stated figures are checked against the count after the event,
/// which only a snapshot anchors: an ordinal is flagged exactly where it
/// differs from that count, a stated conformity exactly where it disagrees
/// with whether that count exceeds a seeded allowance, and a cell with no
/// snapshot raises neither, since an ordinal never feeds the count.
pub proof fn lemma_cell_mismatches(
    t: Map<CellKey, DataV>,
    ks: Seq<CellKey>,
    a: Map<Seq<char>, u32>,
    seat: SeatV,
    comp: Seq<char>,
    r: Round,
    o: u32,
    ca: u32,
    stated: bool,
    computed: bool,
)
    requires
        visits(t, ks),
    ensures
        local_upto(t, ks, a, ks.len() as int).contains(ConflictV::OrdinalMismatch(seat, comp, r, o, ca)) <==> {
            let k = key_of(seat, comp, r);
            &&& t.contains_key(k)
            &&& t[k].4 == Some(o)
            &&& count_after_spec(t[k]) == Some(ca)
            &&& o != ca
        },
        local_upto(t, ks, a, ks.len() as int).contains(
            ConflictV::StatedExceedanceMismatch(seat, comp, r, stated, computed),
        ) <==> {
            let k = key_of(seat, comp, r);
            &&& t.contains_key(k)
            &&& t[k].2 is Some
            &&& count_after_spec(t[k]) is Some
            &&& a.contains_key(comp)
            &&& stated == (t[k].2->0 == Conformity::NotInConformity)
            &&& computed == (count_after_spec(t[k])->0 > a[comp])
            &&& stated != computed
        },
        t.contains_key(key_of(seat, comp, r)) && t[key_of(seat, comp, r)].0 is None ==> !local_upto(
            t,
            ks,
            a,
            ks.len() as int,
        ).contains(ConflictV::OrdinalMismatch(seat, comp, r, o, ca)) && !local_upto(
            t,
            ks,
            a,
            ks.len() as int,
        ).contains(ConflictV::StatedExceedanceMismatch(seat, comp, r, stated, computed)),
{
    let n = ks.len() as int;
    let k = key_of(seat, comp, r);
    let xo = ConflictV::OrdinalMismatch(seat, comp, r, o, ca);
    let xe = ConflictV::StatedExceedanceMismatch(seat, comp, r, stated, computed);
    assert(seat_of_key(k) == seat);
    lemma_local_contains(t, ks, a, n, xo);
    lemma_local_contains(t, ks, a, n, xe);
    if local_upto(t, ks, a, n).contains(xo) {
        let i = choose|i: int| 0 <= i < n && #[trigger] cell_local(t, ks, i, a).contains(xo);
        lemma_cell_local_contains(t, ks, i, a, xo);
        let ki = ks[i];
        assert(ordinal_part(t, ki).contains(xo));
        assert(ordinal_part(t, ki)[0] == xo);
        assert(ki == k);
        assert(ks.contains(ki));
    }
    if t.contains_key(k) && t[k].4 == Some(o) && count_after_spec(t[k]) == Some(ca) && o != ca {
        assert(ks.contains(k));
        let i = choose|i: int| 0 <= i < ks.len() && ks[i] == k;
        assert(ordinal_part(t, k)[0] == xo);
        assert(ordinal_part(t, k).contains(xo));
        lemma_cell_local_contains(t, ks, i, a, xo);
        assert(cell_local(t, ks, i, a).contains(xo));
    }
    if local_upto(t, ks, a, n).contains(xe) {
        let i = choose|i: int| 0 <= i < n && #[trigger] cell_local(t, ks, i, a).contains(xe);
        lemma_cell_local_contains(t, ks, i, a, xe);
        let ki = ks[i];
        assert(exceed_part(t, ki, a).contains(xe));
        assert(exceed_part(t, ki, a)[0] == xe);
        assert(ki == k);
        assert(ks.contains(ki));
    }
    if t.contains_key(k) && t[k].2 is Some && count_after_spec(t[k]) is Some && a.contains_key(comp) && stated == (
    t[k].2->0 == Conformity::NotInConformity) && computed == (count_after_spec(t[k])->0 > a[comp]) && stated
        != computed {
        assert(ks.contains(k));
        let i = choose|i: int| 0 <= i < ks.len() && ks[i] == k;
        assert(exceed_part(t, k, a)[0] == xe);
        assert(exceed_part(t, k, a).contains(xe));
        lemma_cell_local_contains(t, ks, i, a, xe);
        assert(cell_local(t, ks, i, a).contains(xe));
    }
}

proof fn lemma_cell_unknown(t: Map<CellKey, DataV>, ks: Seq<CellKey>, i: int, a: Map<Seq<char>, u32>, c: Seq<char>)
    ensures
        cell_local(t, ks, i, a).contains(ConflictV::UnknownComponent(c)) <==> ks[i].3 == c && !a.contains_key(c)
            && !(exists|j: int| 0 <= j < i && (#[trigger] ks[j]).3 == c),
        forall|m: int|
            0 <= m < cell_local(t, ks, i, a).len() && #[trigger] cell_local(t, ks, i, a)[m]
                == ConflictV::UnknownComponent(c) ==> m == 0 && unknown_part(ks, i, a).len() == 1,
{
    let x = ConflictV::UnknownComponent(c);
    let u = unknown_part(ks, i, a);
    let pu = prev_used_part(t, ks[i]);
    let ex = exceed_part(t, ks[i], a);
    let od = ordinal_part(t, ks[i]);
    lemma_cell_local_contains(t, ks, i, a, x);
    if u.contains(x) {
        assert(u[0] == x);
    }
    if ks[i].3 == c && !a.contains_key(c) && !(exists|j: int| 0 <= j < i && (#[trigger] ks[j]).3 == c) {
        assert(u[0] == x);
    }
    let cl = cell_local(t, ks, i, a);
    assert forall|m: int| 0 <= m < cl.len() && #[trigger] cl[m] == x implies m == 0 && u.len() == 1 by {
        let rest = pu + ex + od;
        assert(cl == u + rest);
        if m >= u.len() {
            assert(cl[m] == rest[m - u.len()]);
            let q = m - u.len();
            if q < pu.len() {
                assert(rest[q] == pu[q]);
            } else if q < pu.len() + ex.len() {
                assert(rest[q] == ex[q - pu.len()]);
            } else {
                assert(rest[q] == od[q - pu.len() - ex.len()]);
            }
        }
    }
}

proof fn lemma_unknown_came_from(t: Map<CellKey, DataV>, ks: Seq<CellKey>, a: Map<Seq<char>, u32>, n: int, c: Seq<char>)
    requires
        0 <= n,
        local_upto(t, ks, a, n).contains(ConflictV::UnknownComponent(c)),
    ensures
        !a.contains_key(c),
        exists|j: int| 0 <= j < n && (#[trigger] ks[j]).3 == c,
{
    lemma_local_contains(t, ks, a, n, ConflictV::UnknownComponent(c));
    let i = choose|i: int| 0 <= i < n && #[trigger] cell_local(t, ks, i, a).contains(ConflictV::UnknownComponent(c));
    lemma_cell_unknown(t, ks, i, a, c);
}

proof fn lemma_unknown_reached(t: Map<CellKey, DataV>, ks: Seq<CellKey>, a: Map<Seq<char>, u32>, n: int, c: Seq<char>)
    requires
        0 <= n,
        !a.contains_key(c),
        exists|j: int| 0 <= j < n && (#[trigger] ks[j]).3 == c,
    ensures
        local_upto(t, ks, a, n).contains(ConflictV::UnknownComponent(c)),
    decreases n,
{
    let x = ConflictV::UnknownComponent(c);
    lemma_contains_concat(local_upto(t, ks, a, n - 1), cell_local(t, ks, n - 1, a), x);
    if exists|j: int| 0 <= j < n - 1 && (#[trigger] ks[j]).3 == c {
        lemma_unknown_reached(t, ks, a, n - 1, c);
    } else {
        lemma_cell_unknown(t, ks, n - 1, a, c);
    }
}

proof fn lemma_unknown_no_repeat(t: Map<CellKey, DataV>, ks: Seq<CellKey>, a: Map<Seq<char>, u32>, n: int, c: Seq<char>)
    requires
        0 <= n,
    ensures
        forall|i: int, j: int|
            0 <= i < j < local_upto(t, ks, a, n).len() && #[trigger] local_upto(t, ks, a, n)[i]
                == ConflictV::UnknownComponent(c) ==> #[trigger] local_upto(t, ks, a, n)[j] != ConflictV::UnknownComponent(c),
    decreases n,
{
    if n > 0 {
        let x = ConflictV::UnknownComponent(c);
        lemma_unknown_no_repeat(t, ks, a, n - 1, c);
        let v = local_upto(t, ks, a, n - 1);
        let cl = cell_local(t, ks, n - 1, a);
        let w = local_upto(t, ks, a, n);
        assert(w == v + cl);
        lemma_cell_unknown(t, ks, n - 1, a, c);
        assert forall|i: int, j: int| 0 <= i < j < w.len() && #[trigger] w[i] == x implies #[trigger] w[j] != x by {
            if w[j] == x {
                if j < v.len() {
                    assert(w[i] == v[i] && w[j] == v[j]);
                } else if i >= v.len() {
                    assert(w[i] == cl[i - v.len()]);
                    assert(w[j] == cl[j - v.len()]);
                } else {
                    assert(w[i] == v[i]);
                    assert(v.contains(x));
                    lemma_unknown_came_from(t, ks, a, n - 1, c);
                    assert(w[j] == cl[j - v.len()]);
                    assert(cl.contains(x));
                }
            }
        }
    }
}

/// An unseeded component is reported once, however many cells name it, and
/// only an unseeded component that some cell names is reported.
pub proof fn lemma_unknown_component_once(t: Map<CellKey, DataV>, ks: Seq<CellKey>, a: Map<Seq<char>, u32>, c: Seq<char>)
    requires
        visits(t, ks),
    ensures
        local_upto(t, ks, a, ks.len() as int).contains(ConflictV::UnknownComponent(c)) <==> !a.contains_key(c)
            && exists|k: CellKey| #[trigger] t.contains_key(k) && k.3 == c,
        forall|i: int, j: int|
            0 <= i < j < local_upto(t, ks, a, ks.len() as int).len() && #[trigger] local_upto(
                t,
                ks,
                a,
                ks.len() as int,
            )[i] == ConflictV::UnknownComponent(c) ==> #[trigger] local_upto(t, ks, a, ks.len() as int)[j]
                != ConflictV::UnknownComponent(c),
{
    let n = ks.len() as int;
    lemma_unknown_no_repeat(t, ks, a, n, c);
    if local_upto(t, ks, a, n).contains(ConflictV::UnknownComponent(c)) {
        lemma_unknown_came_from(t, ks, a, n, c);
        let j = choose|j: int| 0 <= j < n && (#[trigger] ks[j]).3 == c;
        assert(ks.contains(ks[j]));
        assert(t.contains_key(ks[j]));
    }
    if !a.contains_key(c) && exists|k: CellKey| #[trigger] t.contains_key(k) && k.3 == c {
        let k = choose|k: CellKey| #[trigger] t.contains_key(k) && k.3 == c;
        assert(ks.contains(k));
        let j = choose|j: int| 0 <= j < ks.len() && ks[j] == k;
        assert(ks[j].3 == c);
        lemma_unknown_reached(t, ks, a, n, c);
    }
}

// ---------------------------------------------------------------------------
// The snapshot chain.
// ---------------------------------------------------------------------------
/// Two cell keys of one `(seat, component)`.
pub open spec fn same_series_key(a: CellKey, b: CellKey) -> bool {
    a.0 == b.0 && a.1 == b.1 && a.2 == b.2 && a.3 == b.3
}

proof fn lemma_cell_between(a: CellKey, b: CellKey, c: CellKey)
    requires
        same_series_key(a, b),
        cell_less(a, c),
        cell_less(c, b),
    ensures
        same_series_key(a, c),
        a.4 < c.4 < b.4,
{
    crate::order::lemma_seq_lt_irreflexive(a.1);
    crate::order::lemma_seq_lt_irreflexive(a.3);
    if seq_lt(a.1, c.1) && seq_lt(c.1, a.1) {
        crate::order::lemma_seq_lt_transitive(a.1, c.1, a.1);
    }
    if seq_lt(a.3, c.3) && seq_lt(c.3, a.3) {
        crate::order::lemma_seq_lt_transitive(a.3, c.3, a.3);
    }
}

proof fn lemma_series_order(a: CellKey, b: CellKey)
    requires
        same_series_key(a, b),
    ensures
        cell_less(a, b) <==> a.4 < b.4,
{
    crate::order::lemma_seq_lt_irreflexive(a.1);
    crate::order::lemma_seq_lt_irreflexive(a.3);
}

proof fn lemma_snap_contains(t: Map<CellKey, DataV>, ks: Seq<CellKey>, n: int, x: ConflictV)
    requires
        0 <= n,
    ensures
        snap_upto(t, ks, n).contains(x) <==> exists|i: int| 0 <= i < n && #[trigger] snap_pair(t, ks, i).contains(x),
    decreases n,
{
    if n > 0 {
        lemma_snap_contains(t, ks, n - 1, x);
        lemma_contains_concat(snap_upto(t, ks, n - 1), snap_pair(t, ks, n - 1), x);
        if exists|i: int| 0 <= i < n && #[trigger] snap_pair(t, ks, i).contains(x) {
            let i = choose|i: int| 0 <= i < n && #[trigger] snap_pair(t, ks, i).contains(x);
            if i < n - 1 {
                assert(exists|i: int| 0 <= i < n - 1 && #[trigger] snap_pair(t, ks, i).contains(x));
            }
        }
    }
}

/// The count after an event is anchored by its snapshot alone: there is a
/// count exactly when there is a snapshot, an event that fits nothing keeps
/// its snapshot as the count, and one that fits `f` adds `f`, stopping at the
/// largest count.
pub proof fn lemma_count_after_the_snapshot(d: DataV)
    ensures
        count_after_spec(d) is Some <==> d.0 is Some,
        d.0 is Some && d.1 is None ==> count_after_spec(d) == d.0,
        d.0 is Some && d.1 is Some ==> (count_after_spec(d)->0 == d.0->0 + d.1->0 || (count_after_spec(d)->0
            == u32::MAX && d.0->0 + d.1->0 > u32::MAX)),
        d.0 is Some ==> count_after_spec(d)->0 >= d.0->0,
{
}

/// An event of an element that fits nothing hands its snapshot on unchanged:
/// the next event present for the same seat and component is checked against
/// that snapshot, and a different snapshot there is a disagreement carrying
/// both figures.
pub proof fn lemma_unfitted_event_hands_on_its_snapshot(
    t: Map<CellKey, DataV>,
    ks: Seq<CellKey>,
    seat: SeatV,
    comp: Seq<char>,
    r1: Round,
    r2: Round,
    s: u32,
)
    requires
        visits(t, ks),
        t.contains_key(key_of(seat, comp, r1)),
        t.contains_key(key_of(seat, comp, r2)),
        r1 < r2,
        forall|r: Round| r1 < r < r2 ==> !t.contains_key(#[trigger] key_of(seat, comp, r)),
        t[key_of(seat, comp, r1)].0 == Some(s),
        t[key_of(seat, comp, r1)].1 is None,
    ensures
        forall|ca: u32, ns: u32|
            #[trigger] snap_upto(t, ks, ks.len() as int).contains(
                ConflictV::SnapshotDisagreement(seat, comp, r1, r2, ca, ns),
            ) <==> (ca == s && t[key_of(seat, comp, r2)].0 == Some(ns) && s != ns),
{
    lemma_count_after_the_snapshot(t[key_of(seat, comp, r1)]);
    assert forall|ca: u32, ns: u32|
        #[trigger] snap_upto(t, ks, ks.len() as int).contains(
            ConflictV::SnapshotDisagreement(seat, comp, r1, r2, ca, ns),
        ) <==> (ca == s && t[key_of(seat, comp, r2)].0 == Some(ns) && s != ns) by {
        lemma_snapshot_chain(t, ks, seat, comp, r1, r2, ca, ns);
    }
}

/// Adjacent events of one element are compared and no others: the count after
/// an event is checked against the snapshot of the next event present for the
/// same seat and component, and a disagreement is raised exactly where the two
/// differ.
pub proof fn lemma_snapshot_chain(
    t: Map<CellKey, DataV>,
    ks: Seq<CellKey>,
    seat: SeatV,
    comp: Seq<char>,
    r1: Round,
    r2: Round,
    ca: u32,
    ns: u32,
)
    requires
        visits(t, ks),
    ensures
        snap_upto(t, ks, ks.len() as int).contains(ConflictV::SnapshotDisagreement(seat, comp, r1, r2, ca, ns)) <==> {
            let k1 = key_of(seat, comp, r1);
            let k2 = key_of(seat, comp, r2);
            &&& t.contains_key(k1)
            &&& t.contains_key(k2)
            &&& r1 < r2
            &&& forall|r: Round| r1 < r < r2 ==> !t.contains_key(#[trigger] key_of(seat, comp, r))
            &&& count_after_spec(t[k1]) == Some(ca)
            &&& t[k2].0 == Some(ns)
            &&& ca != ns
        },
{
    let n = ks.len() as int;
    let k1 = key_of(seat, comp, r1);
    let k2 = key_of(seat, comp, r2);
    let x = ConflictV::SnapshotDisagreement(seat, comp, r1, r2, ca, ns);
    assert(seat_of_key(k1) == seat);
    lemma_cell_lt_strict_total();
    lemma_snap_contains(t, ks, n, x);
    if snap_upto(t, ks, n).contains(x) {
        let i = choose|i: int| 0 <= i < n && #[trigger] snap_pair(t, ks, i).contains(x);
        let a = ks[i];
        let b = ks[i + 1];
        assert(snap_pair(t, ks, i)[0] == x);
        assert(a == k1);
        assert(b == k2);
        assert(ks.contains(a) && ks.contains(b));
        assert(cell_less(a, b));
        lemma_series_order(a, b);
        assert forall|r: Round| r1 < r < r2 implies !t.contains_key(#[trigger] key_of(seat, comp, r)) by {
            let k = key_of(seat, comp, r);
            if t.contains_key(k) {
                assert(ks.contains(k));
                let j = choose|j: int| 0 <= j < ks.len() && ks[j] == k;
                lemma_series_order(k1, k);
                lemma_series_order(k, k2);
                if j <= i {
                    if j < i {
                        assert(cell_less(ks[j], ks[i]));
                    }
                    lemma_cell_less_irreflexive(k);
                    assert(false);
                } else {
                    if j > i + 1 {
                        assert(cell_less(ks[i + 1], ks[j]));
                    }
                    lemma_cell_less_irreflexive(k);
                    assert(false);
                }
            }
        }
    }
    if t.contains_key(k1) && t.contains_key(k2) && r1 < r2 && (forall|r: Round|
        r1 < r < r2 ==> !t.contains_key(#[trigger] key_of(seat, comp, r))) && count_after_spec(t[k1]) == Some(ca)
        && t[k2].0 == Some(ns) && ca != ns {
        assert(ks.contains(k1) && ks.contains(k2));
        let i1 = choose|i: int| 0 <= i < ks.len() && ks[i] == k1;
        let i2 = choose|i: int| 0 <= i < ks.len() && ks[i] == k2;
        lemma_series_order(k1, k2);
        lemma_series_order(k2, k1);
        if i2 <= i1 {
            if i2 < i1 {
                assert(cell_less(ks[i2], ks[i1]));
            }
            assert(false);
        }
        if i2 > i1 + 1 {
            let c = ks[i1 + 1];
            assert(cell_less(ks[i1], ks[i1 + 1]));
            assert(cell_less(ks[i1 + 1], ks[i2]));
            lemma_cell_between(k1, k2, c);
            assert(c == key_of(seat, comp, c.4));
            assert(ks.contains(c));
            assert(t.contains_key(key_of(seat, comp, c.4)));
            assert(false);
        }
        assert(i2 == i1 + 1);
        assert(snap_pair(t, ks, i1)[0] == x);
        assert(snap_pair(t, ks, i1).contains(x));
    }
}

// ---------------------------------------------------------------------------
// The penalized sets.
// ---------------------------------------------------------------------------
/// Whether cell data carries the flag `pen` picks: penalized, or stated not in
/// conformity.
pub open spec fn flag_on(d: DataV, pen: bool) -> bool {
    if pen {
        d.5
    } else {
        d.2 == Some(Conformity::NotInConformity)
    }
}

/// The event a penalized-set mismatch is about.
pub open spec fn psm_round(x: ConflictV) -> int {
    match x {
        ConflictV::PenalizedSetMismatch(r, _, _) => r as int,
        _ => -1,
    }
}

proof fn lemma_flagged_at_holds(t: Map<CellKey, DataV>, ks: Seq<CellKey>, r: Round, pen: bool, n: int)
    requires
        0 <= n <= ks.len(),
    ensures
        forall|x: SeriesV|
            #[trigger] flagged_at(t, ks, r, pen, n).contains(x) <==> exists|i: int|
                0 <= i < n && (#[trigger] ks[i]).4 == r && x == (seat_of_key(ks[i]), ks[i].3) && flag_on(
                    t[ks[i]],
                    pen,
                ),
    decreases n,
{
    if n > 0 {
        lemma_flagged_at_holds(t, ks, r, pen, n - 1);
        let prev = flagged_at(t, ks, r, pen, n - 1);
        let k = ks[n - 1];
        assert forall|x: SeriesV| #[trigger] flagged_at(t, ks, r, pen, n).contains(x) <==> exists|i: int|
            0 <= i < n && (#[trigger] ks[i]).4 == r && x == (seat_of_key(ks[i]), ks[i].3) && flag_on(
                t[ks[i]],
                pen,
            ) by {
            let cur = flagged_at(t, ks, r, pen, n);
            if k.4 == r && flag_on(t[k], pen) {
                assert(cur == prev.push((seat_of_key(k), k.3)));
                if cur.contains(x) {
                    let m = choose|m: int| 0 <= m < cur.len() && cur[m] == x;
                    if m < prev.len() {
                        assert(prev[m] == x);
                        assert(prev.contains(x));
                        let i = choose|i: int|
                            0 <= i < n - 1 && (#[trigger] ks[i]).4 == r && x == (seat_of_key(ks[i]), ks[i].3)
                                && flag_on(t[ks[i]], pen);
                    }
                }
                if exists|i: int|
                    0 <= i < n && (#[trigger] ks[i]).4 == r && x == (seat_of_key(ks[i]), ks[i].3) && flag_on(
                        t[ks[i]],
                        pen,
                    ) {
                    let i = choose|i: int|
                        0 <= i < n && (#[trigger] ks[i]).4 == r && x == (seat_of_key(ks[i]), ks[i].3) && flag_on(
                            t[ks[i]],
                            pen,
                        );
                    if i < n - 1 {
                        assert(prev.contains(x));
                        let m = choose|m: int| 0 <= m < prev.len() && prev[m] == x;
                        assert(cur[m] == x);
                    } else {
                        assert(cur[prev.len() as int] == x);
                    }
                }
            } else {
                assert(cur == prev);
                if exists|i: int|
                    0 <= i < n && (#[trigger] ks[i]).4 == r && x == (seat_of_key(ks[i]), ks[i].3) && flag_on(
                        t[ks[i]],
                        pen,
                    ) {
                    let i = choose|i: int|
                        0 <= i < n && (#[trigger] ks[i]).4 == r && x == (seat_of_key(ks[i]), ks[i].3) && flag_on(
                            t[ks[i]],
                            pen,
                        );
                    assert(i < n - 1);
                    assert(prev.contains(x));
                }
                if cur.contains(x) {
                    assert(prev.contains(x));
                }
            }
        }
    }
}

proof fn lemma_pen_upto_holds(t: Map<CellKey, DataV>, ks: Seq<CellKey>, m: int)
    requires
        0 <= m <= 256,
    ensures
        forall|i: int| 0 <= i < pen_upto(t, ks, m).len() ==> (#[trigger] pen_upto(t, ks, m)[i]) is PenalizedSetMismatch
            && psm_round(pen_upto(t, ks, m)[i]) < m,
        forall|i: int, j: int|
            0 <= i < j < pen_upto(t, ks, m).len() ==> psm_round(#[trigger] pen_upto(t, ks, m)[i]) < psm_round(
                #[trigger] pen_upto(t, ks, m)[j],
            ),
        forall|r: Round, p: Seq<SeriesV>, q: Seq<SeriesV>|
            #[trigger] pen_upto(t, ks, m).contains(ConflictV::PenalizedSetMismatch(r, p, q)) <==> (r < m && p
                == flagged_at(t, ks, r, true, ks.len() as int) && q == flagged_at(t, ks, r, false, ks.len() as int)
                && p != q),
    decreases m,
{
    if m > 0 {
        lemma_pen_upto_holds(t, ks, m - 1);
        let prev = pen_upto(t, ks, m - 1);
        let r0 = (m - 1) as Round;
        assert(r0 == m - 1);
        let p0 = flagged_at(t, ks, r0, true, ks.len() as int);
        let q0 = flagged_at(t, ks, r0, false, ks.len() as int);
        let cur = pen_upto(t, ks, m);
        if p0 != q0 {
            let y = ConflictV::PenalizedSetMismatch(r0, p0, q0);
            assert(cur == prev.push(y));
            assert(psm_round(y) == m - 1);
            assert forall|i: int| 0 <= i < cur.len() implies (#[trigger] cur[i]) is PenalizedSetMismatch && psm_round(
                cur[i],
            ) < m by {
                if i < prev.len() {
                    assert(cur[i] == prev[i]);
                }
            }
            assert forall|i: int, j: int| 0 <= i < j < cur.len() implies psm_round(#[trigger] cur[i]) < psm_round(
                #[trigger] cur[j],
            ) by {
                assert(cur[i] == prev[i]);
                if j < prev.len() {
                    assert(cur[j] == prev[j]);
                }
            }
            assert forall|r: Round, p: Seq<SeriesV>, q: Seq<SeriesV>|
                #[trigger] cur.contains(ConflictV::PenalizedSetMismatch(r, p, q)) <==> (r < m && p == flagged_at(
                    t,
                    ks,
                    r,
                    true,
                    ks.len() as int,
                ) && q == flagged_at(t, ks, r, false, ks.len() as int) && p != q) by {
                let x = ConflictV::PenalizedSetMismatch(r, p, q);
                if cur.contains(x) {
                    let i = choose|i: int| 0 <= i < cur.len() && cur[i] == x;
                    if i < prev.len() {
                        assert(prev[i] == x);
                        assert(prev.contains(x));
                    }
                }
                if r < m && p == flagged_at(t, ks, r, true, ks.len() as int) && q == flagged_at(
                    t,
                    ks,
                    r,
                    false,
                    ks.len() as int,
                ) && p != q {
                    if r < m - 1 {
                        assert(prev.contains(x));
                        let i = choose|i: int| 0 <= i < prev.len() && prev[i] == x;
                        assert(cur[i] == x);
                    } else {
                        assert(cur[prev.len() as int] == x);
                    }
                }
            }
        } else {
            assert(cur == prev);
            assert forall|r: Round, p: Seq<SeriesV>, q: Seq<SeriesV>|
                #[trigger] cur.contains(ConflictV::PenalizedSetMismatch(r, p, q)) <==> (r < m && p == flagged_at(
                    t,
                    ks,
                    r,
                    true,
                    ks.len() as int,
                ) && q == flagged_at(t, ks, r, false, ks.len() as int) && p != q) by {
                if r == m - 1 {
                    assert(r == r0);
                }
            }
        }
    }
}

/// The penalized-set equation is reported once per event whose penalized
/// elements differ from those stated not in conformity, events ascending; an
/// event whose two sets agree raises nothing. Each set holds exactly the
/// elements whose cell at that event carries its flag.
pub proof fn lemma_penalized_sets(t: Map<CellKey, DataV>, ks: Seq<CellKey>)
    requires
        visits(t, ks),
    ensures
        forall|i: int| 0 <= i < pen_upto(t, ks, 256).len() ==> (#[trigger] pen_upto(t, ks, 256)[i]) is PenalizedSetMismatch,
        forall|i: int, j: int|
            0 <= i < j < pen_upto(t, ks, 256).len() ==> psm_round(#[trigger] pen_upto(t, ks, 256)[i]) < psm_round(
                #[trigger] pen_upto(t, ks, 256)[j],
            ),
        forall|r: Round, p: Seq<SeriesV>, q: Seq<SeriesV>|
            #[trigger] pen_upto(t, ks, 256).contains(ConflictV::PenalizedSetMismatch(r, p, q)) <==> (p == flagged_at(
                t,
                ks,
                r,
                true,
                ks.len() as int,
            ) && q == flagged_at(t, ks, r, false, ks.len() as int) && p != q),
        forall|r: Round, pen: bool, x: SeriesV|
            #[trigger] flagged_at(t, ks, r, pen, ks.len() as int).contains(x) <==> exists|k: CellKey|
                #[trigger] t.contains_key(k) && k.4 == r && x == (seat_of_key(k), k.3) && flag_on(t[k], pen),
{
    lemma_pen_upto_holds(t, ks, 256);
    assert forall|r: Round, pen: bool, x: SeriesV|
        #[trigger] flagged_at(t, ks, r, pen, ks.len() as int).contains(x) <==> exists|k: CellKey|
            #[trigger] t.contains_key(k) && k.4 == r && x == (seat_of_key(k), k.3) && flag_on(t[k], pen) by {
        lemma_flagged_at_holds(t, ks, r, pen, ks.len() as int);
        if flagged_at(t, ks, r, pen, ks.len() as int).contains(x) {
            let i = choose|i: int|
                0 <= i < ks.len() && (#[trigger] ks[i]).4 == r && x == (seat_of_key(ks[i]), ks[i].3) && flag_on(
                    t[ks[i]],
                    pen,
                );
            assert(ks.contains(ks[i]));
            assert(t.contains_key(ks[i]));
        }
        if exists|k: CellKey| #[trigger] t.contains_key(k) && k.4 == r && x == (seat_of_key(k), k.3) && flag_on(t[k], pen) {
            let k = choose|k: CellKey| #[trigger] t.contains_key(k) && k.4 == r && x == (seat_of_key(k), k.3) && flag_on(
                t[k],
                pen,
            );
            assert(ks.contains(k));
            let i = choose|i: int| 0 <= i < ks.len() && ks[i] == k;
            assert((#[trigger] ks[i]).4 == r);
        }
    }
}

// ---------------------------------------------------------------------------
// The ambiguities come first, and only there.
// ---------------------------------------------------------------------------
/// Whether `v` holds no ambiguity.
pub open spec fn no_ambiguity(v: Seq<ConflictV>) -> bool {
    forall|i: int| 0 <= i < v.len() ==> !((#[trigger] v[i]) is AmbiguousSeat)
}

proof fn lemma_no_ambiguity_concat(a: Seq<ConflictV>, b: Seq<ConflictV>)
    requires
        no_ambiguity(a),
        no_ambiguity(b),
    ensures
        no_ambiguity(a + b),
{
    assert forall|i: int| 0 <= i < (a + b).len() implies !((#[trigger] (a + b)[i]) is AmbiguousSeat) by {
        if i < a.len() {
            assert((a + b)[i] == a[i]);
        } else {
            assert((a + b)[i] == b[i - a.len()]);
        }
    }
}

proof fn lemma_no_ambiguity_push(a: Seq<ConflictV>, x: ConflictV)
    requires
        no_ambiguity(a),
        !(x is AmbiguousSeat),
    ensures
        no_ambiguity(a.push(x)),
{
    assert forall|i: int| 0 <= i < a.push(x).len() implies !((#[trigger] a.push(x)[i]) is AmbiguousSeat) by {
        if i < a.len() {
            assert(a.push(x)[i] == a[i]);
        }
    }
}

proof fn lemma_unknown_no_ambiguity(fs: Seq<Fact>, sm: Map<(Season, Round, Car), SeatV>)
    ensures
        no_ambiguity(unknown_seats(fs, sm)),
    decreases fs.len(),
{
    if fs.len() > 0 {
        lemma_unknown_no_ambiguity(fs.drop_last(), sm);
        let f = fs.last();
        lemma_no_ambiguity_push(
            unknown_seats(fs.drop_last(), sm),
            ConflictV::UnknownSeat(f.round, seating_round_spec(f.claim, f.round), f.car),
        );
    }
}

proof fn lemma_grouping_no_ambiguity(rs: Map<ReadingKey, CellsV>, keys: Seq<ReadingKey>)
    ensures
        no_ambiguity(grouping_list(rs, keys)),
    decreases keys.len(),
{
    if keys.len() > 0 {
        lemma_grouping_no_ambiguity(rs, keys.drop_last());
        match grouping_conflict_spec(keys.last(), rs[keys.last()]) {
            Some(c) => lemma_no_ambiguity_push(grouping_list(rs, keys.drop_last()), c),
            None => {},
        }
    }
}

proof fn lemma_local_no_ambiguity(t: Map<CellKey, DataV>, ks: Seq<CellKey>, a: Map<Seq<char>, u32>, n: int)
    ensures
        no_ambiguity(local_upto(t, ks, a, n)),
    decreases n,
{
    if n > 0 {
        lemma_local_no_ambiguity(t, ks, a, n - 1);
        let c = cell_local(t, ks, n - 1, a);
        assert(no_ambiguity(c));
        lemma_no_ambiguity_concat(local_upto(t, ks, a, n - 1), c);
    }
}

proof fn lemma_snap_no_ambiguity(t: Map<CellKey, DataV>, ks: Seq<CellKey>, n: int)
    ensures
        no_ambiguity(snap_upto(t, ks, n)),
    decreases n,
{
    if n > 0 {
        lemma_snap_no_ambiguity(t, ks, n - 1);
        lemma_no_ambiguity_concat(snap_upto(t, ks, n - 1), snap_pair(t, ks, n - 1));
    }
}

proof fn lemma_pen_no_ambiguity(t: Map<CellKey, DataV>, ks: Seq<CellKey>, n: int)
    ensures
        no_ambiguity(pen_upto(t, ks, n)),
    decreases n,
{
    if n > 0 {
        lemma_pen_no_ambiguity(t, ks, n - 1);
        let r = (n - 1) as Round;
        let p = flagged_at(t, ks, r, true, ks.len() as int);
        let q = flagged_at(t, ks, r, false, ks.len() as int);
        if p != q {
            lemma_no_ambiguity_push(pen_upto(t, ks, n - 1), ConflictV::PenalizedSetMismatch(r, p, q));
        }
    }
}

/// The sweep reports the resolver's ambiguities first, in their order, whatever
/// the facts, and no ambiguity after them.
pub proof fn lemma_ambiguities_come_first(
    fs: Seq<Fact>,
    a: Map<Seq<char>, u32>,
    sm: Map<(Season, Round, Car), SeatV>,
    ambs: Seq<AmbV>,
)
    ensures
        sweep_spec(fs, a, sm, ambs).len() >= ambs.len(),
        sweep_spec(fs, a, sm, ambs).take(ambs.len() as int) == ambs.map_values(
            |x: AmbV| ConflictV::AmbiguousSeat(x),
        ),
        no_ambiguity(sweep_spec(fs, a, sm, ambs).skip(ambs.len() as int)),
{
    let rs = readings_of(fs, sm);
    let t = timelines_of(fs, sm);
    let ks = sorted_seq_of(t.dom(), cell_lt());
    let head = ambs.map_values(|x: AmbV| ConflictV::AmbiguousSeat(x));
    let u = unknown_seats(fs, sm);
    let g = grouping_list(rs, sorted_seq_of(rs.dom(), rk_lt()));
    let l = local_upto(t, ks, a, ks.len() as int);
    let sn = snap_upto(t, ks, ks.len() as int);
    let pe = pen_upto(t, ks, 256);
    lemma_unknown_no_ambiguity(fs, sm);
    lemma_grouping_no_ambiguity(rs, sorted_seq_of(rs.dom(), rk_lt()));
    lemma_local_no_ambiguity(t, ks, a, ks.len() as int);
    lemma_snap_no_ambiguity(t, ks, ks.len() as int);
    lemma_pen_no_ambiguity(t, ks, 256);
    lemma_no_ambiguity_concat(u, g);
    lemma_no_ambiguity_concat(u + g, l);
    lemma_no_ambiguity_concat(u + g + l, sn);
    lemma_no_ambiguity_concat(u + g + l + sn, pe);
    let tail = u + g + l + sn + pe;
    let all = sweep_spec(fs, a, sm, ambs);
    assert(all == head + u + g + l + sn + pe);
    assert(head + u + g + l + sn + pe =~= head + tail);
    assert((head + tail).take(head.len() as int) =~= head);
    assert((head + tail).skip(head.len() as int) =~= tail);
}

// ---------------------------------------------------------------------------
// The orders are strict and total.
// ---------------------------------------------------------------------------
pub proof fn lemma_rk_lt_strict_total()
    ensures
        crate::order::strict_total(rk_lt()),
{
}

pub proof fn lemma_cell_less_irreflexive(a: CellKey)
    ensures
        !cell_less(a, a),
{
    crate::order::lemma_seq_lt_irreflexive(a.1);
    crate::order::lemma_seq_lt_irreflexive(a.3);
}

pub proof fn lemma_cell_less_transitive(a: CellKey, b: CellKey, c: CellKey)
    requires
        cell_less(a, b),
        cell_less(b, c),
    ensures
        cell_less(a, c),
{
    if seq_lt(a.1, b.1) && seq_lt(b.1, c.1) {
        crate::order::lemma_seq_lt_transitive(a.1, b.1, c.1);
    }
    if seq_lt(a.3, b.3) && seq_lt(b.3, c.3) {
        crate::order::lemma_seq_lt_transitive(a.3, b.3, c.3);
    }
}

pub proof fn lemma_cell_less_total(a: CellKey, b: CellKey)
    requires
        a != b,
    ensures
        cell_less(a, b) || cell_less(b, a),
{
    if a.1 != b.1 {
        crate::order::lemma_seq_lt_total(a.1, b.1);
    }
    if a.3 != b.3 {
        crate::order::lemma_seq_lt_total(a.3, b.3);
    }
    if a.0 == b.0 && a.1 == b.1 && a.2 == b.2 && a.3 == b.3 && a.4 == b.4 {
        assert(a == b);
    }
}

pub proof fn lemma_cell_lt_strict_total()
    ensures
        crate::order::strict_total(cell_lt()),
{
    assert forall|a: CellKey| !cell_less(a, a) by {
        lemma_cell_less_irreflexive(a);
    }
    assert forall|a: CellKey, b: CellKey, c: CellKey| cell_less(a, b) && cell_less(b, c) implies cell_less(
        a,
        c,
    ) by {
        lemma_cell_less_transitive(a, b, c);
    }
    assert forall|a: CellKey, b: CellKey| a != b implies cell_less(a, b) || cell_less(b, a) by {
        lemma_cell_less_total(a, b);
    }
}

pub proof fn lemma_name_lt_strict_total()
    ensures
        crate::order::strict_total(name_lt()),
{
    crate::order::lemma_seq_lt_strict_total();
}

// ---------------------------------------------------------------------------
// One event's data about one element.
// ---------------------------------------------------------------------------
/// What every claim about one `(seat, component)` at one event folds to.
#[derive(Clone, Copy)]
struct RoundData {
    snapshot: Option<u32>,
    fitted: Option<u32>,
    conformity: Option<Conformity>,
    previously_used: Option<u32>,
    stated_ordinal: Option<u32>,
    penalized: bool,
}

impl View for RoundData {
    type V = DataV;

    closed spec fn view(&self) -> DataV {
        (self.snapshot, self.fitted, self.conformity, self.previously_used, self.stated_ordinal, self.penalized)
    }
}

impl RoundData {
    fn empty() -> (r: Self)
        ensures
            r@ == empty_data(),
    {
        RoundData {
            snapshot: None,
            fitted: None,
            conformity: None,
            previously_used: None,
            stated_ordinal: None,
            penalized: false,
        }
    }

    /// Fold one claim into the event's data.
    fn absorb(self, claim: &Claim) -> (r: Self)
        ensures
            r@ == absorb_spec(self@, *claim),
    {
        match claim {
            Claim::SnapshotCount(count) => RoundData { snapshot: Some(*count), ..self },
            Claim::ElementsFitted { count, conformity } => RoundData {
                fitted: Some(*count),
                conformity: Some(*conformity),
                ..self
            },
            Claim::PreviouslyUsed(count) => RoundData { previously_used: Some(*count), ..self },
            Claim::StatedOrdinal(ordinal) => RoundData { stated_ordinal: Some(*ordinal), ..self },
            Claim::Penalty(_) => RoundData { penalized: true, ..self },
        }
    }

    /// The count after the event: the snapshot plus this event's fitted parts.
    /// `None` when no snapshot anchors the event.
    fn count_after(&self) -> (r: Option<u32>)
        ensures
            r == count_after_spec(self@),
            r is Some <==> self.snapshot is Some,
            self.snapshot is Some && self.fitted is None ==> r == self.snapshot,
            self.snapshot is Some && self.fitted is Some ==> (r->0 == self.snapshot->0 + self.fitted->0 || (
            r->0 == u32::MAX && self.snapshot->0 + self.fitted->0 > u32::MAX)),
    {
        match self.snapshot {
            Some(snapshot) => {
                let fitted = match self.fitted {
                    Some(f) => f,
                    None => 0,
                };
                Some(snapshot.saturating_add(fitted))
            },
            None => None,
        }
    }
}

/// The event whose roster seats the car a fact's document prints.
fn seating_round(fact: &Fact) -> (r: Round)
    ensures
        r == seating_round_spec(fact.claim, fact.round),
{
    match fact.claim {
        Claim::SnapshotCount(_) => if fact.round > FIRST_ROUND {
            fact.round - 1
        } else {
            fact.round
        },
        _ => fact.round,
    }
}

// ---------------------------------------------------------------------------
// Timeline cells.
// ---------------------------------------------------------------------------
/// One `(seat, component, event)` cell of the timelines.
struct Cell {
    seat: Seat,
    component: ComponentCode,
    round: Round,
    data: RoundData,
}

pub open spec fn key_of(seat: SeatV, component: Seq<char>, round: Round) -> CellKey {
    (seat.0, seat.1, seat.2, component, round)
}

spec fn cell_key(c: Cell) -> CellKey {
    key_of(c.seat@, c.component@, c.round)
}

spec fn cell_keys(v: Seq<Cell>) -> Seq<CellKey> {
    v.map_values(|c: Cell| cell_key(c))
}

spec fn cell_pairs(v: Seq<Cell>) -> Seq<(CellKey, DataV)> {
    v.map_values(|c: Cell| (cell_key(c), c.data@))
}

spec fn cell_map(v: Seq<Cell>) -> Map<CellKey, DataV> {
    pairs_map(cell_pairs(v))
}

/// Whether cell `c` sorts before the key `(seat, component, round)`.
fn cell_before(c: &Cell, seat: &Seat, component: &ComponentCode, round: Round) -> (r: bool)
    ensures
        r == cell_less(cell_key(*c), key_of(seat@, component@, round)),
{
    proof {
        crate::order::lemma_seq_lt_irreflexive(seat.team@);
        crate::order::lemma_seq_lt_irreflexive(component@);
    }
    if c.seat.season != seat.season {
        return c.seat.season < seat.season;
    }
    if !crate::text::str_eq(c.seat.team.as_str(), seat.team.as_str()) {
        return crate::text::str_lt(c.seat.team.as_str(), seat.team.as_str());
    }
    if c.seat.slot != seat.slot {
        return c.seat.slot < seat.slot;
    }
    if !crate::text::str_eq(c.component.as_str(), component.as_str()) {
        return crate::text::str_lt(c.component.as_str(), component.as_str());
    }
    c.round < round
}

/// Whether cell `c` has the key `(seat, component, round)`.
fn cell_at(c: &Cell, seat: &Seat, component: &ComponentCode, round: Round) -> (r: bool)
    ensures
        r == (cell_key(*c) == key_of(seat@, component@, round)),
{
    c.seat.season == seat.season && crate::text::str_eq(c.seat.team.as_str(), seat.team.as_str())
        && c.seat.slot == seat.slot && crate::text::str_eq(c.component.as_str(), component.as_str())
        && c.round == round
}

proof fn lemma_sorted_distinct_cells(v: Seq<Cell>)
    requires
        strictly_sorted(cell_keys(v), cell_lt()),
    ensures
        crate::order::distinct_keys(cell_pairs(v)),
{
    lemma_cell_lt_strict_total();
    assert forall|a: int, b: int| 0 <= a < b < cell_pairs(v).len() implies (#[trigger] cell_pairs(v)[a]).0
        != (#[trigger] cell_pairs(v)[b]).0 by {
        assert(cell_less(cell_keys(v)[a], cell_keys(v)[b]));
    }
}

/// Fold a fact's claim into the cell `(seat, component, round)`, adding the
/// cell where it is missing.
fn upsert_cell(cells: &mut Vec<Cell>, seat: &Seat, component: &ComponentCode, round: Round, claim: &Claim)
    requires
        strictly_sorted(cell_keys(old(cells)@), cell_lt()),
    ensures
        strictly_sorted(cell_keys(final(cells)@), cell_lt()),
        cell_map(final(cells)@) == cell_map(old(cells)@).insert(
            key_of(seat@, component@, round),
            absorb_spec(
                if cell_map(old(cells)@).contains_key(key_of(seat@, component@, round)) {
                    cell_map(old(cells)@)[key_of(seat@, component@, round)]
                } else {
                    empty_data()
                },
                *claim,
            ),
        ),
{
    let ghost k = key_of(seat@, component@, round);
    proof {
        lemma_cell_lt_strict_total();
        lemma_sorted_distinct_cells(cells@);
    }
    let mut p: usize = 0;
    while p < cells.len() && cell_before(&cells[p], seat, component, round)
        invariant
            p <= cells@.len(),
            cells@ == old(cells)@,
            k == key_of(seat@, component@, round),
            forall|j: int| 0 <= j < p ==> cell_less(#[trigger] cell_keys(cells@)[j], k),
        decreases cells.len() - p,
    {
        p = p + 1;
    }
    let ghost before = cells@;
    if p < cells.len() && cell_at(&cells[p], seat, component, round) {
        let mut c = cells.remove(p);
        c.data = c.data.absorb(claim);
        cells.insert(p, c);
        proof {
            assert(cells@ =~= before.update(p as int, c));
            assert(cell_pairs(cells@) =~= cell_pairs(before).update(p as int, (cell_pairs(before)[p as int].0, c.data@)));
            crate::order::lemma_distinct_map_update(cell_pairs(before), p as int, c.data@);
            crate::order::lemma_pairs_map_distinct(cell_pairs(before), p as int);
            assert(cell_keys(cells@) =~= cell_keys(before));
        }
    } else {
        proof {
            if p < before.len() {
                assert(!cell_less(cell_keys(before)[p as int], k));
                assert(cell_keys(before)[p as int] != k);
                lemma_cell_less_total(k, cell_keys(before)[p as int]);
            }
            assert forall|j: int| p <= j < before.len() implies cell_less(k, #[trigger] cell_keys(before)[j]) by {
                if j > p {
                    assert(cell_less(cell_keys(before)[p as int], cell_keys(before)[j]));
                    lemma_cell_less_transitive(k, cell_keys(before)[p as int], cell_keys(before)[j]);
                }
            }
            assert forall|i: int| 0 <= i < cell_pairs(before).len() implies (#[trigger] cell_pairs(before)[i]).0 != k by {
                lemma_cell_less_irreflexive(k);
                if i < p {
                    assert(cell_less(cell_keys(before)[i], k));
                } else {
                    assert(cell_less(k, cell_keys(before)[i]));
                }
            }
            crate::order::lemma_pairs_map_dom(cell_pairs(before), k);
        }
        let c = Cell {
            seat: seat.clone(),
            component: component.clone(),
            round,
            data: RoundData::empty().absorb(claim),
        };
        cells.insert(p, c);
        proof {
            assert(cell_pairs(cells@) =~= cell_pairs(before).insert(p as int, (k, c.data@)));
            crate::order::lemma_distinct_map_insert(cell_pairs(before), p as int, (k, c.data@));
            assert(cell_keys(cells@) =~= cell_keys(before).insert(p as int, k));
            assert forall|i: int, j: int| 0 <= i < j < cell_keys(cells@).len() implies cell_less(
                #[trigger] cell_keys(cells@)[i],
                #[trigger] cell_keys(cells@)[j],
            ) by {
                if i < p && j == p {
                } else if i < p && j > p {
                    assert(cell_keys(cells@)[j] == cell_keys(before)[j - 1]);
                } else if i == p {
                    assert(cell_keys(cells@)[j] == cell_keys(before)[j - 1]);
                } else if i > p {
                    assert(cell_keys(cells@)[i] == cell_keys(before)[i - 1]);
                    assert(cell_keys(cells@)[j] == cell_keys(before)[j - 1]);
                }
            }
        }
    }
}


// ---------------------------------------------------------------------------
// Readings: each document's team grouping, by the roster it read.
// ---------------------------------------------------------------------------
/// The cars one reading puts under one `(printed team, entered team)` pair.
type GCell = (Team, Team, Vec<Car>);

/// One document read against one event's roster.
struct Reading {
    key: ReadingKey,
    cells: Vec<GCell>,
}

spec fn gcell_pairs(v: Seq<GCell>) -> Seq<((Seq<char>, Seq<char>), Set<Car>)> {
    v.map_values(|c: GCell| ((c.0@, c.1@), crate::seat::seq_set(c.2@)))
}

spec fn gcells_map(v: Seq<GCell>) -> CellsV {
    pairs_map(gcell_pairs(v))
}

spec fn gcells_ok(v: Seq<GCell>) -> bool {
    &&& crate::order::distinct_keys(gcell_pairs(v))
    &&& forall|i: int| 0 <= i < v.len() ==> strictly_sorted((#[trigger] v[i]).2@, car_lt())
}

spec fn reading_keys(v: Seq<Reading>) -> Seq<ReadingKey> {
    v.map_values(|r: Reading| r.key)
}

spec fn reading_pairs(v: Seq<Reading>) -> Seq<(ReadingKey, CellsV)> {
    v.map_values(|r: Reading| (r.key, gcells_map(r.cells@)))
}

spec fn readings_map(v: Seq<Reading>) -> Map<ReadingKey, CellsV> {
    pairs_map(reading_pairs(v))
}

spec fn readings_ok(v: Seq<Reading>) -> bool {
    &&& strictly_sorted(reading_keys(v), rk_lt())
    &&& forall|i: int| 0 <= i < v.len() ==> gcells_ok((#[trigger] v[i]).cells@)
}

/// Add `car` under `(printed, entered)`.
fn upsert_gcell(cells: &mut Vec<GCell>, printed: &str, entered: &str, car: Car)
    requires
        gcells_ok(old(cells)@),
    ensures
        gcells_ok(final(cells)@),
        gcells_map(final(cells)@) == gcells_map(old(cells)@).insert(
            (printed@, entered@),
            (if gcells_map(old(cells)@).contains_key((printed@, entered@)) {
                gcells_map(old(cells)@)[(printed@, entered@)]
            } else {
                Set::empty()
            }).insert(car),
        ),
{
    let ghost pair = (printed@, entered@);
    let mut i: usize = 0;
    while i < cells.len()
        invariant
            i <= cells@.len(),
            cells@ == old(cells)@,
            gcells_ok(cells@),
            pair == (printed@, entered@),
            forall|j: int| 0 <= j < i ==> (#[trigger] gcell_pairs(cells@)[j]).0 != pair,
        decreases cells.len() - i,
    {
        if crate::text::str_eq(cells[i].0.as_str(), printed) && crate::text::str_eq(cells[i].1.as_str(), entered) {
            let ghost before = cells@;
            proof {
                crate::order::lemma_pairs_map_distinct(gcell_pairs(before), i as int);
            }
            let mut c = cells.remove(i);
            crate::seat::insert_sorted_u16(&mut c.2, car);
            cells.insert(i, c);
            proof {
                assert(cells@ =~= before.update(i as int, c));
                assert(crate::seat::seq_set(c.2@) =~= crate::seat::seq_set(before[i as int].2@).insert(car));
                assert(gcell_pairs(cells@) =~= gcell_pairs(before).update(
                    i as int,
                    (gcell_pairs(before)[i as int].0, crate::seat::seq_set(c.2@)),
                ));
                crate::order::lemma_distinct_map_update(
                    gcell_pairs(before),
                    i as int,
                    crate::seat::seq_set(c.2@),
                );
                assert forall|j: int| 0 <= j < cells@.len() implies strictly_sorted(
                    (#[trigger] cells@[j]).2@,
                    car_lt(),
                ) by {
                    if j != i {
                        assert(cells@[j] == before[j]);
                    }
                }
            }
            return;
        }
        i = i + 1;
    }
    let ghost before = cells@;
    proof {
        crate::order::lemma_pairs_map_dom(gcell_pairs(before), pair);
    }
    let mut cars: Vec<Car> = Vec::new();
    cars.push(car);
    let ghost cv = cars@;
    assert(cv[0] == car && cv.len() == 1);
    assert(crate::seat::seq_set(cv) =~= Set::<Car>::empty().insert(car));
    let c = (String::from_str(printed), String::from_str(entered), cars);
    cells.push(c);
    proof {
        assert(gcell_pairs(cells@) =~= gcell_pairs(before).push((pair, crate::seat::seq_set(c.2@))));
        crate::order::lemma_distinct_push(gcell_pairs(before), (pair, crate::seat::seq_set(c.2@)));
        assert forall|j: int| 0 <= j < cells@.len() implies strictly_sorted((#[trigger] cells@[j]).2@, car_lt()) by {
            if j < before.len() {
                assert(cells@[j] == before[j]);
            }
        }
    }
}

/// Add `car`, read under `(printed, entered)`, to the reading `rk`.
fn upsert_reading(readings: &mut Vec<Reading>, rk: ReadingKey, printed: &str, entered: &str, car: Car)
    requires
        readings_ok(old(readings)@),
    ensures
        readings_ok(final(readings)@),
        readings_map(final(readings)@) == ({
            let old_map = readings_map(old(readings)@);
            let cells = if old_map.contains_key(rk) {
                old_map[rk]
            } else {
                Map::empty()
            };
            let pair = (printed@, entered@);
            let cars = if cells.contains_key(pair) {
                cells[pair]
            } else {
                Set::empty()
            };
            old_map.insert(rk, cells.insert(pair, cars.insert(car)))
        }),
{
    proof {
        assert forall|a: int, b: int| 0 <= a < b < reading_pairs(readings@).len() implies (#[trigger] reading_pairs(
            readings@,
        )[a]).0 != (#[trigger] reading_pairs(readings@)[b]).0 by {
            assert(rk_less(reading_keys(readings@)[a], reading_keys(readings@)[b]));
        }
    }
    let mut p: usize = 0;
    while p < readings.len() && rk_before(readings[p].key, rk)
        invariant
            p <= readings@.len(),
            readings@ == old(readings)@,
            forall|j: int| 0 <= j < p ==> rk_less(#[trigger] reading_keys(readings@)[j], rk),
        decreases readings.len() - p,
    {
        p = p + 1;
    }
    let ghost before = readings@;
    if p < readings.len() && readings[p].key.0 == rk.0 && readings[p].key.1 == rk.1 && readings[p].key.2 == rk.2 {
        proof {
            crate::order::lemma_pairs_map_distinct(reading_pairs(before), p as int);
        }
        let mut rd = readings.remove(p);
        upsert_gcell(&mut rd.cells, printed, entered, car);
        readings.insert(p, rd);
        proof {
            assert(readings@ =~= before.update(p as int, rd));
            assert(reading_pairs(readings@) =~= reading_pairs(before).update(
                p as int,
                (rk, gcells_map(rd.cells@)),
            ));
            crate::order::lemma_distinct_map_update(reading_pairs(before), p as int, gcells_map(rd.cells@));
            assert(reading_keys(readings@) =~= reading_keys(before));
            assert forall|j: int| 0 <= j < readings@.len() implies gcells_ok((#[trigger] readings@[j]).cells@) by {
                if j != p {
                    assert(readings@[j] == before[j]);
                }
            }
        }
    } else {
        proof {
            assert forall|i: int| 0 <= i < reading_pairs(before).len() implies (#[trigger] reading_pairs(before)[i]).0
                != rk by {
                if i < p {
                    assert(rk_less(reading_keys(before)[i], rk));
                } else {
                    assert(rk_less(reading_keys(before)[p as int], reading_keys(before)[i]) || i == p);
                }
            }
            crate::order::lemma_pairs_map_dom(reading_pairs(before), rk);
        }
        let mut cells: Vec<GCell> = Vec::new();
        proof {
            assert(gcell_pairs(cells@) =~= Seq::<((Seq<char>, Seq<char>), Set<Car>)>::empty());
        }
        upsert_gcell(&mut cells, printed, entered, car);
        let rd = Reading { key: rk, cells };
        readings.insert(p, rd);
        proof {
            assert(reading_pairs(readings@) =~= reading_pairs(before).insert(p as int, (rk, gcells_map(rd.cells@))));
            crate::order::lemma_distinct_map_insert(reading_pairs(before), p as int, (rk, gcells_map(rd.cells@)));
            assert(reading_keys(readings@) =~= reading_keys(before).insert(p as int, rk));
            assert forall|i: int, j: int| 0 <= i < j < reading_keys(readings@).len() implies rk_less(
                #[trigger] reading_keys(readings@)[i],
                #[trigger] reading_keys(readings@)[j],
            ) by {
                if i < p && j == p {
                } else if i < p && j > p {
                    assert(reading_keys(readings@)[j] == reading_keys(before)[j - 1]);
                } else if i == p {
                    assert(reading_keys(readings@)[j] == reading_keys(before)[j - 1]);
                    if j - 1 > p {
                        assert(rk_less(reading_keys(before)[p as int], reading_keys(before)[j - 1]));
                    }
                } else if i > p {
                    assert(reading_keys(readings@)[i] == reading_keys(before)[i - 1]);
                    assert(reading_keys(readings@)[j] == reading_keys(before)[j - 1]);
                }
            }
            assert forall|j: int| 0 <= j < readings@.len() implies gcells_ok((#[trigger] readings@[j]).cells@) by {
                if j < p {
                    assert(readings@[j] == before[j]);
                } else if j > p {
                    assert(readings@[j] == before[j - 1]);
                }
            }
        }
    }
}

fn rk_before(a: ReadingKey, b: ReadingKey) -> (r: bool)
    ensures
        r == rk_less(a, b),
{
    a.0 < b.0 || (a.0 == b.0 && (a.1 < b.1 || (a.1 == b.1 && a.2 < b.2)))
}


// ---------------------------------------------------------------------------
// Seating the live facts.
// ---------------------------------------------------------------------------
fn has_doc_car(v: &Vec<(Round, u32, Car)>, k: (Round, u32, Car)) -> (r: bool)
    ensures
        r == v@.contains(k),
{
    let mut i: usize = 0;
    while i < v.len()
        invariant
            i <= v.len(),
            forall|j: int| 0 <= j < i ==> v@[j] != k,
        decreases v.len() - i,
    {
        if v[i].0 == k.0 && v[i].1 == k.1 && v[i].2 == k.2 {
            assert(v@[i as int] == k);
            return true;
        }
        i = i + 1;
    }
    false
}

/// Fold the live facts onto the seats the rosters give them: the unseated
/// facts' conflicts, every document's grouping, and the timelines.
#[verifier::rlimit(40)]
fn seat_live_facts(facts: &[Fact], seats: &Seats) -> (r: (Vec<Conflict>, Vec<Reading>, Vec<Cell>))
    ensures
        conflicts_view(r.0@) == unknown_seats(facts@, seats.seat_map()),
        readings_ok(r.1@),
        readings_map(r.1@) == readings_of(facts@, seats.seat_map()),
        strictly_sorted(cell_keys(r.2@), cell_lt()),
        cell_map(r.2@) == timelines_of(facts@, seats.seat_map()),
{
    let ghost sm = seats.seat_map();
    let ghost fs = facts@;
    let mut conflicts: Vec<Conflict> = Vec::new();
    let mut unseated_keys: Vec<(Round, u32, Car)> = Vec::new();
    let mut readings: Vec<Reading> = Vec::new();
    let mut cells: Vec<Cell> = Vec::new();
    proof {
        assert(fs.take(0) =~= Seq::<Fact>::empty());
        assert(conflicts_view(conflicts@) =~= Seq::<ConflictV>::empty());
        assert(reading_pairs(readings@) =~= Seq::<(ReadingKey, CellsV)>::empty());
        assert(cell_pairs(cells@) =~= Seq::<(CellKey, DataV)>::empty());
        assert(readings_map(readings@) =~= Map::<ReadingKey, CellsV>::empty());
        assert(cell_map(cells@) =~= Map::<CellKey, DataV>::empty());
    }
    let mut i: usize = 0;
    while i < facts.len()
        invariant
            i <= facts@.len(),
            sm == seats.seat_map(),
            fs == facts@,
            conflicts_view(conflicts@) == unknown_seats(fs.take(i as int), sm),
            forall|x: (Round, u32, Car)|
                unseated_keys@.contains(x) <==> exists|j: int|
                    0 <= j < i && unseated(sm, #[trigger] fs[j]) && doc_car(fs[j]) == x,
            readings_ok(readings@),
            readings_map(readings@) == readings_of(fs.take(i as int), sm),
            strictly_sorted(cell_keys(cells@), cell_lt()),
            cell_map(cells@) == timelines_of(fs.take(i as int), sm),
        decreases facts.len() - i,
    {
        let f = &facts[i];
        let ghost pre = fs.take(i as int);
        let ghost cur = fs.take(i + 1);
        assert(cur.drop_last() =~= pre);
        assert(cur.last() == fs[i as int]);
        let ghost prev_conf = conflicts@;
        if !f.superseded {
            let rr = seating_round(f);
            match seats.seat(f.season, rr, f.car) {
                None => {
                    let key = (f.round, f.document, f.car);
                    proof {
                        assert forall|j: int|
                            0 <= j < cur.len() - 1 && unseated(sm, #[trigger] cur[j]) implies (doc_car(cur[j])
                            == doc_car(*f)) == (doc_car(fs[j]) == key) by {
                            assert(cur[j] == fs[j]);
                        }
                        if exists|j: int|
                            0 <= j < cur.len() - 1 && unseated(sm, #[trigger] cur[j]) && doc_car(cur[j]) == doc_car(*f) {
                            let j = choose|j: int|
                                0 <= j < cur.len() - 1 && unseated(sm, #[trigger] cur[j]) && doc_car(cur[j]) == doc_car(*f);
                            assert(cur[j] == fs[j]);
                        }
                        if exists|j: int| 0 <= j < i && unseated(sm, #[trigger] fs[j]) && doc_car(fs[j]) == key {
                            let j = choose|j: int| 0 <= j < i && unseated(sm, #[trigger] fs[j]) && doc_car(fs[j]) == key;
                            assert(cur[j] == fs[j]);
                        }
                    }
                    let ghost old_keys = unseated_keys@;
                    if !has_doc_car(&unseated_keys, key) {
                        unseated_keys.push(key);
                        conflicts.push(Conflict::UnknownSeat { document_round: f.round, roster_round: rr, car: f.car });
                        proof {
                            assert(conflicts_view(conflicts@) =~= conflicts_view(prev_conf).push(
                                ConflictV::UnknownSeat(f.round, rr, f.car),
                            ));
                            assert(unseated_keys@[unseated_keys@.len() - 1] == key);
                        }
                    }
                    assert(unseated_keys@.contains(key));
                    proof {
                        assert forall|x: (Round, u32, Car)|
                            unseated_keys@.contains(x) <==> exists|j: int|
                                0 <= j < i + 1 && unseated(sm, #[trigger] fs[j]) && doc_car(fs[j]) == x by {
                            if x == key {
                                assert(unseated(sm, fs[i as int]) && doc_car(fs[i as int]) == x);
                            }
                            if exists|j: int| 0 <= j < i + 1 && unseated(sm, #[trigger] fs[j]) && doc_car(fs[j]) == x {
                                let j = choose|j: int| 0 <= j < i + 1 && unseated(sm, #[trigger] fs[j]) && doc_car(fs[j]) == x;
                                if j < i {
                                    assert(exists|j: int| 0 <= j < i && unseated(sm, #[trigger] fs[j]) && doc_car(fs[j]) == x);
                                }
                            }
                            assert(unseated(sm, fs[i as int]));
                            if unseated_keys@.contains(x) && x != key {
                                let k = choose|k: int| 0 <= k < unseated_keys@.len() && unseated_keys@[k] == x;
                                if k < old_keys.len() {
                                    assert(old_keys[k] == x);
                                    assert(old_keys.contains(x));
                                } else {
                                    assert(unseated_keys@ == old_keys.push(key));
                                }
                                assert(exists|j: int| 0 <= j < i && unseated(sm, #[trigger] fs[j]) && doc_car(fs[j]) == x);
                            }
                            if old_keys.contains(x) {
                                let k = choose|k: int| 0 <= k < old_keys.len() && old_keys[k] == x;
                                assert(unseated_keys@[k] == x);
                            }
                        }
                        assert(readings_of(cur, sm) == readings_of(pre, sm));
                        assert(timelines_of(cur, sm) == timelines_of(pre, sm));
                    }
                },
                Some(seat) => {
                    match &f.printed_team {
                        Some(printed) => {
                            upsert_reading(&mut readings, (f.round, f.document, rr), printed.as_str(), seat.team.as_str(), f.car);
                        },
                        None => {},
                    }
                    upsert_cell(&mut cells, seat, &f.component, f.round, &f.claim);
                    proof {
                        assert(unknown_seats(cur, sm) == unknown_seats(pre, sm));
                        assert forall|x: (Round, u32, Car)|
                            unseated_keys@.contains(x) <==> exists|j: int|
                                0 <= j < i + 1 && unseated(sm, #[trigger] fs[j]) && doc_car(fs[j]) == x by {
                            if exists|j: int| 0 <= j < i + 1 && unseated(sm, #[trigger] fs[j]) && doc_car(fs[j]) == x {
                                let j = choose|j: int| 0 <= j < i + 1 && unseated(sm, #[trigger] fs[j]) && doc_car(fs[j]) == x;
                                assert(j < i);
                            }
                        }
                    }
                },
            }
        } else {
            proof {
                assert(unknown_seats(cur, sm) == unknown_seats(pre, sm));
                assert(readings_of(cur, sm) == readings_of(pre, sm));
                assert(timelines_of(cur, sm) == timelines_of(pre, sm));
                assert forall|x: (Round, u32, Car)|
                    unseated_keys@.contains(x) <==> exists|j: int|
                        0 <= j < i + 1 && unseated(sm, #[trigger] fs[j]) && doc_car(fs[j]) == x by {
                    if exists|j: int| 0 <= j < i + 1 && unseated(sm, #[trigger] fs[j]) && doc_car(fs[j]) == x {
                        let j = choose|j: int| 0 <= j < i + 1 && unseated(sm, #[trigger] fs[j]) && doc_car(fs[j]) == x;
                        assert(j < i);
                    }
                }
            }
        }
        i = i + 1;
    }
    proof {
        assert(fs.take(i as int) =~= fs);
    }
    (conflicts, readings, cells)
}


// ---------------------------------------------------------------------------
// Comparing one reading's grouping with the roster's.
// ---------------------------------------------------------------------------
type Group = (Team, Vec<Car>);

spec fn group_pairs(v: Seq<Group>) -> Seq<(Seq<char>, Set<Car>)> {
    v.map_values(|g: Group| (g.0@, crate::seat::seq_set(g.1@)))
}

spec fn gmap(v: Seq<Group>) -> Map<Seq<char>, Set<Car>> {
    pairs_map(group_pairs(v))
}

spec fn group_names(v: Seq<Group>) -> Seq<Seq<char>> {
    v.map_values(|g: Group| g.0@)
}

spec fn groups_ok(v: Seq<Group>) -> bool {
    &&& strictly_sorted(group_names(v), name_lt())
    &&& forall|i: int| 0 <= i < v.len() ==> strictly_sorted((#[trigger] v[i]).1@, car_lt())
}

proof fn lemma_groups_distinct(v: Seq<Group>)
    requires
        groups_ok(v),
    ensures
        crate::order::distinct_keys(group_pairs(v)),
{
    assert forall|a: int, b: int| 0 <= a < b < group_pairs(v).len() implies (#[trigger] group_pairs(v)[a]).0
        != (#[trigger] group_pairs(v)[b]).0 by {
        assert(seq_lt(group_names(v)[a], group_names(v)[b]));
        crate::order::lemma_seq_lt_irreflexive(group_names(v)[a]);
    }
}

/// Merge `cars` into the group named `name`.
fn add_to_group(groups: &mut Vec<Group>, name: &str, cars: &Vec<Car>)
    requires
        groups_ok(old(groups)@),
        strictly_sorted(cars@, car_lt()),
    ensures
        groups_ok(final(groups)@),
        gmap(final(groups)@) == gmap(old(groups)@).insert(
            name@,
            (if gmap(old(groups)@).contains_key(name@) {
                gmap(old(groups)@)[name@]
            } else {
                Set::empty()
            }).union(crate::seat::seq_set(cars@)),
        ),
{
    proof {
        lemma_groups_distinct(groups@);
        crate::order::lemma_seq_lt_strict_total();
    }
    let mut p: usize = 0;
    while p < groups.len() && crate::text::str_lt(groups[p].0.as_str(), name)
        invariant
            p <= groups@.len(),
            groups@ == old(groups)@,
            forall|j: int| 0 <= j < p ==> seq_lt(#[trigger] group_names(groups@)[j], name@),
        decreases groups.len() - p,
    {
        p = p + 1;
    }
    let ghost before = groups@;
    if p < groups.len() && crate::text::str_eq(groups[p].0.as_str(), name) {
        proof {
            crate::order::lemma_pairs_map_distinct(group_pairs(before), p as int);
        }
        let mut g = groups.remove(p);
        let ghost start = g.1@;
        let ghost gname = g.0;
        assert(g == before[p as int]);
        let mut k: usize = 0;
        while k < cars.len()
            invariant
                k <= cars@.len(),
                g.0 == gname,
                strictly_sorted(cars@, car_lt()),
                strictly_sorted(g.1@, car_lt()),
                forall|x: Car| #[trigger] g.1@.contains(x) <==> (start.contains(x) || cars@.take(k as int).contains(x)),
            decreases cars.len() - k,
        {
            let ghost gb = g.1@;
            crate::seat::insert_sorted_u16(&mut g.1, cars[k]);
            assert forall|x: Car| g.1@.contains(x) <==> (start.contains(x) || cars@.take(k + 1).contains(x)) by {
                assert(g.1@.contains(x) <==> (gb.contains(x) || x == cars@[k as int]));
                assert(gb.contains(x) <==> (start.contains(x) || cars@.take(k as int).contains(x)));
                assert(cars@.take(k + 1) =~= cars@.take(k as int).push(cars@[k as int]));
                let tk = cars@.take(k + 1);
                if tk.contains(x) && x != cars@[k as int] {
                    let m = choose|m: int| 0 <= m < tk.len() && tk[m] == x;
                    assert(cars@.take(k as int)[m] == x);
                }
                if cars@.take(k as int).contains(x) {
                    let m = choose|m: int| 0 <= m < k && cars@.take(k as int)[m] == x;
                    assert(cars@.take(k + 1)[m] == x);
                }
                if x == cars@[k as int] {
                    assert(cars@.take(k + 1)[k as int] == x);
                }
            }
            k = k + 1;
        }
        groups.insert(p, g);
        proof {
            assert(cars@.take(k as int) =~= cars@);
            let newset = crate::seat::seq_set(g.1@);
            assert(newset =~= crate::seat::seq_set(start).union(crate::seat::seq_set(cars@)));
            assert(groups@ =~= before.update(p as int, g));
            assert(group_pairs(groups@) =~= group_pairs(before).update(p as int, (group_pairs(before)[p as int].0, newset)));
            crate::order::lemma_distinct_map_update(group_pairs(before), p as int, newset);
            assert(group_names(groups@) =~= group_names(before));
            assert forall|j: int| 0 <= j < groups@.len() implies strictly_sorted((#[trigger] groups@[j]).1@, car_lt()) by {
                if j != p {
                    assert(groups@[j] == before[j]);
                }
            }
        }
    } else {
        proof {
            if p < before.len() {
                assert(group_names(before)[p as int] != name@);
                crate::order::lemma_seq_lt_total(name@, group_names(before)[p as int]);
            }
            assert forall|j: int| p <= j < before.len() implies seq_lt(name@, #[trigger] group_names(before)[j]) by {
                if j > p {
                    assert(seq_lt(group_names(before)[p as int], group_names(before)[j]));
                    crate::order::lemma_seq_lt_transitive(name@, group_names(before)[p as int], group_names(before)[j]);
                }
            }
            assert forall|i: int| 0 <= i < group_pairs(before).len() implies (#[trigger] group_pairs(before)[i]).0 != name@ by {
                crate::order::lemma_seq_lt_irreflexive(name@);
                if i < p {
                    assert(seq_lt(group_names(before)[i], name@));
                } else {
                    assert(seq_lt(name@, group_names(before)[i]));
                }
            }
            crate::order::lemma_pairs_map_dom(group_pairs(before), name@);
        }
        let mut copy: Vec<Car> = Vec::new();
        let mut k: usize = 0;
        while k < cars.len()
            invariant
                k <= cars@.len(),
                copy@ == cars@.take(k as int),
            decreases cars.len() - k,
        {
            copy.push(cars[k]);
            assert(cars@.take(k + 1) =~= cars@.take(k as int).push(cars@[k as int]));
            k = k + 1;
        }
        assert(cars@.take(k as int) =~= cars@);
        let g = (String::from_str(name), copy);
        groups.insert(p, g);
        proof {
            let newset = crate::seat::seq_set(g.1@);
            assert(newset =~= Set::<Car>::empty().union(crate::seat::seq_set(cars@)));
            assert(group_pairs(groups@) =~= group_pairs(before).insert(p as int, (name@, newset)));
            crate::order::lemma_distinct_map_insert(group_pairs(before), p as int, (name@, newset));
            assert(group_names(groups@) =~= group_names(before).insert(p as int, name@));
            assert forall|i: int, j: int| 0 <= i < j < group_names(groups@).len() implies seq_lt(
                #[trigger] group_names(groups@)[i],
                #[trigger] group_names(groups@)[j],
            ) by {
                if i < p && j == p {
                } else if i < p && j > p {
                    assert(group_names(groups@)[j] == group_names(before)[j - 1]);
                    crate::order::lemma_seq_lt_transitive(group_names(before)[i], name@, group_names(before)[j - 1]);
                } else if i == p {
                    assert(group_names(groups@)[j] == group_names(before)[j - 1]);
                } else if i > p {
                    assert(group_names(groups@)[i] == group_names(before)[i - 1]);
                    assert(group_names(groups@)[j] == group_names(before)[j - 1]);
                }
            }
            assert forall|j: int| 0 <= j < groups@.len() implies strictly_sorted((#[trigger] groups@[j]).1@, car_lt()) by {
                if j < p {
                    assert(groups@[j] == before[j]);
                } else if j > p {
                    assert(groups@[j] == before[j - 1]);
                }
            }
        }
    }
}

/// A well-formed grouping is the sorted form of its map.
proof fn lemma_groups_sorted(v: Seq<Group>, m: Map<Seq<char>, Set<Car>>)
    requires
        groups_ok(v),
        gmap(v) == m,
    ensures
        groups_view(v) == sorted_groups(m),
{
    lemma_groups_distinct(v);
    lemma_name_lt_strict_total();
    crate::order::lemma_u16_strict_total();
    assert forall|x: Seq<char>| group_names(v).contains(x) <==> m.dom().contains(x) by {
        crate::order::lemma_pairs_map_dom(group_pairs(v), x);
        if group_names(v).contains(x) {
            let i = choose|i: int| 0 <= i < group_names(v).len() && group_names(v)[i] == x;
            assert(group_pairs(v)[i].0 == x);
        }
        if m.dom().contains(x) {
            let i = choose|i: int| 0 <= i < group_pairs(v).len() && (#[trigger] group_pairs(v)[i]).0 == x;
            assert(group_names(v)[i] == x);
        }
    }
    crate::order::lemma_sorted_seq_of(group_names(v), m.dom(), name_lt());
    let names = sorted_seq_of(m.dom(), name_lt());
    assert forall|i: int| 0 <= i < v.len() implies groups_view(v)[i] == (names[i], sorted_seq_of(m[names[i]], car_lt())) by {
        crate::order::lemma_pairs_map_distinct(group_pairs(v), i);
        assert(m[names[i]] == crate::seat::seq_set(v[i].1@));
        crate::order::lemma_sorted_seq_of(v[i].1@, m[names[i]], car_lt());
    }
    assert(groups_view(v) =~= sorted_groups(m));
}

spec fn pair_of(cells: Seq<GCell>, i: int) -> (Seq<char>, Seq<char>) {
    (cells[i].0@, cells[i].1@)
}

/// Whether cell `i` breaks the one-to-one correspondence.
fn breaks_correspondence(cells: &Vec<GCell>, i: usize) -> (r: bool)
    requires
        i < cells@.len(),
        gcells_ok(cells@),
    ensures
        r == flagged(gcells_map(cells@), cells@[i as int].0@, cells@[i as int].1@),
{
    let ghost c = gcells_map(cells@);
    let ghost p = cells@[i as int].0@;
    let ghost e = cells@[i as int].1@;
    proof {
        crate::order::lemma_pairs_map_dom(gcell_pairs(cells@), (p, e));
        assert(gcell_pairs(cells@)[i as int].0 == (p, e));
    }
    let mut j: usize = 0;
    while j < cells.len()
        invariant
            j <= cells@.len(),
            i < cells@.len(),
            c == gcells_map(cells@),
            p == cells@[i as int].0@,
            e == cells@[i as int].1@,
            c.contains_key((p, e)),
            forall|k: int| 0 <= k < j ==> !((cells@[k].0@ == p && cells@[k].1@ != e) || (cells@[k].1@ == e
                && cells@[k].0@ != p)),
        decreases cells.len() - j,
    {
        let same_p = crate::text::str_eq(cells[j].0.as_str(), cells[i].0.as_str());
        let same_e = crate::text::str_eq(cells[j].1.as_str(), cells[i].1.as_str());
        if same_p != same_e {
            proof {
                crate::order::lemma_pairs_map_dom(gcell_pairs(cells@), pair_of(cells@, j as int));
                assert(gcell_pairs(cells@)[j as int].0 == pair_of(cells@, j as int));
                if same_p {
                    assert(c.contains_key((p, cells@[j as int].1@)));
                    assert(merging(c, p));
                } else {
                    assert(c.contains_key((cells@[j as int].0@, e)));
                    assert(splitting(c, e));
                }
            }
            return true;
        }
        j = j + 1;
    }
    proof {
        assert forall|e1: Seq<char>, e2: Seq<char>|
            e1 != e2 && #[trigger] c.contains_key((p, e1)) && #[trigger] c.contains_key((p, e2)) implies false by {
            crate::order::lemma_pairs_map_dom(gcell_pairs(cells@), (p, e1));
            crate::order::lemma_pairs_map_dom(gcell_pairs(cells@), (p, e2));
            let k1 = choose|k: int| 0 <= k < gcell_pairs(cells@).len() && (#[trigger] gcell_pairs(cells@)[k]).0 == (p, e1);
            let k2 = choose|k: int| 0 <= k < gcell_pairs(cells@).len() && (#[trigger] gcell_pairs(cells@)[k]).0 == (p, e2);
            assert(pair_of(cells@, k1) == (p, e1));
            assert(pair_of(cells@, k2) == (p, e2));
        }
        assert forall|p1: Seq<char>, p2: Seq<char>|
            p1 != p2 && #[trigger] c.contains_key((p1, e)) && #[trigger] c.contains_key((p2, e)) implies false by {
            crate::order::lemma_pairs_map_dom(gcell_pairs(cells@), (p1, e));
            crate::order::lemma_pairs_map_dom(gcell_pairs(cells@), (p2, e));
            let k1 = choose|k: int| 0 <= k < gcell_pairs(cells@).len() && (#[trigger] gcell_pairs(cells@)[k]).0 == (p1, e);
            let k2 = choose|k: int| 0 <= k < gcell_pairs(cells@).len() && (#[trigger] gcell_pairs(cells@)[k]).0 == (p2, e);
            assert(pair_of(cells@, k1) == (p1, e));
            assert(pair_of(cells@, k2) == (p2, e));
        }
    }
    false
}


/// The printed-side grouping over the first `n` cells.
spec fn pg_upto(cells: Seq<GCell>, c: CellsV, n: int) -> Map<Seq<char>, Set<Car>> {
    Map::new(
        |p: Seq<char>| exists|j: int| 0 <= j < n && (#[trigger] cells[j]).0@ == p && flagged(c, p, cells[j].1@),
        |p: Seq<char>|
            Set::new(
                |car: Car|
                    exists|j: int|
                        0 <= j < n && (#[trigger] cells[j]).0@ == p && flagged(c, p, cells[j].1@)
                            && crate::seat::seq_set(cells[j].2@).contains(car),
            ),
    )
}

/// The entered-side grouping over the first `n` cells.
spec fn eg_upto(cells: Seq<GCell>, c: CellsV, n: int) -> Map<Seq<char>, Set<Car>> {
    Map::new(
        |e: Seq<char>| exists|j: int| 0 <= j < n && (#[trigger] cells[j]).1@ == e && flagged(c, cells[j].0@, e),
        |e: Seq<char>|
            Set::new(
                |car: Car|
                    exists|j: int|
                        0 <= j < n && (#[trigger] cells[j]).1@ == e && flagged(c, cells[j].0@, e)
                            && crate::seat::seq_set(cells[j].2@).contains(car),
            ),
    )
}

proof fn lemma_pg_step(cells: Seq<GCell>, c: CellsV, i: int)
    requires
        0 <= i < cells.len(),
    ensures
        flagged(c, cells[i].0@, cells[i].1@) ==> pg_upto(cells, c, i + 1) == pg_upto(cells, c, i).insert(
            cells[i].0@,
            (if pg_upto(cells, c, i).contains_key(cells[i].0@) {
                pg_upto(cells, c, i)[cells[i].0@]
            } else {
                Set::empty()
            }).union(crate::seat::seq_set(cells[i].2@)),
        ),
        !flagged(c, cells[i].0@, cells[i].1@) ==> pg_upto(cells, c, i + 1) == pg_upto(cells, c, i),
        flagged(c, cells[i].0@, cells[i].1@) ==> eg_upto(cells, c, i + 1) == eg_upto(cells, c, i).insert(
            cells[i].1@,
            (if eg_upto(cells, c, i).contains_key(cells[i].1@) {
                eg_upto(cells, c, i)[cells[i].1@]
            } else {
                Set::empty()
            }).union(crate::seat::seq_set(cells[i].2@)),
        ),
        !flagged(c, cells[i].0@, cells[i].1@) ==> eg_upto(cells, c, i + 1) == eg_upto(cells, c, i),
{
    let a = pg_upto(cells, c, i);
    let b = pg_upto(cells, c, i + 1);
    let pi = cells[i].0@;
    let ei = cells[i].1@;
    let ci = crate::seat::seq_set(cells[i].2@);
    if flagged(c, pi, ei) {
        let t = a.insert(pi, (if a.contains_key(pi) { a[pi] } else { Set::empty() }).union(ci));
        assert forall|p: Seq<char>| b.contains_key(p) <==> t.contains_key(p) by {
            if b.contains_key(p) && p != pi {
                let j = choose|j: int| 0 <= j < i + 1 && (#[trigger] cells[j]).0@ == p && flagged(c, p, cells[j].1@);
                assert(j != i);
            }
        }
        assert forall|p: Seq<char>| #[trigger] b.contains_key(p) implies b[p] =~= t[p] by {
            assert forall|car: Car| b[p].contains(car) <==> t[p].contains(car) by {
                if b[p].contains(car) && p != pi {
                    let j = choose|j: int|
                        0 <= j < i + 1 && (#[trigger] cells[j]).0@ == p && flagged(c, p, cells[j].1@)
                            && crate::seat::seq_set(cells[j].2@).contains(car);
                    assert(j != i);
                }
                if b[p].contains(car) && p == pi {
                    let j = choose|j: int|
                        0 <= j < i + 1 && (#[trigger] cells[j]).0@ == p && flagged(c, p, cells[j].1@)
                            && crate::seat::seq_set(cells[j].2@).contains(car);
                    if j < i {
                        assert(a.contains_key(p));
                        assert(a[p].contains(car));
                    }
                }
                if t[p].contains(car) && p == pi && !ci.contains(car) {
                    assert(a.contains_key(p));
                    let j = choose|j: int|
                        0 <= j < i && (#[trigger] cells[j]).0@ == p && flagged(c, p, cells[j].1@)
                            && crate::seat::seq_set(cells[j].2@).contains(car);
                }
                if t[p].contains(car) && p != pi {
                    let j = choose|j: int|
                        0 <= j < i && (#[trigger] cells[j]).0@ == p && flagged(c, p, cells[j].1@)
                            && crate::seat::seq_set(cells[j].2@).contains(car);
                }
            }
        }
        assert(b =~= t);
    } else {
        assert forall|p: Seq<char>| b.contains_key(p) <==> a.contains_key(p) by {
            if b.contains_key(p) {
                let j = choose|j: int| 0 <= j < i + 1 && (#[trigger] cells[j]).0@ == p && flagged(c, p, cells[j].1@);
                assert(j != i);
            }
        }
        assert forall|p: Seq<char>| #[trigger] b.contains_key(p) implies b[p] =~= a[p] by {
            assert forall|car: Car| b[p].contains(car) <==> a[p].contains(car) by {
                if b[p].contains(car) {
                    let j = choose|j: int|
                        0 <= j < i + 1 && (#[trigger] cells[j]).0@ == p && flagged(c, p, cells[j].1@)
                            && crate::seat::seq_set(cells[j].2@).contains(car);
                    assert(j != i);
                }
            }
        }
        assert(b =~= a);
    }
    let a2 = eg_upto(cells, c, i);
    let b2 = eg_upto(cells, c, i + 1);
    if flagged(c, pi, ei) {
        let t = a2.insert(ei, (if a2.contains_key(ei) { a2[ei] } else { Set::empty() }).union(ci));
        assert forall|e: Seq<char>| b2.contains_key(e) <==> t.contains_key(e) by {
            if b2.contains_key(e) && e != ei {
                let j = choose|j: int| 0 <= j < i + 1 && (#[trigger] cells[j]).1@ == e && flagged(c, cells[j].0@, e);
                assert(j != i);
            }
        }
        assert forall|e: Seq<char>| #[trigger] b2.contains_key(e) implies b2[e] =~= t[e] by {
            assert forall|car: Car| b2[e].contains(car) <==> t[e].contains(car) by {
                if b2[e].contains(car) && e != ei {
                    let j = choose|j: int|
                        0 <= j < i + 1 && (#[trigger] cells[j]).1@ == e && flagged(c, cells[j].0@, e)
                            && crate::seat::seq_set(cells[j].2@).contains(car);
                    assert(j != i);
                }
                if b2[e].contains(car) && e == ei {
                    let j = choose|j: int|
                        0 <= j < i + 1 && (#[trigger] cells[j]).1@ == e && flagged(c, cells[j].0@, e)
                            && crate::seat::seq_set(cells[j].2@).contains(car);
                    if j < i {
                        assert(a2.contains_key(e));
                        assert(a2[e].contains(car));
                    }
                }
                if t[e].contains(car) && e == ei && !ci.contains(car) {
                    assert(a2.contains_key(e));
                    let j = choose|j: int|
                        0 <= j < i && (#[trigger] cells[j]).1@ == e && flagged(c, cells[j].0@, e)
                            && crate::seat::seq_set(cells[j].2@).contains(car);
                }
                if t[e].contains(car) && e != ei {
                    let j = choose|j: int|
                        0 <= j < i && (#[trigger] cells[j]).1@ == e && flagged(c, cells[j].0@, e)
                            && crate::seat::seq_set(cells[j].2@).contains(car);
                }
            }
        }
        assert(b2 =~= t);
    } else {
        assert forall|e: Seq<char>| b2.contains_key(e) <==> a2.contains_key(e) by {
            if b2.contains_key(e) {
                let j = choose|j: int| 0 <= j < i + 1 && (#[trigger] cells[j]).1@ == e && flagged(c, cells[j].0@, e);
                assert(j != i);
            }
        }
        assert forall|e: Seq<char>| #[trigger] b2.contains_key(e) implies b2[e] =~= a2[e] by {
            assert forall|car: Car| b2[e].contains(car) <==> a2[e].contains(car) by {
                if b2[e].contains(car) {
                    let j = choose|j: int|
                        0 <= j < i + 1 && (#[trigger] cells[j]).1@ == e && flagged(c, cells[j].0@, e)
                            && crate::seat::seq_set(cells[j].2@).contains(car);
                    assert(j != i);
                }
            }
        }
        assert(b2 =~= a2);
    }
}

/// Over every cell, the partial groupings are the whole ones.
proof fn lemma_pg_full(cells: Seq<GCell>)
    requires
        gcells_ok(cells),
    ensures
        pg_upto(cells, gcells_map(cells), cells.len() as int) == printed_groups(gcells_map(cells)),
        eg_upto(cells, gcells_map(cells), cells.len() as int) == entered_groups(gcells_map(cells)),
{
    let c = gcells_map(cells);
    let n = cells.len() as int;
    let a = pg_upto(cells, c, n);
    let b = printed_groups(c);
    // The cell holding a pair, and its cars.
    assert forall|p: Seq<char>, e: Seq<char>| #[trigger] c.contains_key((p, e)) implies exists|j: int|
        0 <= j < n && (#[trigger] cells[j]).0@ == p && cells[j].1@ == e && c[(p, e)] == crate::seat::seq_set(
            cells[j].2@,
        ) by {
        crate::order::lemma_pairs_map_dom(gcell_pairs(cells), (p, e));
        let j = choose|j: int| 0 <= j < gcell_pairs(cells).len() && (#[trigger] gcell_pairs(cells)[j]).0 == (p, e);
        crate::order::lemma_pairs_map_distinct(gcell_pairs(cells), j);
        assert(cells[j].0@ == p && cells[j].1@ == e);
    }
    assert forall|j: int| 0 <= j < n implies #[trigger] c.contains_key(pair_of(cells, j)) && c[pair_of(cells, j)]
        == crate::seat::seq_set(cells[j].2@) by {
        crate::order::lemma_pairs_map_distinct(gcell_pairs(cells), j);
        assert(gcell_pairs(cells)[j].0 == pair_of(cells, j));
    }
    assert forall|p: Seq<char>| a.contains_key(p) <==> b.contains_key(p) by {
        if a.contains_key(p) {
            let j = choose|j: int| 0 <= j < n && (#[trigger] cells[j]).0@ == p && flagged(c, p, cells[j].1@);
            assert(flagged(c, p, cells[j].1@));
        }
        if b.contains_key(p) {
            let e = choose|e: Seq<char>| flagged(c, p, e);
            assert(c.contains_key((p, e)));
            let j = choose|j: int|
                0 <= j < n && (#[trigger] cells[j]).0@ == p && cells[j].1@ == e && c[(p, e)] == crate::seat::seq_set(
                    cells[j].2@,
                );
        }
    }
    assert forall|p: Seq<char>| #[trigger] a.contains_key(p) implies a[p] =~= b[p] by {
        assert forall|car: Car| a[p].contains(car) <==> b[p].contains(car) by {
            if a[p].contains(car) {
                let j = choose|j: int|
                    0 <= j < n && (#[trigger] cells[j]).0@ == p && flagged(c, p, cells[j].1@)
                        && crate::seat::seq_set(cells[j].2@).contains(car);
                assert(c.contains_key(pair_of(cells, j)));
                assert(flagged(c, p, cells[j].1@) && c[(p, cells[j].1@)].contains(car));
            }
            if b[p].contains(car) {
                let e = choose|e: Seq<char>| flagged(c, p, e) && c[(p, e)].contains(car);
                assert(c.contains_key((p, e)));
                let j = choose|j: int|
                    0 <= j < n && (#[trigger] cells[j]).0@ == p && cells[j].1@ == e && c[(p, e)] == crate::seat::seq_set(
                        cells[j].2@,
                    );
            }
        }
    }
    assert(a =~= b);
    let a2 = eg_upto(cells, c, n);
    let b2 = entered_groups(c);
    assert forall|e: Seq<char>| a2.contains_key(e) <==> b2.contains_key(e) by {
        if a2.contains_key(e) {
            let j = choose|j: int| 0 <= j < n && (#[trigger] cells[j]).1@ == e && flagged(c, cells[j].0@, e);
            assert(flagged(c, cells[j].0@, e));
        }
        if b2.contains_key(e) {
            let p = choose|p: Seq<char>| flagged(c, p, e);
            assert(c.contains_key((p, e)));
            let j = choose|j: int|
                0 <= j < n && (#[trigger] cells[j]).0@ == p && cells[j].1@ == e && c[(p, e)] == crate::seat::seq_set(
                    cells[j].2@,
                );
        }
    }
    assert forall|e: Seq<char>| #[trigger] a2.contains_key(e) implies a2[e] =~= b2[e] by {
        assert forall|car: Car| a2[e].contains(car) <==> b2[e].contains(car) by {
            if a2[e].contains(car) {
                let j = choose|j: int|
                    0 <= j < n && (#[trigger] cells[j]).1@ == e && flagged(c, cells[j].0@, e)
                        && crate::seat::seq_set(cells[j].2@).contains(car);
                assert(c.contains_key(pair_of(cells, j)));
                assert(flagged(c, cells[j].0@, e) && c[(cells[j].0@, e)].contains(car));
            }
            if b2[e].contains(car) {
                let p = choose|p: Seq<char>| flagged(c, p, e) && c[(p, e)].contains(car);
                assert(c.contains_key((p, e)));
                let j = choose|j: int|
                    0 <= j < n && (#[trigger] cells[j]).0@ == p && cells[j].1@ == e && c[(p, e)] == crate::seat::seq_set(
                        cells[j].2@,
                    );
            }
        }
    }
    assert(a2 =~= b2);
}

/// The conflict one reading raises, if its two groupings disagree.
///
/// They agree when each printed string covers one entered team and each
/// entered team sits under one printed string. The cells that break that
/// correspondence hold the cars that disagree.
fn grouping_conflict(rk: ReadingKey, cells: &Vec<GCell>) -> (r: Option<Conflict>)
    requires
        gcells_ok(cells@),
    ensures
        match grouping_conflict_spec(rk, gcells_map(cells@)) {
            Some(c) => r.is_some() && r.unwrap()@ == c,
            None => r.is_none(),
        },
{
    let ghost c = gcells_map(cells@);
    let mut printed: Vec<Group> = Vec::new();
    let mut entered: Vec<Group> = Vec::new();
    proof {
        assert(group_pairs(printed@) =~= Seq::<(Seq<char>, Set<Car>)>::empty());
        assert(gmap(printed@) =~= pg_upto(cells@, c, 0));
        assert(gmap(entered@) =~= eg_upto(cells@, c, 0));
    }
    let mut i: usize = 0;
    while i < cells.len()
        invariant
            i <= cells@.len(),
            gcells_ok(cells@),
            c == gcells_map(cells@),
            groups_ok(printed@),
            groups_ok(entered@),
            gmap(printed@) == pg_upto(cells@, c, i as int),
            gmap(entered@) == eg_upto(cells@, c, i as int),
        decreases cells.len() - i,
    {
        proof {
            lemma_pg_step(cells@, c, i as int);
        }
        if breaks_correspondence(cells, i) {
            add_to_group(&mut printed, cells[i].0.as_str(), &cells[i].2);
            add_to_group(&mut entered, cells[i].1.as_str(), &cells[i].2);
        }
        i = i + 1;
    }
    proof {
        lemma_pg_full(cells@);
        lemma_groups_sorted(printed@, printed_groups(c));
        lemma_groups_sorted(entered@, entered_groups(c));
    }
    if printed.len() == 0 {
        proof {
            if exists|p: Seq<char>, e: Seq<char>| flagged(c, p, e) {
                let (p, e) = choose|p: Seq<char>, e: Seq<char>| flagged(c, p, e);
                assert(printed_groups(c).contains_key(p));
                crate::order::lemma_pairs_map_dom(group_pairs(printed@), p);
            }
        }
        None
    } else {
        proof {
            crate::order::lemma_pairs_map_dom(group_pairs(printed@), printed@[0].0@);
            assert(group_pairs(printed@)[0].0 == printed@[0].0@);
            assert(printed_groups(c).contains_key(printed@[0].0@));
        }
        Some(Conflict::TeamGroupingMismatch { document_round: rk.0, roster_round: rk.2, printed, entered })
    }
}


// ---------------------------------------------------------------------------
// The passes over readings and timelines.
// ---------------------------------------------------------------------------
/// A sorted cell list is its map's sorted key sequence, each key holding its
/// cell's data.
proof fn lemma_cells_sorted(cells: Seq<Cell>)
    requires
        strictly_sorted(cell_keys(cells), cell_lt()),
    ensures
        sorted_seq_of(cell_map(cells).dom(), cell_lt()) == cell_keys(cells),
        forall|i: int|
            0 <= i < cells.len() ==> #[trigger] cell_map(cells)[cell_keys(cells)[i]] == cells[i].data@,
{
    lemma_sorted_distinct_cells(cells);
    lemma_cell_lt_strict_total();
    assert forall|x: CellKey| cell_keys(cells).contains(x) <==> cell_map(cells).dom().contains(x) by {
        crate::order::lemma_pairs_map_dom(cell_pairs(cells), x);
        if cell_keys(cells).contains(x) {
            let i = choose|i: int| 0 <= i < cell_keys(cells).len() && cell_keys(cells)[i] == x;
            assert(cell_pairs(cells)[i].0 == x);
        }
        if cell_map(cells).dom().contains(x) {
            let i = choose|i: int| 0 <= i < cell_pairs(cells).len() && (#[trigger] cell_pairs(cells)[i]).0 == x;
            assert(cell_keys(cells)[i] == x);
        }
    }
    crate::order::lemma_sorted_seq_of(cell_keys(cells), cell_map(cells).dom(), cell_lt());
    assert forall|i: int| 0 <= i < cells.len() implies #[trigger] cell_map(cells)[cell_keys(cells)[i]]
        == cells[i].data@ by {
        crate::order::lemma_pairs_map_distinct(cell_pairs(cells), i);
    }
}

/// Append each reading's grouping conflict, in reading order.
fn grouping_conflicts(readings: &Vec<Reading>, out: &mut Vec<Conflict>)
    requires
        readings_ok(readings@),
    ensures
        conflicts_view(final(out)@) == conflicts_view(old(out)@) + grouping_list(
            readings_map(readings@),
            sorted_seq_of(readings_map(readings@).dom(), rk_lt()),
        ),
{
    let ghost m = readings_map(readings@);
    let ghost ks = reading_keys(readings@);
    proof {
        lemma_rk_lt_strict_total();
        assert forall|a: int, b: int| 0 <= a < b < reading_pairs(readings@).len() implies (#[trigger] reading_pairs(
            readings@,
        )[a]).0 != (#[trigger] reading_pairs(readings@)[b]).0 by {
            assert(rk_less(ks[a], ks[b]));
        }
        assert forall|x: ReadingKey| ks.contains(x) <==> m.dom().contains(x) by {
            crate::order::lemma_pairs_map_dom(reading_pairs(readings@), x);
            if ks.contains(x) {
                let i = choose|i: int| 0 <= i < ks.len() && ks[i] == x;
                assert(reading_pairs(readings@)[i].0 == x);
            }
            if m.dom().contains(x) {
                let i = choose|i: int| 0 <= i < reading_pairs(readings@).len() && (#[trigger] reading_pairs(readings@)[i]).0 == x;
                assert(ks[i] == x);
            }
        }
        crate::order::lemma_sorted_seq_of(ks, m.dom(), rk_lt());
        assert(ks.take(0) =~= Seq::<ReadingKey>::empty());
        assert(conflicts_view(out@) =~= conflicts_view(old(out)@) + grouping_list(m, ks.take(0)));
    }
    let mut i: usize = 0;
    while i < readings.len()
        invariant
            i <= readings@.len(),
            readings_ok(readings@),
            m == readings_map(readings@),
            ks == reading_keys(readings@),
            crate::order::distinct_keys(reading_pairs(readings@)),
            conflicts_view(out@) == conflicts_view(old(out)@) + grouping_list(m, ks.take(i as int)),
        decreases readings.len() - i,
    {
        proof {
            crate::order::lemma_pairs_map_distinct(reading_pairs(readings@), i as int);
            assert(ks.take(i + 1).drop_last() =~= ks.take(i as int));
            assert(ks.take(i + 1).last() == readings@[i as int].key);
        }
        let ghost before = conflicts_view(out@);
        match grouping_conflict(readings[i].key, &readings[i].cells) {
            Some(c) => {
                out.push(c);
                assert(conflicts_view(out@) =~= before.push(c@));
            },
            None => {},
        }
        i = i + 1;
    }
    proof {
        assert(ks.take(i as int) =~= ks);
    }
}

fn series_eq(a: &(Seat, ComponentCode), b: &(Seat, ComponentCode)) -> (r: bool)
    ensures
        r == ((a.0@, a.1@) == (b.0@, b.1@)),
{
    a.0.season == b.0.season && crate::text::str_eq(a.0.team.as_str(), b.0.team.as_str()) && a.0.slot
        == b.0.slot && crate::text::str_eq(a.1.as_str(), b.1.as_str())
}

fn series_vec_eq(a: &Vec<(Seat, ComponentCode)>, b: &Vec<(Seat, ComponentCode)>) -> (r: bool)
    ensures
        r == (series_view(a@) == series_view(b@)),
{
    if a.len() != b.len() {
        assert(series_view(a@).len() != series_view(b@).len());
        return false;
    }
    let mut i: usize = 0;
    while i < a.len()
        invariant
            i <= a@.len(),
            a@.len() == b@.len(),
            forall|j: int| 0 <= j < i ==> series_view(a@)[j] == series_view(b@)[j],
        decreases a.len() - i,
    {
        if !series_eq(&a[i], &b[i]) {
            assert(series_view(a@)[i as int] != series_view(b@)[i as int]);
            return false;
        }
        i = i + 1;
    }
    assert(series_view(a@) =~= series_view(b@));
    true
}

/// Whether two cells belong to one `(seat, component)`.
fn same_series(a: &Cell, b: &Cell) -> (r: bool)
    ensures
        r == (cell_key(*a).0 == cell_key(*b).0 && cell_key(*a).1 == cell_key(*b).1 && cell_key(*a).2
            == cell_key(*b).2 && cell_key(*a).3 == cell_key(*b).3),
{
    a.seat.season == b.seat.season && crate::text::str_eq(a.seat.team.as_str(), b.seat.team.as_str())
        && a.seat.slot == b.seat.slot && crate::text::str_eq(a.component.as_str(), b.component.as_str())
}

spec fn seen_has(v: Seq<ComponentCode>, x: Seq<char>) -> bool {
    exists|j: int| 0 <= j < v.len() && (#[trigger] v[j])@ == x
}

spec fn unknown_before(ks: Seq<CellKey>, n: int, a: Map<Seq<char>, u32>, x: Seq<char>) -> bool {
    exists|j: int| 0 <= j < n && (#[trigger] ks[j]).3 == x && !a.contains_key(x)
}

fn has_code(v: &Vec<ComponentCode>, c: &ComponentCode) -> (r: bool)
    ensures
        r == (exists|i: int| 0 <= i < v@.len() && (#[trigger] v@[i])@ == c@),
{
    let mut i: usize = 0;
    while i < v.len()
        invariant
            i <= v@.len(),
            forall|j: int| 0 <= j < i ==> v@[j]@ != c@,
        decreases v.len() - i,
    {
        if crate::text::str_eq(v[i].as_str(), c.as_str()) {
            return true;
        }
        i = i + 1;
    }
    false
}

/// The conflicts cell `i` proves on its own.
#[verifier::rlimit(40)]
fn cell_conflicts(
    cells: &Vec<Cell>,
    i: usize,
    allowances: &Allowances,
    seen: &mut Vec<ComponentCode>,
) -> (r: Vec<Conflict>)
    requires
        i < cells@.len(),
        strictly_sorted(cell_keys(cells@), cell_lt()),
        forall|x: Seq<char>|
            #![trigger seen_has(old(seen)@, x)] #![trigger unknown_before(cell_keys(cells@), i as int, allowances@, x)] seen_has(old(seen)@, x) <==> unknown_before(cell_keys(cells@), i as int, allowances@, x),
    ensures
        conflicts_view(r@) == cell_local(
            cell_map(cells@),
            cell_keys(cells@),
            i as int,
            allowances@,
        ),
        forall|x: Seq<char>|
            #![trigger seen_has(final(seen)@, x)] #![trigger unknown_before(cell_keys(cells@), i + 1, allowances@, x)] seen_has(final(seen)@, x) <==> unknown_before(cell_keys(cells@), i + 1, allowances@, x),
{
    let ghost t = cell_map(cells@);
    let ghost ks = cell_keys(cells@);
    let ghost a = allowances@;
    proof {
        lemma_cells_sorted(cells@);
    }
    let c = &cells[i];
    let ghost k = ks[i as int];
    assert(t[k] == c.data@);
    let mut out: Vec<Conflict> = Vec::new();
    let ghost old_seen = seen@;
    let unknown = allowances.allowance(&c.component).is_none();
    assert(unknown == !a.contains_key(k.3));
    let fresh = unknown && !has_code(seen, &c.component);
    proof {
        assert(seen_has(old_seen, k.3) <==> unknown_before(ks, i as int, a, k.3));
        if unknown {
            if exists|j: int| 0 <= j < i && (#[trigger] ks[j]).3 == k.3 {
                assert(unknown_before(ks, i as int, a, k.3));
            }
            if unknown_before(ks, i as int, a, k.3) {
                let j = choose|j: int| 0 <= j < i && (#[trigger] ks[j]).3 == k.3 && !a.contains_key(k.3);
                assert(exists|j: int| 0 <= j < i && (#[trigger] ks[j]).3 == k.3);
            }
        }
        assert(fresh == (!a.contains_key(k.3) && !(exists|j: int| 0 <= j < i && (#[trigger] ks[j]).3 == k.3)));
    }
    if fresh {
        out.push(Conflict::UnknownComponent { component: c.component.clone() });
        seen.push(c.component.clone());
    }
    proof {
        assert forall|x: Seq<char>| #[trigger] seen_has(seen@, x) <==> unknown_before(ks, i + 1, a, x) by {
            assert(seen_has(old_seen, x) <==> unknown_before(ks, i as int, a, x));
            if exists|j: int| 0 <= j < seen@.len() && (#[trigger] seen@[j])@ == x {
                let j = choose|j: int| 0 <= j < seen@.len() && (#[trigger] seen@[j])@ == x;
                if j < old_seen.len() {
                    assert(old_seen[j] == seen@[j]);
                    let jj = choose|jj: int| 0 <= jj < i && (#[trigger] ks[jj]).3 == x && !a.contains_key(x);
                } else {
                    assert(ks[i as int].3 == x);
                }
            }
            if exists|j: int| 0 <= j < i + 1 && (#[trigger] ks[j]).3 == x && !a.contains_key(x) {
                let j = choose|j: int| 0 <= j < i + 1 && (#[trigger] ks[j]).3 == x && !a.contains_key(x);
                if j < i {
                    let jj = choose|jj: int| 0 <= jj < old_seen.len() && (#[trigger] old_seen[jj])@ == x;
                    assert(seen@[jj] == old_seen[jj]);
                } else if exists|jj: int| 0 <= jj < old_seen.len() && (#[trigger] old_seen[jj])@ == x {
                    let jj = choose|jj: int| 0 <= jj < old_seen.len() && (#[trigger] old_seen[jj])@ == x;
                    assert(seen@[jj] == old_seen[jj]);
                } else {
                    assert(seen@[seen@.len() - 1]@ == x);
                }
            }
        }
        if unknown {
            if exists|j: int| 0 <= j < i && (#[trigger] ks[j]).3 == k.3 {
                let j = choose|j: int| 0 <= j < i && (#[trigger] ks[j]).3 == k.3;
                assert(unknown_before(ks, i as int, a, k.3));
                assert(seen_has(old_seen, k.3));
            }
        }
    }
    let ghost o1 = conflicts_view(out@);
    assert(o1 =~= (if !a.contains_key(k.3) && !(exists|j: int| 0 <= j < i && (#[trigger] ks[j]).3 == k.3) {
        seq![ConflictV::UnknownComponent(k.3)]
    } else {
        Seq::empty()
    }));
    let d = c.data;
    let count_after = d.count_after();
    match (d.previously_used, d.snapshot) {
        (Some(previously_used), Some(snapshot)) => {
            if previously_used != snapshot {
                out.push(Conflict::PreviouslyUsedMismatch {
                    seat: c.seat.clone(),
                    component: c.component.clone(),
                    round: c.round,
                    previously_used,
                    snapshot,
                });
            }
        },
        _ => {},
    }
    let ghost o2 = conflicts_view(out@);
    match (d.conformity, count_after) {
        (Some(conformity), Some(count)) => {
            match allowances.exceeds(&c.component, count) {
                Some(computed_exceeds) => {
                    let stated_not_in_conformity = match conformity {
                        Conformity::NotInConformity => true,
                        Conformity::InConformity => false,
                    };
                    if stated_not_in_conformity != computed_exceeds {
                        out.push(Conflict::StatedExceedanceMismatch {
                            seat: c.seat.clone(),
                            component: c.component.clone(),
                            round: c.round,
                            stated_not_in_conformity,
                            computed_exceeds,
                        });
                    }
                },
                None => {},
            }
        },
        _ => {},
    }
    let ghost o3 = conflicts_view(out@);
    match (d.stated_ordinal, count_after) {
        (Some(stated_ordinal), Some(count)) => {
            if stated_ordinal != count {
                out.push(Conflict::OrdinalMismatch {
                    seat: c.seat.clone(),
                    component: c.component.clone(),
                    round: c.round,
                    stated_ordinal,
                    count_after: count,
                });
            }
        },
        _ => {},
    }
    proof {
        let base = o1;
        assert(conflicts_view(out@) =~= cell_local(t, ks, i as int, a));
    }
    out
}

/// Append the conflicts each cell proves on its own, cell by cell in order.
fn local_conflicts(cells: &Vec<Cell>, allowances: &Allowances, out: &mut Vec<Conflict>)
    requires
        strictly_sorted(cell_keys(cells@), cell_lt()),
    ensures
        conflicts_view(final(out)@) == conflicts_view(old(out)@) + local_upto(
            cell_map(cells@),
            cell_keys(cells@),
            allowances@,
            cells@.len() as int,
        ),
{
    let mut seen: Vec<ComponentCode> = Vec::new();
    let mut i: usize = 0;
    assert(conflicts_view(out@) =~= conflicts_view(old(out)@) + local_upto(
        cell_map(cells@),
        cell_keys(cells@),
        allowances@,
        0,
    ));
    while i < cells.len()
        invariant
            i <= cells@.len(),
            strictly_sorted(cell_keys(cells@), cell_lt()),
            forall|x: Seq<char>|
                #![trigger seen_has(seen@, x)] #![trigger unknown_before(cell_keys(cells@), i as int, allowances@, x)] seen_has(seen@, x) <==> unknown_before(cell_keys(cells@), i as int, allowances@, x),
            conflicts_view(out@) == conflicts_view(old(out)@) + local_upto(
                cell_map(cells@),
                cell_keys(cells@),
                allowances@,
                i as int,
            ),
        decreases cells.len() - i,
    {
        let mut mine = cell_conflicts(cells, i, allowances, &mut seen);
        let ghost before = conflicts_view(out@);
        let ghost add = conflicts_view(mine@);
        out.append(&mut mine);
        assert(conflicts_view(out@) =~= before + add);
        i = i + 1;
    }
}

/// Append every adjacent pair of one element's events whose count after the
/// earlier disagrees with the later's snapshot.
fn snapshot_disagreements(cells: &Vec<Cell>, out: &mut Vec<Conflict>)
    requires
        strictly_sorted(cell_keys(cells@), cell_lt()),
    ensures
        conflicts_view(final(out)@) == conflicts_view(old(out)@) + snap_upto(
            cell_map(cells@),
            cell_keys(cells@),
            cells@.len() as int,
        ),
{
    let ghost t = cell_map(cells@);
    let ghost ks = cell_keys(cells@);
    proof {
        lemma_cells_sorted(cells@);
    }
    let mut i: usize = 0;
    assert(conflicts_view(out@) =~= conflicts_view(old(out)@) + snap_upto(t, ks, 0));
    while i < cells.len()
        invariant
            i <= cells@.len(),
            t == cell_map(cells@),
            ks == cell_keys(cells@),
            forall|j: int| 0 <= j < cells@.len() ==> #[trigger] t[ks[j]] == cells@[j].data@,
            conflicts_view(out@) == conflicts_view(old(out)@) + snap_upto(t, ks, i as int),
        decreases cells.len() - i,
    {
        let ghost before = conflicts_view(out@);
        if i + 1 < cells.len() {
            let a = &cells[i];
            let b = &cells[i + 1];
            assert(t[ks[i as int]] == a.data@);
            assert(t[ks[i + 1]] == b.data@);
            if same_series(a, b) {
                match (a.data.count_after(), b.data.snapshot) {
                    (Some(count_after), Some(next_snapshot)) => {
                        if count_after != next_snapshot {
                            out.push(Conflict::SnapshotDisagreement {
                                seat: a.seat.clone(),
                                component: a.component.clone(),
                                from_round: a.round,
                                to_round: b.round,
                                count_after,
                                next_snapshot,
                            });
                        }
                    },
                    _ => {},
                }
            }
        }
        assert(conflicts_view(out@) =~= before + snap_pair(t, ks, i as int));
        i = i + 1;
    }
}

/// The elements at event `r` whose data carries the flag `pen` picks.
fn flagged_elements(cells: &Vec<Cell>, r: Round, pen: bool) -> (v: Vec<(Seat, ComponentCode)>)
    requires
        strictly_sorted(cell_keys(cells@), cell_lt()),
    ensures
        series_view(v@) == flagged_at(cell_map(cells@), cell_keys(cells@), r, pen, cells@.len() as int),
{
    let ghost t = cell_map(cells@);
    let ghost ks = cell_keys(cells@);
    proof {
        lemma_cells_sorted(cells@);
    }
    let mut v: Vec<(Seat, ComponentCode)> = Vec::new();
    let mut j: usize = 0;
    assert(series_view(v@) =~= flagged_at(t, ks, r, pen, 0));
    while j < cells.len()
        invariant
            j <= cells@.len(),
            t == cell_map(cells@),
            ks == cell_keys(cells@),
            forall|x: int| 0 <= x < cells@.len() ==> #[trigger] t[ks[x]] == cells@[x].data@,
            series_view(v@) == flagged_at(t, ks, r, pen, j as int),
        decreases cells.len() - j,
    {
        let c = &cells[j];
        assert(t[ks[j as int]] == c.data@);
        let on = if pen {
            c.data.penalized
        } else {
            match c.data.conformity {
                Some(Conformity::NotInConformity) => true,
                _ => false,
            }
        };
        let ghost before = series_view(v@);
        if c.round == r && on {
            v.push((c.seat.clone(), c.component.clone()));
            assert(series_view(v@) =~= before.push((seat_of_key(ks[j as int]), ks[j as int].3)));
        }
        j = j + 1;
    }
    v
}

/// Append, event by event, every event whose penalized elements differ from
/// its elements flagged not in conformity.
fn penalized_set_conflicts(cells: &Vec<Cell>, out: &mut Vec<Conflict>)
    requires
        strictly_sorted(cell_keys(cells@), cell_lt()),
    ensures
        conflicts_view(final(out)@) == conflicts_view(old(out)@) + pen_upto(
            cell_map(cells@),
            cell_keys(cells@),
            256,
        ),
{
    let ghost t = cell_map(cells@);
    let ghost ks = cell_keys(cells@);
    let mut r: u16 = 0;
    assert(conflicts_view(out@) =~= conflicts_view(old(out)@) + pen_upto(t, ks, 0));
    while r < 256
        invariant
            r <= 256,
            t == cell_map(cells@),
            ks == cell_keys(cells@),
            strictly_sorted(cell_keys(cells@), cell_lt()),
            conflicts_view(out@) == conflicts_view(old(out)@) + pen_upto(t, ks, r as int),
        decreases 256 - r,
    {
        let round = r as u8;
        let penalized = flagged_elements(cells, round, true);
        let not_in_conformity = flagged_elements(cells, round, false);
        let ghost before = conflicts_view(out@);
        assert(((r + 1 - 1) as int) as Round == round);
        if !series_vec_eq(&penalized, &not_in_conformity) {
            out.push(Conflict::PenalizedSetMismatch { round, penalized, not_in_conformity });
            assert(conflicts_view(out@) =~= before.push(
                ConflictV::PenalizedSetMismatch(
                    round,
                    flagged_at(t, ks, round, true, ks.len() as int),
                    flagged_at(t, ks, round, false, ks.len() as int),
                ),
            ));
        }
        r = r + 1;
    }
}

/// Every roster diff the seat resolver refused to guess.
fn ambiguous_seats(seats: &Seats) -> (r: Vec<Conflict>)
    ensures
        conflicts_view(r@) == seats.amb_view().map_values(|x: AmbV| ConflictV::AmbiguousSeat(x)),
{
    let ambs = seats.ambiguities();
    let mut out: Vec<Conflict> = Vec::new();
    let mut i: usize = 0;
    while i < ambs.len()
        invariant
            i <= ambs@.len(),
            ambs@.map_values(|a: SeatAmbiguity| a@) == seats.amb_view(),
            conflicts_view(out@) == ambs@.take(i as int).map_values(|a: SeatAmbiguity| ConflictV::AmbiguousSeat(a@)),
        decreases ambs.len() - i,
    {
        let ghost before = conflicts_view(out@);
        out.push(Conflict::AmbiguousSeat(ambs[i].clone()));
        assert(conflicts_view(out@) =~= before.push(ConflictV::AmbiguousSeat(ambs@[i as int]@)));
        assert(ambs@.take(i + 1) =~= ambs@.take(i as int).push(ambs@[i as int]));
        assert(conflicts_view(out@) =~= ambs@.take(i + 1).map_values(|a: SeatAmbiguity| ConflictV::AmbiguousSeat(a@)));
        i = i + 1;
    }
    assert(ambs@.take(i as int) =~= ambs@);
    assert(conflicts_view(out@) =~= seats.amb_view().map_values(|x: AmbV| ConflictV::AmbiguousSeat(x)));
    out
}

/// Cross-check `facts` against `allowances` and the seat map, and return every
/// conflict found, in a deterministic order.
///
/// `seats` comes from [`resolve_seats`](crate::seat::resolve_seats) over the
/// rosters covering the events the facts describe. A snapshot describes the
/// event before its own, so the window must reach one event back from the
/// earliest snapshot, unless that snapshot sits at the season's first event; a
/// window that opens later strands those snapshots as `UnknownSeat`. Superseded
/// facts are skipped. A clean set of facts over rosters the resolver could pair
/// returns an empty vector.
pub fn sweep(facts: &[Fact], allowances: &Allowances, seats: &Seats) -> (r: Vec<Conflict>)
    ensures
        conflicts_view(r@) == sweep_spec(facts@, allowances@, seats.seat_map(), seats.amb_view()),
{
    let (mut seating, readings, cells) = seat_live_facts(facts, seats);
    let mut out = ambiguous_seats(seats);
    let ghost o0 = conflicts_view(out@);
    let ghost s0 = conflicts_view(seating@);
    out.append(&mut seating);
    assert(conflicts_view(out@) =~= o0 + s0);
    grouping_conflicts(&readings, &mut out);
    local_conflicts(&cells, allowances, &mut out);
    snapshot_disagreements(&cells, &mut out);
    penalized_set_conflicts(&cells, &mut out);
    proof {
        lemma_cells_sorted(cells@);
    }
    out
}

} // verus!
