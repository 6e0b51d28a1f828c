//! Seat resolution: which car entry a season's running counts belong to.
//!
//! A component count belongs to the seat, a team's car entry, not to the driver
//! in it. Fold a season by seat and a mid-season swap keeps one running total;
//! fold it by car number and the swap mixes two seats.
//!
//! A [`Seat`] is `(season, team, slot)`. One rule produces the slot at every
//! event: a car entering a team with no vacated seat to inherit takes a fresh
//! slot, and arrivals are seated in ascending car-number order. A team's first
//! event vacates nothing, so its cars number by car number; every later event
//! carries those seats forward.
//!
//! [`resolve_seats`] diffs each team between consecutive events. One car out
//! and one car in transfers the seat. A diff that admits more than one pairing
//! of arriving cars to vacated seats becomes a [`SeatAmbiguity`] and stops that
//! team's lineage: a human supplies the mapping, the resolver never guesses.
//!
//! Slots are never released, so a team's slots are always `0..n`: the
//! lineage of a team is the sequence of its slots' occupants.
use std::collections::BTreeMap;
use vstd::prelude::*;
use vstd::string::*;

use crate::fact::{Car, Round, Season, Team};
use crate::order::{
    lemma_pairs_map_dom, lemma_pairs_map_push, lemma_sorted_seq_of, lemma_u16_strict_total,
    pairs_map, seq_lt, sorted_seq_of, strictly_sorted, car_lt,
};
use crate::text::{str_eq, str_lt};

verus! {

/// A driver name, as the roster states it. Display only.
pub type Driver = String;

/// A seat's index within its team, counting from zero.
pub type Slot = u8;

/// A seat as values: season, team, slot.
pub type SeatV = (Season, Seq<char>, Slot);

/// A roster as values: season, round, and each entry's car and team.
pub type RosterV = (Season, Round, Seq<(Car, Seq<char>)>);

/// An ambiguity as values: season, round, team, vacated slots, arriving cars.
pub type AmbV = (Season, Round, Seq<char>, Seq<Slot>, Seq<Car>);

/// A team's car entry within one season: the identity a running count follows.
#[derive(Debug, PartialEq, Eq, PartialOrd, Ord, Hash)]
pub struct Seat {
    /// The season the seat belongs to.
    pub season: Season,
    /// The team fielding the entry.
    pub team: Team,
    /// The entry's index within the team.
    pub slot: Slot,
}

impl View for Seat {
    type V = SeatV;

    open spec fn view(&self) -> SeatV {
        (self.season, self.team@, self.slot)
    }
}

impl Clone for Seat {
    fn clone(&self) -> (r: Self)
        ensures
            r@ == self@,
    {
        Seat { season: self.season, team: self.team.clone(), slot: self.slot }
    }
}

/// One entered race driver at one event.
#[derive(Debug, Clone, PartialEq, Eq)]
pub struct RosterEntry {
    /// The car number entered.
    pub car: Car,
    /// The driver entered in it.
    pub driver: Driver,
    /// The team entering it.
    pub team: Team,
}

/// The entered race drivers for one event.
///
/// One entry per car; a car repeated within an event keeps its first entry, so
/// a car never sits in two teams at once.
#[derive(Debug, Clone, PartialEq, Eq)]
pub struct Roster {
    /// The season the event belongs to.
    pub season: Season,
    /// The event's ordering within the season, counting from one.
    pub round: Round,
    /// The entered race drivers.
    pub entries: Vec<RosterEntry>,
}

/// A per-team diff the resolver could not pair without guessing.
#[derive(Debug, PartialEq, Eq)]
pub struct SeatAmbiguity {
    /// The season the event belongs to.
    pub season: Season,
    /// The event whose diff could not be paired.
    pub round: Round,
    /// The team whose lineage stops here.
    pub team: Team,
    /// The slots whose occupants did not enter this event, ascending.
    pub vacated: Vec<Slot>,
    /// The cars entered for the team with no seat to carry forward, ascending.
    pub arriving: Vec<Car>,
}

impl View for SeatAmbiguity {
    type V = AmbV;

    open spec fn view(&self) -> AmbV {
        (self.season, self.round, self.team@, self.vacated@, self.arriving@)
    }
}

impl Clone for SeatAmbiguity {
    fn clone(&self) -> (r: Self)
        ensures
            r@ == self@,
    {
        SeatAmbiguity {
            season: self.season,
            round: self.round,
            team: self.team.clone(),
            vacated: copy_u8s(&self.vacated),
            arriving: copy_u16s(&self.arriving),
        }
    }
}

/// The seats a window of rosters resolves to.
#[derive(Debug, Clone, Default, PartialEq, Eq)]
pub struct Seats {
    /// The seat of each seated `(season, round, car)`.
    by_entry: BTreeMap<(Season, Round, Car), Seat>,
    /// The diffs the resolver could not pair, by season, round and team.
    ambiguities: Vec<SeatAmbiguity>,
}

/// The entries of a roster as values.
pub open spec fn entries_view(entries: Seq<RosterEntry>) -> Seq<(Car, Seq<char>)> {
    entries.map_values(|e: RosterEntry| (e.car, e.team@))
}

/// A window of rosters as values.
pub open spec fn rosters_view(rosters: Seq<Roster>) -> Seq<RosterV> {
    rosters.map_values(|r: Roster| (r.season, r.round, entries_view(r.entries@)))
}

impl Seats {
    /// The seat map as values: `(season, round, car)` to the seat.
    pub closed spec fn seat_map(&self) -> Map<(Season, Round, Car), SeatV> {
        self.by_entry@.map_values(|st: Seat| st@)
    }

    /// The ambiguities as values, in order.
    pub closed spec fn amb_view(&self) -> Seq<AmbV> {
        avs(self.ambiguities@)
    }
}

// ---------------------------------------------------------------------------
// The model.
// ---------------------------------------------------------------------------
/// Add each entry whose car is not yet present.
pub open spec fn add_first(m: Map<Car, Seq<char>>, es: Seq<(Car, Seq<char>)>) -> Map<
    Car,
    Seq<char>,
>
    decreases es.len(),
{
    if es.len() == 0 {
        m
    } else {
        let m1 = add_first(m, es.drop_last());
        if m1.contains_key(es.last().0) {
            m1
        } else {
            m1.insert(es.last().0, es.last().1)
        }
    }
}

/// The team each car entered at one event: the rosters for that event, read
/// in order, with a car's first entry winning.
pub open spec fn event_of(rs: Seq<RosterV>, s: Season, r: Round) -> Map<Car, Seq<char>>
    decreases rs.len(),
{
    if rs.len() == 0 {
        Map::empty()
    } else {
        let prev = event_of(rs.drop_last(), s, r);
        if rs.last().0 == s && rs.last().1 == r {
            add_first(prev, rs.last().2)
        } else {
            prev
        }
    }
}

/// The cars a team entered at an event.
pub open spec fn entered_set(ev: Map<Car, Seq<char>>, t: Seq<char>) -> Set<Car> {
    Set::new(|c: Car| ev.contains_key(c) && ev[c] == t)
}

/// The set of a sequence's elements.
pub open spec fn seq_set<A>(s: Seq<A>) -> Set<A> {
    Set::new(|x: A| s.contains(x))
}

/// The slots among the first `n` whose occupant did not enter.
pub open spec fn vacated_upto(occ: Seq<Car>, e: Set<Car>, n: int) -> Seq<Slot>
    decreases n,
{
    if n <= 0 {
        Seq::empty()
    } else if !e.contains(occ[n - 1]) {
        vacated_upto(occ, e, n - 1).push((n - 1) as Slot)
    } else {
        vacated_upto(occ, e, n - 1)
    }
}

/// The slots whose occupant did not enter, ascending.
pub open spec fn vacated(occ: Seq<Car>, e: Set<Car>) -> Seq<Slot> {
    vacated_upto(occ, e, occ.len() as int)
}

/// The entered cars occupying no slot, ascending.
pub open spec fn arriving(occ: Seq<Car>, e: Set<Car>) -> Seq<Car> {
    sorted_seq_of(Set::new(|c: Car| e.contains(c) && !occ.contains(c)), car_lt())
}

/// Seat each arriving car, in order, in the next fresh slot, while a slot
/// remains.
pub open spec fn seat_new(occ: Seq<Car>, arr: Seq<Car>) -> Seq<Car>
    decreases arr.len(),
{
    if arr.len() == 0 {
        occ
    } else {
        let o = seat_new(occ, arr.drop_last());
        if o.len() < 256 {
            o.push(arr.last())
        } else {
            o
        }
    }
}

/// Carry a lineage into an event whose entered cars are `e`: the new occupants,
/// or the two halves of a diff that admits more than one pairing.
///
/// No arrival keeps the occupants; arrivals with no vacancy take fresh slots;
/// one vacancy and one arrival transfers the seat; anything else is unpairable.
pub open spec fn carry_spec(occ: Seq<Car>, e: Set<Car>) -> Result<Seq<Car>, (Seq<Slot>, Seq<Car>)> {
    let v = vacated(occ, e);
    let a = arriving(occ, e);
    if a.len() == 0 {
        Ok(occ)
    } else if v.len() == 0 {
        Ok(seat_new(occ, a))
    } else if v.len() == 1 && a.len() == 1 {
        Ok(occ.update(v[0] as int, a[0]))
    } else {
        Err((v, a))
    }
}

/// A team's lineage in a season just before round `r`: its occupants, and
/// whether an unpairable diff has stopped it.
pub open spec fn lineage_before(rs: Seq<RosterV>, s: Season, t: Seq<char>, r: nat) -> (
    Seq<Car>,
    bool,
)
    decreases r,
{
    if r == 0 {
        (Seq::empty(), false)
    } else {
        let prev = lineage_before(rs, s, t, (r - 1) as nat);
        let e = entered_set(event_of(rs, s, (r - 1) as Round), t);
        if prev.1 || e.is_empty() {
            prev
        } else {
            match carry_spec(prev.0, e) {
                Ok(o) => (o, false),
                Err(_) => (prev.0, true),
            }
        }
    }
}

/// The last slot holding `c`, or -1.
pub open spec fn last_index(o: Seq<Car>, c: Car) -> int
    decreases o.len(),
{
    if o.len() == 0 {
        -1
    } else if o.last() == c {
        o.len() - 1
    } else {
        last_index(o.drop_last(), c)
    }
}

/// The seat `c` occupies at `(s, r)`, if the rosters seat it.
pub open spec fn seat_spec(rs: Seq<RosterV>, s: Season, r: Round, c: Car) -> Option<SeatV> {
    let ev = event_of(rs, s, r);
    if !ev.contains_key(c) {
        None
    } else {
        let t = ev[c];
        let l = lineage_before(rs, s, t, r as nat);
        if l.1 {
            None
        } else {
            match carry_spec(l.0, entered_set(ev, t)) {
                Ok(o) => if o.contains(c) {
                    Some((s, t, last_index(o, c) as Slot))
                } else {
                    None
                },
                Err(_) => None,
            }
        }
    }
}

/// The ambiguity team `t`'s diff raises at `(s, r)`, if it cannot be paired.
pub open spec fn amb_at(rs: Seq<RosterV>, s: Season, r: Round, t: Seq<char>) -> Option<AmbV> {
    let e = entered_set(event_of(rs, s, r), t);
    let l = lineage_before(rs, s, t, r as nat);
    if e.is_empty() || l.1 {
        None
    } else {
        match carry_spec(l.0, e) {
            Ok(_) => None,
            Err((v, a)) => Some((s, r, t, v, a)),
        }
    }
}

/// The order ambiguities are reported in: season, then round, then team.
pub open spec fn amb_lt(a: AmbV, b: AmbV) -> bool {
    ||| a.0 < b.0
    ||| a.0 == b.0 && a.1 < b.1
    ||| a.0 == b.0 && a.1 == b.1 && seq_lt(a.2, b.2)
}

// ---------------------------------------------------------------------------
// What the seats depend on.
// ---------------------------------------------------------------------------
/// Whether some entry names car `c`.
pub open spec fn mentions(es: Seq<(Car, Seq<char>)>, c: Car) -> bool {
    exists|k: int| 0 <= k < es.len() && (#[trigger] es[k]).0 == c
}

/// The team of the first entry naming car `c`.
pub open spec fn first_team(es: Seq<(Car, Seq<char>)>, c: Car) -> Seq<char>
    decreases es.len(),
{
    if es.len() == 0 {
        Seq::empty()
    } else if mentions(es.drop_last(), c) {
        first_team(es.drop_last(), c)
    } else {
        es.last().1
    }
}

/// Two rosters of one event give every car they both name the same team.
pub open spec fn agree(x: RosterV, y: RosterV) -> bool {
    x.0 == y.0 && x.1 == y.1 ==> forall|c: Car|
        mentions(x.2, c) && mentions(y.2, c) ==> #[trigger] first_team(x.2, c) == first_team(y.2, c)
}

/// No two rosters of one event in the window give a car two teams.
pub open spec fn consistent(rs: Seq<RosterV>) -> bool {
    forall|i: int, j: int| 0 <= i < rs.len() && 0 <= j < rs.len() ==> agree(#[trigger] rs[i], #[trigger] rs[j])
}

/// Whether a roster belongs to event `(s, r)` and names car `c`.
pub open spec fn names_at(x: RosterV, s: Season, r: Round, c: Car) -> bool {
    x.0 == s && x.1 == r && mentions(x.2, c)
}

proof fn lemma_add_first(m: Map<Car, Seq<char>>, es: Seq<(Car, Seq<char>)>, c: Car)
    ensures
        add_first(m, es).contains_key(c) == (m.contains_key(c) || mentions(es, c)),
        add_first(m, es).contains_key(c) ==> add_first(m, es)[c] == if m.contains_key(c) {
            m[c]
        } else {
            first_team(es, c)
        },
    decreases es.len(),
{
    if es.len() > 0 {
        let d = es.drop_last();
        lemma_add_first(m, d, c);
        if mentions(d, c) {
            let k = choose|k: int| 0 <= k < d.len() && (#[trigger] d[k]).0 == c;
            assert(es[k] == d[k]);
        }
        if mentions(es, c) && !mentions(d, c) {
            let k = choose|k: int| 0 <= k < es.len() && (#[trigger] es[k]).0 == c;
            if k < d.len() {
                assert(d[k] == es[k]);
            }
            assert(k == es.len() - 1);
        }
        if !mentions(es, c) {
            assert forall|k: int| 0 <= k < d.len() implies (#[trigger] d[k]).0 != c by {
                assert(es[k] == d[k]);
            }
        }
    }
}

/// In a consistent window, an event's index holds exactly the cars its rosters
/// name, each with the team any roster of the event gives it.
proof fn lemma_event_of_consistent(rs: Seq<RosterV>, s: Season, r: Round, c: Car)
    requires
        consistent(rs),
    ensures
        event_of(rs, s, r).contains_key(c) == exists|i: int|
            0 <= i < rs.len() && names_at(#[trigger] rs[i], s, r, c),
        forall|i: int|
            0 <= i < rs.len() && names_at(#[trigger] rs[i], s, r, c) ==> event_of(rs, s, r)[c]
                == first_team(rs[i].2, c),
    decreases rs.len(),
{
    if rs.len() > 0 {
        let d = rs.drop_last();
        assert forall|i: int, j: int| 0 <= i < d.len() && 0 <= j < d.len() implies agree(
            #[trigger] d[i],
            #[trigger] d[j],
        ) by {
            assert(d[i] == rs[i] && d[j] == rs[j]);
        }
        lemma_event_of_consistent(d, s, r, c);
        let x = rs.last();
        let prev = event_of(d, s, r);
        assert(rs[rs.len() - 1] == x);
        if x.0 == s && x.1 == r {
            lemma_add_first(prev, x.2, c);
        }
        assert forall|i: int| 0 <= i < d.len() && names_at(#[trigger] d[i], s, r, c) implies names_at(
            rs[i],
            s,
            r,
            c,
        ) by {
            assert(d[i] == rs[i]);
        }
        assert forall|i: int|
            0 <= i < rs.len() && names_at(#[trigger] rs[i], s, r, c) implies event_of(rs, s, r)[c]
                == first_team(rs[i].2, c) by {
            if i < d.len() {
                assert(d[i] == rs[i]);
                assert(names_at(d[i], s, r, c));
                if x.0 == s && x.1 == r && mentions(x.2, c) {
                    assert(agree(rs[i], rs[rs.len() - 1]));
                }
            } else {
                if prev.contains_key(c) {
                    let j = choose|j: int| 0 <= j < d.len() && names_at(#[trigger] d[j], s, r, c);
                    assert(d[j] == rs[j]);
                    assert(agree(rs[j], rs[i]));
                }
            }
        }
        if exists|i: int| 0 <= i < rs.len() && names_at(#[trigger] rs[i], s, r, c) {
            let i = choose|i: int| 0 <= i < rs.len() && names_at(#[trigger] rs[i], s, r, c);
            if i < d.len() {
                assert(d[i] == rs[i]);
                assert(names_at(d[i], s, r, c));
            }
        }
    }
}

proof fn lemma_lineage_same_events(rs1: Seq<RosterV>, rs2: Seq<RosterV>, s: Season, t: Seq<char>, r: nat)
    requires
        forall|rr: Round| #[trigger] event_of(rs1, s, rr) == event_of(rs2, s, rr),
    ensures
        lineage_before(rs1, s, t, r) == lineage_before(rs2, s, t, r),
    decreases r,
{
    if r > 0 {
        lemma_lineage_same_events(rs1, rs2, s, t, (r - 1) as nat);
        assert(event_of(rs1, s, (r - 1) as Round) == event_of(rs2, s, (r - 1) as Round));
    }
}

/// The seats and the ambiguities of a season depend on the window only
/// through what each of the season's events enters.
pub proof fn lemma_seats_follow_the_events(rs1: Seq<RosterV>, rs2: Seq<RosterV>, s: Season)
    requires
        forall|rr: Round| #[trigger] event_of(rs1, s, rr) == event_of(rs2, s, rr),
    ensures
        forall|r: Round, c: Car| #[trigger] seat_spec(rs1, s, r, c) == seat_spec(rs2, s, r, c),
        forall|r: Round, t: Seq<char>| #[trigger] amb_at(rs1, s, r, t) == amb_at(rs2, s, r, t),
{
    assert forall|r: Round, c: Car| #[trigger] seat_spec(rs1, s, r, c) == seat_spec(rs2, s, r, c) by {
        assert(event_of(rs1, s, r) == event_of(rs2, s, r));
        let ev = event_of(rs1, s, r);
        if ev.contains_key(c) {
            lemma_lineage_same_events(rs1, rs2, s, ev[c], r as nat);
        }
    }
    assert forall|r: Round, t: Seq<char>| #[trigger] amb_at(rs1, s, r, t) == amb_at(rs2, s, r, t) by {
        assert(event_of(rs1, s, r) == event_of(rs2, s, r));
        lemma_lineage_same_events(rs1, rs2, s, t, r as nat);
    }
}

/// The window is order independent: two windows holding the same rosters, in
/// any order and any number of times, resolve to the same seats and raise the
/// same ambiguities, provided no two rosters of one event give a car two
/// teams. (Where two rosters of one event disagree, the first to name the car
/// wins, and that depends on the order.)
pub proof fn lemma_window_order_independent(rs1: Seq<RosterV>, rs2: Seq<RosterV>)
    requires
        forall|x: RosterV| rs1.contains(x) <==> rs2.contains(x),
        consistent(rs1),
    ensures
        forall|s: Season, r: Round, c: Car| #[trigger] seat_spec(rs1, s, r, c) == seat_spec(rs2, s, r, c),
        forall|s: Season, r: Round, t: Seq<char>| #[trigger] amb_at(rs1, s, r, t) == amb_at(rs2, s, r, t),
{
    assert forall|i: int, j: int| 0 <= i < rs2.len() && 0 <= j < rs2.len() implies agree(
        #[trigger] rs2[i],
        #[trigger] rs2[j],
    ) by {
        assert(rs2.contains(rs2[i]) && rs2.contains(rs2[j]));
        let a = choose|a: int| 0 <= a < rs1.len() && rs1[a] == rs2[i];
        let b = choose|b: int| 0 <= b < rs1.len() && rs1[b] == rs2[j];
        assert(agree(rs1[a], rs1[b]));
    }
    assert forall|s: Season, rr: Round| #[trigger] event_of(rs1, s, rr) == event_of(rs2, s, rr) by {
        assert forall|c: Car| #[trigger] event_of(rs1, s, rr).contains_key(c) == event_of(rs2, s, rr).contains_key(c)
            && (event_of(rs1, s, rr).contains_key(c) ==> event_of(rs1, s, rr)[c] == event_of(
            rs2,
            s,
            rr,
        )[c]) by {
            lemma_event_of_consistent(rs1, s, rr, c);
            lemma_event_of_consistent(rs2, s, rr, c);
            if exists|i: int| 0 <= i < rs1.len() && names_at(#[trigger] rs1[i], s, rr, c) {
                let i = choose|i: int| 0 <= i < rs1.len() && names_at(#[trigger] rs1[i], s, rr, c);
                assert(rs1.contains(rs1[i]));
                let j = choose|j: int| 0 <= j < rs2.len() && rs2[j] == rs1[i];
                assert(names_at(rs2[j], s, rr, c));
            }
            if exists|j: int| 0 <= j < rs2.len() && names_at(#[trigger] rs2[j], s, rr, c) {
                let j = choose|j: int| 0 <= j < rs2.len() && names_at(#[trigger] rs2[j], s, rr, c);
                assert(rs2.contains(rs2[j]));
                let i = choose|i: int| 0 <= i < rs1.len() && rs1[i] == rs2[j];
                assert(names_at(rs1[i], s, rr, c));
            }
        }
        assert forall|c: Car| #[trigger] event_of(rs1, s, rr).dom().contains(c) == event_of(rs2, s, rr).dom().contains(c) by {
            assert(event_of(rs1, s, rr).contains_key(c) == event_of(rs2, s, rr).contains_key(c));
        }
        assert forall|c: Car| #[trigger] event_of(rs1, s, rr).dom().contains(c) implies event_of(rs1, s, rr)[c] == event_of(rs2, s, rr)[c] by {
            assert(event_of(rs1, s, rr).contains_key(c) == event_of(rs2, s, rr).contains_key(c));
        }
        assert(event_of(rs1, s, rr) =~= event_of(rs2, s, rr));
    }
    assert forall|s: Season, r: Round, c: Car| #[trigger] seat_spec(rs1, s, r, c) == seat_spec(rs2, s, r, c) by {
        lemma_seats_follow_the_events(rs1, rs2, s);
    }
    assert forall|s: Season, r: Round, t: Seq<char>| #[trigger] amb_at(rs1, s, r, t) == amb_at(rs2, s, r, t) by {
        lemma_seats_follow_the_events(rs1, rs2, s);
    }
}

/// A roster of season `s`.
pub open spec fn in_season(s: Season) -> spec_fn(RosterV) -> bool {
    |x: RosterV| x.0 == s
}

proof fn lemma_event_of_season(rs: Seq<RosterV>, s: Season, r: Round)
    ensures
        event_of(rs.filter(in_season(s)), s, r) == event_of(rs, s, r),
    decreases rs.len(),
{
    if rs.len() > 0 {
        let d = rs.drop_last();
        lemma_event_of_season(d, s, r);
        d.lemma_filter_push(rs.last(), in_season(s));
        assert(d.push(rs.last()) =~= rs);
        if rs.last().0 == s {
            assert(d.filter(in_season(s)).push(rs.last()).drop_last() =~= d.filter(in_season(s)));
        }
    }
}

/// Seasons resolve independently: a season's seats and ambiguities are the
/// ones its own rosters give, whatever other seasons the window holds.
pub proof fn lemma_seasons_resolve_independently(rs: Seq<RosterV>, s: Season)
    ensures
        forall|r: Round, c: Car| #[trigger] seat_spec(rs.filter(in_season(s)), s, r, c) == seat_spec(rs, s, r, c),
        forall|r: Round, t: Seq<char>| #[trigger] amb_at(rs.filter(in_season(s)), s, r, t) == amb_at(rs, s, r, t),
{
    assert forall|rr: Round| #[trigger] event_of(rs.filter(in_season(s)), s, rr) == event_of(rs, s, rr) by {
        lemma_event_of_season(rs, s, rr);
    }
    lemma_seats_follow_the_events(rs.filter(in_season(s)), rs, s);
}

proof fn lemma_stopped_stays_stopped(rs: Seq<RosterV>, s: Season, t: Seq<char>, r: nat, r2: nat)
    requires
        r <= r2,
        lineage_before(rs, s, t, r).1,
    ensures
        lineage_before(rs, s, t, r2).1,
    decreases r2 - r,
{
    if r2 > r {
        lemma_stopped_stays_stopped(rs, s, t, r, (r2 - 1) as nat);
    }
}

/// One ambiguity per team: the first diff a team's lineage cannot pair stops
/// it, so no later event of the season raises another for that team.
pub proof fn lemma_one_ambiguity_per_team(rs: Seq<RosterV>, s: Season, t: Seq<char>, r1: Round, r2: Round)
    requires
        amb_at(rs, s, r1, t) is Some,
        amb_at(rs, s, r2, t) is Some,
    ensures
        r1 == r2,
{
    if r1 < r2 {
        assert(lineage_before(rs, s, t, (r1 + 1) as nat).1);
        lemma_stopped_stays_stopped(rs, s, t, (r1 + 1) as nat, r2 as nat);
    } else if r2 < r1 {
        assert(lineage_before(rs, s, t, (r2 + 1) as nat).1);
        lemma_stopped_stays_stopped(rs, s, t, (r2 + 1) as nat, r1 as nat);
    }
}

proof fn lemma_seat_new_len(occ: Seq<Car>, arr: Seq<Car>)
    requires
        occ.len() <= 256,
    ensures
        seat_new(occ, arr).len() <= 256,
    decreases arr.len(),
{
    if arr.len() > 0 {
        lemma_seat_new_len(occ, arr.drop_last());
    }
}

proof fn lemma_vacated_below(occ: Seq<Car>, e: Set<Car>, n: int)
    requires
        0 <= n <= 256,
    ensures
        forall|i: int| 0 <= i < vacated_upto(occ, e, n).len() ==> (#[trigger] vacated_upto(occ, e, n)[i]) < n,
    decreases n,
{
    if n > 0 {
        lemma_vacated_below(occ, e, n - 1);
        let prev = vacated_upto(occ, e, n - 1);
        let slot = (n - 1) as Slot;
        assert(slot == n - 1);
        if !e.contains(occ[n - 1]) {
            assert(vacated_upto(occ, e, n) == prev.push(slot));
            assert forall|i: int| 0 <= i < prev.len() + 1 implies (#[trigger] prev.push(slot)[i]) < n by {
                if i < prev.len() {
                    assert(prev.push(slot)[i] == prev[i]);
                }
            }
        }
    }
}

proof fn lemma_carry_len(occ: Seq<Car>, e: Set<Car>)
    requires
        occ.len() <= 256,
    ensures
        carry_spec(occ, e) is Ok ==> carry_spec(occ, e)->Ok_0.len() <= 256,
{
    let v = vacated(occ, e);
    let a = arriving(occ, e);
    lemma_seat_new_len(occ, a);
    if a.len() != 0 && v.len() == 1 && a.len() == 1 {
        lemma_vacated_below(occ, e, occ.len() as int);
        assert(v[0] < occ.len());
        assert(occ.update(v[0] as int, a[0]).len() == occ.len());
    }
}

proof fn lemma_lineage_len(rs: Seq<RosterV>, s: Season, t: Seq<char>, r: nat)
    ensures
        lineage_before(rs, s, t, r).0.len() <= 256,
    decreases r,
{
    if r > 0 {
        let prev = lineage_before(rs, s, t, (r - 1) as nat);
        lemma_lineage_len(rs, s, t, (r - 1) as nat);
        let e = entered_set(event_of(rs, s, (r - 1) as Round), t);
        lemma_carry_len(prev.0, e);
    }
}

proof fn lemma_last_index(o: Seq<Car>, c: Car)
    ensures
        last_index(o, c) < o.len(),
        o.contains(c) ==> 0 <= last_index(o, c),
        0 <= last_index(o, c) ==> o[last_index(o, c)] == c,
    decreases o.len(),
{
    if o.len() > 0 && o.last() != c {
        lemma_last_index(o.drop_last(), c);
        if o.contains(c) {
            let k = choose|k: int| 0 <= k < o.len() && o[k] == c;
            assert(o.drop_last()[k] == c);
        }
    }
}

/// No two cars share a seat at one event: slots are never released, so a
/// seat taken is never handed to a second car while its holder remains.
pub proof fn lemma_one_car_per_seat(rs: Seq<RosterV>, s: Season, r: Round, c1: Car, c2: Car)
    requires
        seat_spec(rs, s, r, c1) is Some,
        seat_spec(rs, s, r, c1) == seat_spec(rs, s, r, c2),
    ensures
        c1 == c2,
{
    let ev = event_of(rs, s, r);
    let t = ev[c1];
    assert(ev[c2] == t);
    let l = lineage_before(rs, s, t, r as nat);
    lemma_lineage_len(rs, s, t, r as nat);
    let e = entered_set(ev, t);
    lemma_carry_len(l.0, e);
    let o = carry_spec(l.0, e)->Ok_0;
    assert(o.len() <= 256);
    lemma_last_index(o, c1);
    lemma_last_index(o, c2);
    assert(last_index(o, c1) as Slot == last_index(o, c2) as Slot);
    assert(last_index(o, c1) == last_index(o, c2));
}

/// The seat map and ambiguity list that a window resolves to, as
/// `resolve_seats` promises them: the seat the model gives each key, and the
/// ambiguities the model raises, each once, ordered by season, round, team.
pub open spec fn resolves(rv: Seq<RosterV>, m: Map<(Season, Round, Car), SeatV>, q: Seq<AmbV>) -> bool {
    &&& forall|k: (Season, Round, Car)| #[trigger] holds_seat(m, k, seat_spec(rv, k.0, k.1, k.2))
    &&& forall|i: int| 0 <= i < q.len() ==> amb_at(rv, (#[trigger] q[i]).0, q[i].1, q[i].2) == Some(q[i])
    &&& forall|s: Season, r: Round, t: Seq<char>|
        (#[trigger] amb_at(rv, s, r, t)).is_some() ==> exists|i: int|
            0 <= i < q.len() && (#[trigger] q[i]).0 == s && q[i].1 == r && q[i].2 == t
    &&& ambs_sorted(q)
}

/// The order of ambiguity keys: season, round, team.
pub open spec fn amb_key_lt() -> spec_fn((Season, Round, Seq<char>), (Season, Round, Seq<char>)) -> bool {
    |a: (Season, Round, Seq<char>), b: (Season, Round, Seq<char>)|
        a.0 < b.0 || (a.0 == b.0 && a.1 < b.1) || (a.0 == b.0 && a.1 == b.1 && seq_lt(a.2, b.2))
}

proof fn lemma_amb_key_strict_total()
    ensures
        crate::order::strict_total(amb_key_lt()),
{
    crate::order::lemma_seq_lt_strict_total();
    assert forall|a: (Season, Round, Seq<char>)| #![trigger amb_key_lt()(a, a)] !amb_key_lt()(a, a) by {
        crate::order::lemma_seq_lt_irreflexive(a.2);
    }
    assert forall|a: (Season, Round, Seq<char>), b: (Season, Round, Seq<char>), c: (Season, Round, Seq<char>)|
        #![trigger amb_key_lt()(a, b), amb_key_lt()(b, c)]
        amb_key_lt()(a, b) && amb_key_lt()(b, c) implies amb_key_lt()(a, c) by {
        if a.0 == b.0 && b.0 == c.0 && a.1 == b.1 && b.1 == c.1 {
            crate::order::lemma_seq_lt_transitive(a.2, b.2, c.2);
        }
    }
    assert forall|a: (Season, Round, Seq<char>), b: (Season, Round, Seq<char>)| #![trigger amb_key_lt()(a, b)]
        a != b implies amb_key_lt()(a, b) || amb_key_lt()(b, a) by {
        if a.0 == b.0 && a.1 == b.1 {
            assert(a.2 != b.2);
            crate::order::lemma_seq_lt_total(a.2, b.2);
        }
    }
}

pub open spec fn amb_keys(q: Seq<AmbV>) -> Seq<(Season, Round, Seq<char>)> {
    q.map_values(|a: AmbV| (a.0, a.1, a.2))
}

/// What a window resolves to is fixed by the window: two seat maps and
/// ambiguity lists that both meet `resolves` are the same.
pub proof fn lemma_resolution_is_determined(
    rv: Seq<RosterV>,
    m1: Map<(Season, Round, Car), SeatV>,
    q1: Seq<AmbV>,
    m2: Map<(Season, Round, Car), SeatV>,
    q2: Seq<AmbV>,
)
    requires
        resolves(rv, m1, q1),
        resolves(rv, m2, q2),
    ensures
        m1 == m2,
        q1 == q2,
{
    assert forall|k: (Season, Round, Car)| #![trigger m1.dom().contains(k)] #![trigger m2.dom().contains(k)]
        m1.dom().contains(k) == m2.dom().contains(k) && (m1.dom().contains(k) ==> m1[k] == m2[k]) by {
        assert(holds_seat(m1, k, seat_spec(rv, k.0, k.1, k.2)));
        assert(holds_seat(m2, k, seat_spec(rv, k.0, k.1, k.2)));
    }
    assert(m1.dom() =~= m2.dom());
    assert(m1 =~= m2);
    let k1 = amb_keys(q1);
    let k2 = amb_keys(q2);
    lemma_amb_key_strict_total();
    assert forall|i: int, j: int| 0 <= i < j < k1.len() implies amb_key_lt()(#[trigger] k1[i], #[trigger] k1[j]) by {
        assert(amb_lt(q1[i], q1[j]));
    }
    assert forall|i: int, j: int| 0 <= i < j < k2.len() implies amb_key_lt()(#[trigger] k2[i], #[trigger] k2[j]) by {
        assert(amb_lt(q2[i], q2[j]));
    }
    assert forall|x: (Season, Round, Seq<char>)| k1.contains(x) == k2.contains(x) by {
        if k1.contains(x) {
            let i = choose|i: int| 0 <= i < k1.len() && k1[i] == x;
            assert(amb_at(rv, q1[i].0, q1[i].1, q1[i].2) == Some(q1[i]));
            let j = choose|j: int| 0 <= j < q2.len() && (#[trigger] q2[j]).0 == x.0 && q2[j].1 == x.1 && q2[j].2 == x.2;
            assert(k2[j] == x);
        }
        if k2.contains(x) {
            let i = choose|i: int| 0 <= i < k2.len() && k2[i] == x;
            assert(amb_at(rv, q2[i].0, q2[i].1, q2[i].2) == Some(q2[i]));
            let j = choose|j: int| 0 <= j < q1.len() && (#[trigger] q1[j]).0 == x.0 && q1[j].1 == x.1 && q1[j].2 == x.2;
            assert(k1[j] == x);
        }
    }
    crate::order::lemma_sorted_unique(k1, k2, amb_key_lt());
    assert forall|i: int| 0 <= i < q1.len() implies q1[i] == q2[i] by {
        assert(k1[i] == k2[i]);
        assert(amb_at(rv, q1[i].0, q1[i].1, q1[i].2) == Some(q1[i]));
        assert(amb_at(rv, q2[i].0, q2[i].1, q2[i].2) == Some(q2[i]));
    }
    assert(q1 =~= q2);
}

/// Resolving two windows that hold the same rosters, in any order and any
/// number of times, gives the same seat map and the same ambiguity list,
/// provided no two rosters of one event give a car two teams.
pub proof fn lemma_resolved_alike_in_any_order(
    rv1: Seq<RosterV>,
    rv2: Seq<RosterV>,
    m1: Map<(Season, Round, Car), SeatV>,
    q1: Seq<AmbV>,
    m2: Map<(Season, Round, Car), SeatV>,
    q2: Seq<AmbV>,
)
    requires
        forall|x: RosterV| rv1.contains(x) <==> rv2.contains(x),
        consistent(rv1),
        resolves(rv1, m1, q1),
        resolves(rv2, m2, q2),
    ensures
        m1 == m2,
        q1 == q2,
{
    lemma_window_order_independent(rv1, rv2);
    assert forall|k: (Season, Round, Car)| #[trigger] holds_seat(m2, k, seat_spec(rv1, k.0, k.1, k.2)) by {
        assert(seat_spec(rv1, k.0, k.1, k.2) == seat_spec(rv2, k.0, k.1, k.2));
        assert(holds_seat(m2, k, seat_spec(rv2, k.0, k.1, k.2)));
    }
    assert forall|i: int| 0 <= i < q2.len() implies amb_at(rv1, (#[trigger] q2[i]).0, q2[i].1, q2[i].2)
        == Some(q2[i]) by {
        assert(amb_at(rv1, q2[i].0, q2[i].1, q2[i].2) == amb_at(rv2, q2[i].0, q2[i].1, q2[i].2));
    }
    assert forall|s: Season, r: Round, t: Seq<char>| (#[trigger] amb_at(rv1, s, r, t)).is_some() implies exists|i: int|
        0 <= i < q2.len() && (#[trigger] q2[i]).0 == s && q2[i].1 == r && q2[i].2 == t by {
        assert(amb_at(rv1, s, r, t) == amb_at(rv2, s, r, t));
    }
    lemma_resolution_is_determined(rv1, m1, q1, m2, q2);
}

/// Resolving the same rosters in another order gives the same seats: every
/// `(season, round, car)` looks up the same seat, and the ambiguity list is
/// the same, provided no two rosters of one event give a car two teams.
pub proof fn lemma_resolve_seats_in_any_order(w1: Seq<Roster>, w2: Seq<Roster>, a: Seats, b: Seats)
    requires
        forall|x: Roster| w1.contains(x) <==> w2.contains(x),
        consistent(rosters_view(w1)),
        resolves(rosters_view(w1), a.seat_map(), a.amb_view()),
        resolves(rosters_view(w2), b.seat_map(), b.amb_view()),
    ensures
        a.seat_map() == b.seat_map(),
        a.amb_view() == b.amb_view(),
{
    let v1 = rosters_view(w1);
    let v2 = rosters_view(w2);
    assert forall|x: RosterV| v1.contains(x) implies v2.contains(x) by {
        let i = choose|i: int| 0 <= i < v1.len() && v1[i] == x;
        assert(w1.contains(w1[i]));
        let j = choose|j: int| 0 <= j < w2.len() && w2[j] == w1[i];
        assert(v2[j] == x);
    }
    assert forall|x: RosterV| v2.contains(x) implies v1.contains(x) by {
        let i = choose|i: int| 0 <= i < v2.len() && v2[i] == x;
        assert(w2.contains(w2[i]));
        let j = choose|j: int| 0 <= j < w1.len() && w1[j] == w2[i];
        assert(v1[j] == x);
    }
    lemma_resolved_alike_in_any_order(v1, v2, a.seat_map(), a.amb_view(), b.seat_map(), b.amb_view());
}

proof fn lemma_vacated_ascending(occ: Seq<Car>, e: Set<Car>, n: int)
    requires
        0 <= n <= 256,
    ensures
        forall|i: int, j: int|
            0 <= i < j < vacated_upto(occ, e, n).len() ==> (#[trigger] vacated_upto(occ, e, n)[i]) < (
            #[trigger] vacated_upto(occ, e, n)[j]),
    decreases n,
{
    if n > 0 {
        lemma_vacated_ascending(occ, e, n - 1);
        lemma_vacated_below(occ, e, n - 1);
        let prev = vacated_upto(occ, e, n - 1);
        let slot = (n - 1) as Slot;
        assert(slot == n - 1);
        if !e.contains(occ[n - 1]) {
            let cur = prev.push(slot);
            assert(vacated_upto(occ, e, n) == cur);
            assert forall|i: int, j: int| 0 <= i < j < cur.len() implies (#[trigger] cur[i]) < (#[trigger] cur[j]) by {
                assert(cur[i] == prev[i]);
                if j < prev.len() {
                    assert(cur[j] == prev[j]);
                }
            }
        }
    }
}

/// The cars of `s` below `n`, ascending.
pub open spec fn cars_below(s: Set<Car>, n: int) -> Seq<Car>
    decreases n,
{
    if n <= 0 {
        Seq::empty()
    } else if s.contains((n - 1) as Car) {
        cars_below(s, n - 1).push((n - 1) as Car)
    } else {
        cars_below(s, n - 1)
    }
}

proof fn lemma_cars_below(s: Set<Car>, n: int)
    requires
        0 <= n <= 0x10000,
    ensures
        strictly_sorted(cars_below(s, n), car_lt()),
        forall|c: Car| #[trigger] cars_below(s, n).contains(c) <==> (c < n && s.contains(c)),
    decreases n,
{
    if n > 0 {
        lemma_cars_below(s, n - 1);
        let prev = cars_below(s, n - 1);
        let c = (n - 1) as Car;
        assert(c == n - 1);
        if s.contains(c) {
            let cur = prev.push(c);
            assert(cars_below(s, n) == cur);
            assert forall|i: int, j: int| 0 <= i < j < cur.len() implies car_lt()(#[trigger] cur[i], #[trigger] cur[j]) by {
                assert(cur[i] == prev[i]);
                assert(prev.contains(prev[i]));
                assert(prev[i] < n - 1);
                if j < prev.len() {
                    assert(cur[j] == prev[j]);
                    assert(car_lt()(prev[i], prev[j]));
                } else {
                    assert(cur[j] == c);
                }
            }
            assert forall|x: Car| #[trigger] cur.contains(x) <==> (x < n && s.contains(x)) by {
                if x == c {
                    assert(cur[prev.len() as int] == c);
                }
                if cur.contains(x) && x != c {
                    let i = choose|i: int| 0 <= i < cur.len() && cur[i] == x;
                    assert(cur[i] == prev[i]);
                }
                if prev.contains(x) {
                    let i = choose|i: int| 0 <= i < prev.len() && prev[i] == x;
                    assert(cur[i] == x);
                }
            }
        } else {
            assert(cars_below(s, n) == prev);
            assert forall|x: Car| #[trigger] prev.contains(x) <==> (x < n && s.contains(x)) by {
                if x == c {
                    assert(!s.contains(x));
                }
            }
        }
    }
}

proof fn lemma_arriving_ascending(occ: Seq<Car>, e: Set<Car>)
    ensures
        strictly_sorted(arriving(occ, e), car_lt()),
{
    let st = Set::new(|c: Car| e.contains(c) && !occ.contains(c));
    lemma_cars_below(st, 0x10000);
    lemma_u16_strict_total();
    lemma_sorted_seq_of(cars_below(st, 0x10000), st, car_lt());
}

/// What an ambiguity holds: the slots whose occupants left and the cars that
/// arrived, each strictly ascending, neither empty, and not one of each, which
/// would have paired.
pub open spec fn amb_shape(x: AmbV) -> bool {
    &&& x.3.len() > 0
    &&& x.4.len() > 0
    &&& !(x.3.len() == 1 && x.4.len() == 1)
    &&& forall|i: int, j: int| 0 <= i < j < x.3.len() ==> (#[trigger] x.3[i]) < (#[trigger] x.3[j])
    &&& forall|i: int, j: int| 0 <= i < j < x.4.len() ==> (#[trigger] x.4[i]) < (#[trigger] x.4[j])
}

/// The ambiguities a window resolves to are ordered by season, round and team
/// with at most one per team and season; each lists the vacated slots and the
/// arriving cars, both strictly ascending, neither empty and not one of each;
/// and from the ambiguity's event on, none of the team's entered cars has a
/// seat.
pub proof fn lemma_ambiguities_as_resolved(rv: Seq<RosterV>, m: Map<(Season, Round, Car), SeatV>, q: Seq<AmbV>)
    requires
        resolves(rv, m, q),
    ensures
        ambs_sorted(q),
        forall|i: int, j: int|
            0 <= i < q.len() && 0 <= j < q.len() && i != j ==> !((#[trigger] q[i]).0 == (#[trigger] q[j]).0
                && q[i].2 == q[j].2),
        forall|i: int| 0 <= i < q.len() ==> amb_shape(#[trigger] q[i]),
        forall|i: int, r: Round, c: Car|
            #![trigger m.contains_key((q[i].0, r, c))]
            0 <= i < q.len() && q[i].1 <= r && event_of(rv, q[i].0, r).contains_key(c) && event_of(
                rv,
                q[i].0,
                r,
            )[c] == q[i].2 ==> !m.contains_key((q[i].0, r, c)),
{
    assert forall|i: int, j: int|
        0 <= i < q.len() && 0 <= j < q.len() && i != j implies !((#[trigger] q[i]).0 == (#[trigger] q[j]).0
            && q[i].2 == q[j].2) by {
        if q[i].0 == q[j].0 && q[i].2 == q[j].2 {
            assert(amb_at(rv, q[i].0, q[i].1, q[i].2) == Some(q[i]));
            assert(amb_at(rv, q[j].0, q[j].1, q[j].2) == Some(q[j]));
            lemma_one_ambiguity_per_team(rv, q[i].0, q[i].2, q[i].1, q[j].1);
            crate::order::lemma_seq_lt_irreflexive(q[i].2);
            if i < j {
                assert(amb_lt(q[i], q[j]));
            } else {
                assert(amb_lt(q[j], q[i]));
            }
        }
    }
    assert forall|i: int| 0 <= i < q.len() implies amb_shape(#[trigger] q[i]) by {
        let x = q[i];
        assert(amb_at(rv, x.0, x.1, x.2) == Some(x));
        let ev = event_of(rv, x.0, x.1);
        let e = entered_set(ev, x.2);
        let l = lineage_before(rv, x.0, x.2, x.1 as nat);
        lemma_lineage_len(rv, x.0, x.2, x.1 as nat);
        lemma_vacated_ascending(l.0, e, l.0.len() as int);
        lemma_arriving_ascending(l.0, e);
    }
    assert forall|i: int, r: Round, c: Car|
        #![trigger m.contains_key((q[i].0, r, c))]
        0 <= i < q.len() && q[i].1 <= r && event_of(rv, q[i].0, r).contains_key(c) && event_of(
            rv,
            q[i].0,
            r,
        )[c] == q[i].2 implies !m.contains_key((q[i].0, r, c)) by {
        let x = q[i];
        assert(amb_at(rv, x.0, x.1, x.2) == Some(x));
        let k = (x.0, r, c);
        assert(holds_seat(m, k, seat_spec(rv, k.0, k.1, k.2)));
        if r > x.1 {
            assert(lineage_before(rv, x.0, x.2, (x.1 + 1) as nat).1);
            lemma_stopped_stays_stopped(rv, x.0, x.2, (x.1 + 1) as nat, r as nat);
        }
    }
}

// ---------------------------------------------------------------------------
// Small vector helpers.
// ---------------------------------------------------------------------------
fn copy_u8s(v: &Vec<u8>) -> (r: Vec<u8>)
    ensures
        r@ == v@,
{
    let mut r: Vec<u8> = Vec::new();
    let mut i: usize = 0;
    while i < v.len()
        invariant
            i <= v.len(),
            r@ == v@.take(i as int),
        decreases v.len() - i,
    {
        r.push(v[i]);
        assert(v@.take(i + 1) =~= v@.take(i as int).push(v[i as int]));
        i = i + 1;
    }
    assert(v@.take(i as int) =~= v@);
    r
}

fn copy_u16s(v: &Vec<u16>) -> (r: Vec<u16>)
    ensures
        r@ == v@,
{
    let mut r: Vec<u16> = Vec::new();
    let mut i: usize = 0;
    while i < v.len()
        invariant
            i <= v.len(),
            r@ == v@.take(i as int),
        decreases v.len() - i,
    {
        r.push(v[i]);
        assert(v@.take(i + 1) =~= v@.take(i as int).push(v[i as int]));
        i = i + 1;
    }
    assert(v@.take(i as int) =~= v@);
    r
}

/// Whether `v` holds `x`.
pub fn contains_u16(v: &Vec<u16>, x: u16) -> (r: bool)
    ensures
        r == v@.contains(x),
{
    let mut i: usize = 0;
    while i < v.len()
        invariant
            i <= v.len(),
            forall|k: int| 0 <= k < i ==> v@[k] != x,
        decreases v.len() - i,
    {
        if v[i] == x {
            return true;
        }
        i = i + 1;
    }
    false
}

// ---------------------------------------------------------------------------
// Carrying one lineage into one event.
// ---------------------------------------------------------------------------
/// Carry occupants `occ` into an event whose team entered `entered`: the new
/// occupants, or the vacated slots and arriving cars of an unpairable diff.
fn carry(occ: &Vec<Car>, entered: &Vec<Car>) -> (r: Result<Vec<Car>, (Vec<Slot>, Vec<Car>)>)
    requires
        occ@.len() <= 256,
        strictly_sorted(entered@, car_lt()),
    ensures
        match carry_spec(occ@, seq_set(entered@)) {
            Ok(o) => r.is_ok() && r.unwrap()@ == o && o.len() <= 256,
            Err((v, a)) => r.is_err() && r.unwrap_err().0@ == v && r.unwrap_err().1@ == a,
        },
{
    let ghost e = seq_set(entered@);
    // Vacated slots, ascending.
    let mut vac: Vec<Slot> = Vec::new();
    let mut i: usize = 0;
    while i < occ.len()
        invariant
            occ@.len() <= 256,
            i <= occ.len(),
            e == seq_set(entered@),
            vac@ == vacated_upto(occ@, e, i as int),
        decreases occ.len() - i,
    {
        if !contains_u16(entered, occ[i]) {
            vac.push(i as u8);
        }
        i = i + 1;
    }
    // Arriving cars, ascending.
    let mut arr: Vec<Car> = Vec::new();
    let mut j: usize = 0;
    while j < entered.len()
        invariant
            j <= entered.len(),
            strictly_sorted(entered@, car_lt()),
            strictly_sorted(arr@, car_lt()),
            forall|x: Car|
                arr@.contains(x) <==> (entered@.take(j as int).contains(x) && !occ@.contains(x)),
        decreases entered.len() - j,
    {
        let c = entered[j];
        let ghost before = arr@;
        if !contains_u16(occ, c) {
            assert forall|x: Car| before.contains(x) implies x < c by {
                let k = choose|k: int| 0 <= k < j && entered@.take(j as int)[k] == x;
                assert(entered@[k] == x);
            }
            arr.push(c);
            assert forall|p: int, q: int| 0 <= p < q < arr@.len() implies (#[trigger] arr@[p]) < (
            #[trigger] arr@[q]) by {
                if q == arr@.len() - 1 {
                    assert(before.contains(arr@[p]));
                }
            }
        }
        assert forall|x: Car|
            arr@.contains(x) <==> (entered@.take(j + 1).contains(x) && !occ@.contains(x)) by {
            assert(entered@.take(j + 1) =~= entered@.take(j as int).push(c));
            assert(entered@.take(j + 1)[j as int] == c);
            if arr@.contains(x) {
                if x != c {
                    let k = choose|k: int| 0 <= k < arr@.len() && arr@[k] == x;
                    if k < before.len() {
                        assert(before[k] == x);
                    }
                    assert(before.contains(x));
                    let m = choose|m: int| 0 <= m < j && entered@.take(j as int)[m] == x;
                    assert(entered@.take(j + 1)[m] == x);
                } else {
                    if before.contains(x) {
                        let m = choose|m: int| 0 <= m < j && entered@.take(j as int)[m] == x;
                        assert(entered@[m] == x);
                        assert(entered@[m] < entered@[j as int]);
                    }
                }
            }
            if entered@.take(j + 1).contains(x) && !occ@.contains(x) {
                let tk = entered@.take(j + 1);
                let m = choose|m: int| 0 <= m < tk.len() && tk[m] == x;
                if m < j {
                    assert(entered@.take(j as int)[m] == x);
                    assert(before.contains(x));
                    let k = choose|k: int| 0 <= k < before.len() && before[k] == x;
                    assert(arr@[k] == x);
                } else {
                    assert(x == c);
                    assert(arr@[arr@.len() - 1] == c);
                }
            }
        }
        j = j + 1;
    }
    proof {
        assert(entered@.take(j as int) =~= entered@);
        lemma_u16_strict_total();
        lemma_sorted_seq_of(
            arr@,
            Set::new(|c: Car| e.contains(c) && !occ@.contains(c)),
            car_lt(),
        );
    }
    if arr.len() == 0 {
        return Ok(copy_u16s(occ));
    }
    if vac.len() == 0 {
        let mut out = copy_u16s(occ);
        let mut k: usize = 0;
        while k < arr.len()
            invariant
                k <= arr.len(),
                out@ == seat_new(occ@, arr@.take(k as int)),
                out@.len() <= 256,
            decreases arr.len() - k,
        {
            assert(arr@.take(k + 1).drop_last() =~= arr@.take(k as int));
            if out.len() < 256 {
                out.push(arr[k]);
            }
            k = k + 1;
        }
        assert(arr@.take(k as int) =~= arr@);
        return Ok(out);
    }
    if vac.len() == 1 && arr.len() == 1 {
        let mut out = copy_u16s(occ);
        let slot = vac[0] as usize;
        proof {
            lemma_vacated_in_range(occ@, e, occ@.len() as int);
        }
        out.set(slot, arr[0]);
        return Ok(out);
    }
    Err((vac, arr))
}

proof fn lemma_vacated_in_range(occ: Seq<Car>, e: Set<Car>, n: int)
    requires
        0 <= n <= occ.len(),
        occ.len() <= 256,
    ensures
        forall|k: int| 0 <= k < vacated_upto(occ, e, n).len() ==> (vacated_upto(occ, e, n)[k] as int)
            < n,
    decreases n,
{
    if n > 0 {
        lemma_vacated_in_range(occ, e, n - 1);
        assert(((n - 1) as Slot) as int == n - 1);
        let p = vacated_upto(occ, e, n - 1);
        if !e.contains(occ[n - 1]) {
            let q = p.push((n - 1) as Slot);
            assert forall|k: int| 0 <= k < q.len() implies (#[trigger] q[k] as int) < n by {
                if k < p.len() {
                    assert(q[k] == p[k]);
                }
            }
        }
    }
}


// ---------------------------------------------------------------------------
// Reading one event off the rosters.
// ---------------------------------------------------------------------------
/// An event's entries as values.
pub open spec fn ev_view(ev: Seq<(Car, Team)>) -> Seq<(Car, Seq<char>)> {
    ev.map_values(|p: (Car, Team)| (p.0, p.1@))
}

/// No car appears twice.
pub open spec fn distinct_cars(ev: Seq<(Car, Team)>) -> bool {
    forall|a: int, b: int| 0 <= a < b < ev.len() ==> (#[trigger] ev[a]).0 != (#[trigger] ev[b]).0
}

fn has_car(ev: &Vec<(Car, Team)>, c: Car) -> (r: bool)
    ensures
        r == pairs_map(ev_view(ev@)).contains_key(c),
{
    proof {
        lemma_pairs_map_dom(ev_view(ev@), c);
    }
    let mut i: usize = 0;
    while i < ev.len()
        invariant
            i <= ev.len(),
            forall|k: int| 0 <= k < i ==> ev@[k].0 != c,
        decreases ev.len() - i,
    {
        if ev[i].0 == c {
            assert(ev_view(ev@).len() == ev@.len());
            assert(ev_view(ev@)[i as int].0 == c);
            proof {
                lemma_pairs_map_dom(ev_view(ev@), c);
            }
            return true;
        }
        i = i + 1;
    }
    proof {
        if exists|k: int| 0 <= k < ev_view(ev@).len() && (#[trigger] ev_view(ev@)[k]).0 == c {
            let k = choose|k: int| 0 <= k < ev_view(ev@).len() && (#[trigger] ev_view(ev@)[k]).0 == c;
            assert(ev@[k].0 == c);
        }
    }
    false
}

/// The team each car entered at `(s, r)`, a car's first entry winning.
fn event_entries(rosters: &[Roster], s: Season, r: Round) -> (ev: Vec<(Car, Team)>)
    ensures
        distinct_cars(ev@),
        pairs_map(ev_view(ev@)) == event_of(rosters_view(rosters@), s, r),
{
    let ghost rv = rosters_view(rosters@);
    let mut ev: Vec<(Car, Team)> = Vec::new();
    let mut i: usize = 0;
    while i < rosters.len()
        invariant
            i <= rosters.len(),
            rv == rosters_view(rosters@),
            distinct_cars(ev@),
            pairs_map(ev_view(ev@)) == event_of(rv.take(i as int), s, r),
        decreases rosters.len() - i,
    {
        let ro = &rosters[i];
        assert(rv.take(i + 1).drop_last() =~= rv.take(i as int));
        assert(rv.take(i + 1).last() == rv[i as int]);
        if ro.season == s && ro.round == r {
            let ghost es = entries_view(ro.entries@);
            let ghost base = event_of(rv.take(i as int), s, r);
            let mut j: usize = 0;
            while j < ro.entries.len()
                invariant
                    j <= ro.entries.len(),
                    es == entries_view(ro.entries@),
                    distinct_cars(ev@),
                    pairs_map(ev_view(ev@)) == add_first(base, es.take(j as int)),
                decreases ro.entries.len() - j,
            {
                let e = &ro.entries[j];
                assert(es.take(j + 1).drop_last() =~= es.take(j as int));
                assert(es.take(j + 1).last() == (e.car, e.team@));
                if !has_car(&ev, e.car) {
                    let ghost before = ev@;
                    proof {
                        lemma_pairs_map_dom(ev_view(before), e.car);
                        lemma_pairs_map_push(ev_view(before), (e.car, e.team@));
                    }
                    ev.push((e.car, e.team.clone()));
                    assert(ev_view(ev@) =~= ev_view(before).push((e.car, e.team@)));
                    assert forall|a: int, b: int| 0 <= a < b < ev@.len() implies (#[trigger] ev@[a]).0
                        != (#[trigger] ev@[b]).0 by {
                        if b == ev@.len() - 1 {
                            assert(ev_view(before)[a].0 == before[a].0);
                        }
                    }
                }
                j = j + 1;
            }
            assert(es.take(j as int) =~= es);
        }
        i = i + 1;
    }
    assert(rv.take(i as int) =~= rv);
    ev
}

/// Names in strictly ascending order.
pub open spec fn strs_sorted(v: Seq<String>) -> bool {
    forall|i: int, j: int| 0 <= i < j < v.len() ==> seq_lt((#[trigger] v[i])@, (#[trigger] v[j])@)
}

/// Whether some name in `v` spells `t`.
pub open spec fn has_str(v: Seq<String>, t: Seq<char>) -> bool {
    exists|i: int| 0 <= i < v.len() && (#[trigger] v[i])@ == t
}

/// Add `t` to a sorted list of names unless it is there already.
pub(crate) fn insert_sorted_str(v: &mut Vec<String>, t: &str)
    requires
        strs_sorted(old(v)@),
    ensures
        strs_sorted(final(v)@),
        forall|x: Seq<char>| has_str(final(v)@, x) <==> (has_str(old(v)@, x) || x == t@),
{
    proof {
        crate::order::lemma_seq_lt_strict_total();
    }
    let mut p: usize = 0;
    while p < v.len() && str_lt(v[p].as_str(), t)
        invariant
            p <= v.len(),
            v@ == old(v)@,
            strs_sorted(v@),
            forall|k: int| 0 <= k < p ==> seq_lt(v@[k]@, t@),
        decreases v.len() - p,
    {
        p = p + 1;
    }
    if p < v.len() && str_eq(v[p].as_str(), t) {
        assert(v@[p as int]@ == t@);
        assert(has_str(v@, t@));
        return;
    }
    // Everything from `p` on sorts after `t`.
    proof {
        if p < v.len() {
            crate::order::lemma_seq_lt_total(v@[p as int]@, t@);
        }
        assert forall|k: int| p <= k < v@.len() implies seq_lt(t@, (#[trigger] v@[k])@) by {
            if k > p {
                assert(seq_lt(v@[p as int]@, v@[k]@));
                crate::order::lemma_seq_lt_transitive(t@, v@[p as int]@, v@[k]@);
            }
        }
    }
    let ghost before = v@;
    assert(before == old(v)@);
    v.insert(p, String::from_str(t));
    assert forall|i: int, j: int| 0 <= i < j < v@.len() implies seq_lt(
        (#[trigger] v@[i])@,
        (#[trigger] v@[j])@,
    ) by {
        if i < p && j == p {
        } else if i < p && j > p {
            assert(v@[j] == before[j - 1]);
        } else if i == p {
            assert(v@[j] == before[j - 1]);
        } else if i > p {
            assert(v@[i] == before[i - 1] && v@[j] == before[j - 1]);
        }
    }
    assert forall|x: Seq<char>| has_str(v@, x) <==> (has_str(before, x) || x == t@) by {
        if has_str(v@, x) {
            let i = choose|i: int| 0 <= i < v@.len() && (#[trigger] v@[i])@ == x;
            if i < p {
                assert(before[i]@ == x);
            } else if i > p {
                assert(before[i - 1]@ == x);
            }
        }
        if has_str(before, x) {
            let i = choose|i: int| 0 <= i < before.len() && (#[trigger] before[i])@ == x;
            if i < p {
                assert(v@[i]@ == x);
            } else {
                assert(v@[i + 1]@ == x);
            }
        }
        if x == t@ {
            assert(v@[p as int]@ == x);
        }
    }
    assert(forall|x: Seq<char>| has_str(v@, x) <==> (has_str(old(v)@, x) || x == t@));
}

/// The teams entered at an event, each once, in ascending order.
fn teams_of(ev: &Vec<(Car, Team)>) -> (teams: Vec<String>)
    requires
        distinct_cars(ev@),
    ensures
        strs_sorted(teams@),
        forall|t: Seq<char>|
            has_str(teams@, t) <==> !entered_set(pairs_map(ev_view(ev@)), t).is_empty(),
{
    let ghost m = pairs_map(ev_view(ev@));
    let mut teams: Vec<String> = Vec::new();
    let mut k: usize = 0;
    while k < ev.len()
        invariant
            k <= ev.len(),
            strs_sorted(teams@),
            forall|t: Seq<char>|
                has_str(teams@, t) <==> exists|i: int| 0 <= i < k && (#[trigger] ev@[i]).1@ == t,
        decreases ev.len() - k,
    {
        insert_sorted_str(&mut teams, ev[k].1.as_str());
        assert forall|t: Seq<char>|
            has_str(teams@, t) <==> exists|i: int| 0 <= i < k + 1 && (#[trigger] ev@[i]).1@ == t by {
            if exists|i: int| 0 <= i < k + 1 && (#[trigger] ev@[i]).1@ == t {
                let i = choose|i: int| 0 <= i < k + 1 && (#[trigger] ev@[i]).1@ == t;
                if i < k {
                    assert(exists|i: int| 0 <= i < k && (#[trigger] ev@[i]).1@ == t);
                }
            }
        }
        k = k + 1;
    }
    assert forall|t: Seq<char>| has_str(teams@, t) <==> !entered_set(m, t).is_empty() by {
        if has_str(teams@, t) {
            let i = choose|i: int| 0 <= i < ev.len() && (#[trigger] ev@[i]).1@ == t;
            crate::order::lemma_pairs_map_distinct(ev_view(ev@), i);
            assert(entered_set(m, t).contains(ev@[i].0));
        }
        if !entered_set(m, t).is_empty() {
            let c = entered_set(m, t).choose();
            assert(entered_set(m, t).contains(c));
            lemma_pairs_map_dom(ev_view(ev@), c);
            let i = choose|i: int| 0 <= i < ev_view(ev@).len() && (#[trigger] ev_view(ev@)[i]).0 == c;
            crate::order::lemma_pairs_map_distinct(ev_view(ev@), i);
            assert(ev@[i].1@ == t);
        }
    }
    teams
}

/// Add `c` to a strictly ascending list of cars.
pub(crate) fn insert_sorted_u16(v: &mut Vec<Car>, c: Car)
    requires
        strictly_sorted(old(v)@, car_lt()),
    ensures
        strictly_sorted(final(v)@, car_lt()),
        forall|x: Car| final(v)@.contains(x) <==> (old(v)@.contains(x) || x == c),
{
    let mut p: usize = 0;
    while p < v.len() && v[p] < c
        invariant
            p <= v.len(),
            v@ == old(v)@,
            forall|k: int| 0 <= k < p ==> v@[k] < c,
        decreases v.len() - p,
    {
        p = p + 1;
    }
    if p < v.len() && v[p] == c {
        assert(v@[p as int] == c);
        assert(v@.contains(c));
        return;
    }
    let ghost before = v@;
    assert(before == old(v)@);
    v.insert(p, c);
    assert forall|i: int, j: int| 0 <= i < j < v@.len() implies (#[trigger] v@[i]) < (#[trigger] v@[j]) by {
        if i < p && j > p {
            assert(v@[j] == before[j - 1]);
        } else if i == p && j > p {
            assert(v@[j] == before[j - 1]);
            assert(before[p as int] <= before[j - 1]);
        } else if i > p {
            assert(v@[i] == before[i - 1] && v@[j] == before[j - 1]);
        }
    }
    assert forall|x: Car| v@.contains(x) <==> (before.contains(x) || x == c) by {
        if v@.contains(x) {
            let i = choose|i: int| 0 <= i < v@.len() && v@[i] == x;
            if i < p {
                assert(before[i] == x);
            } else if i > p {
                assert(before[i - 1] == x);
            }
        }
        if before.contains(x) {
            let i = choose|i: int| 0 <= i < before.len() && before[i] == x;
            if i < p {
                assert(v@[i] == x);
            } else {
                assert(v@[i + 1] == x);
            }
        }
        if x == c {
            assert(v@[p as int] == x);
        }
    }
    assert(forall|x: Car| v@.contains(x) <==> (old(v)@.contains(x) || x == c));
}

/// The cars `t` entered at an event, ascending.
fn entered_of(ev: &Vec<(Car, Team)>, t: &str) -> (cars: Vec<Car>)
    requires
        distinct_cars(ev@),
    ensures
        strictly_sorted(cars@, car_lt()),
        seq_set(cars@) == entered_set(pairs_map(ev_view(ev@)), t@),
{
    let ghost m = pairs_map(ev_view(ev@));
    let mut cars: Vec<Car> = Vec::new();
    let mut k: usize = 0;
    while k < ev.len()
        invariant
            k <= ev.len(),
            strictly_sorted(cars@, car_lt()),
            forall|c: Car|
                cars@.contains(c) <==> exists|i: int|
                    0 <= i < k && (#[trigger] ev@[i]).0 == c && ev@[i].1@ == t@,
        decreases ev.len() - k,
    {
        if str_eq(ev[k].1.as_str(), t) {
            insert_sorted_u16(&mut cars, ev[k].0);
        }
        assert forall|c: Car|
            cars@.contains(c) <==> exists|i: int|
                0 <= i < k + 1 && (#[trigger] ev@[i]).0 == c && ev@[i].1@ == t@ by {
            if exists|i: int| 0 <= i < k + 1 && (#[trigger] ev@[i]).0 == c && ev@[i].1@ == t@ {
                let i = choose|i: int| 0 <= i < k + 1 && (#[trigger] ev@[i]).0 == c && ev@[i].1@ == t@;
                if i < k {
                    assert(exists|i: int| 0 <= i < k && (#[trigger] ev@[i]).0 == c && ev@[i].1@ == t@);
                }
            }
        }
        k = k + 1;
    }
    assert forall|c: Car| seq_set(cars@).contains(c) <==> entered_set(m, t@).contains(c) by {
        if cars@.contains(c) {
            let i = choose|i: int| 0 <= i < ev.len() && (#[trigger] ev@[i]).0 == c && ev@[i].1@ == t@;
            crate::order::lemma_pairs_map_distinct(ev_view(ev@), i);
        }
        if entered_set(m, t@).contains(c) {
            lemma_pairs_map_dom(ev_view(ev@), c);
            let i = choose|i: int| 0 <= i < ev_view(ev@).len() && (#[trigger] ev_view(ev@)[i]).0 == c;
            crate::order::lemma_pairs_map_distinct(ev_view(ev@), i);
            assert(ev@[i].0 == c && ev@[i].1@ == t@);
        }
    }
    assert(seq_set(cars@) =~= entered_set(m, t@));
    cars
}


// ---------------------------------------------------------------------------
// Resolution.
// ---------------------------------------------------------------------------
/// The seat map a list of `(key, seat)` records builds, later records winning.
pub open spec fn bmap(by: Seq<((Season, Round, Car), Seat)>) -> Map<(Season, Round, Car), SeatV> {
    pairs_map(by.map_values(|e: ((Season, Round, Car), Seat)| (e.0, e.1@)))
}

/// The map holds exactly the seat `o` for key `k` (nothing when `o` is none).
pub open spec fn holds_seat(
    m: Map<(Season, Round, Car), SeatV>,
    k: (Season, Round, Car),
    o: Option<SeatV>,
) -> bool {
    match o {
        Some(v) => m.contains_key(k) && m[k] == v,
        None => !m.contains_key(k),
    }
}

/// The two maps agree at `k`.
pub open spec fn same_at(
    a: Map<(Season, Round, Car), SeatV>,
    b: Map<(Season, Round, Car), SeatV>,
    k: (Season, Round, Car),
) -> bool {
    a.contains_key(k) == b.contains_key(k) && (a.contains_key(k) ==> a[k] == b[k])
}

proof fn lemma_bmap_push(by: Seq<((Season, Round, Car), Seat)>, x: ((Season, Round, Car), Seat))
    ensures
        bmap(by.push(x)) == bmap(by).insert(x.0, x.1@),
{
    let f = |e: ((Season, Round, Car), Seat)| (e.0, e.1@);
    assert(by.push(x).map_values(f) =~= by.map_values(f).push(f(x)));
    lemma_pairs_map_push(by.map_values(f), f(x));
}

proof fn lemma_last_index_take(o: Seq<Car>, k: int, c: Car)
    requires
        0 <= k < o.len(),
    ensures
        last_index(o.take(k + 1), c) == (if o[k] == c {
            k
        } else {
            last_index(o.take(k), c)
        }),
{
    assert(o.take(k + 1).drop_last() =~= o.take(k));
    assert(o.take(k + 1).last() == o[k]);
}

proof fn lemma_last_index_contains(o: Seq<Car>, c: Car)
    ensures
        (last_index(o, c) >= 0) == o.contains(c),
        -1 <= last_index(o, c) < o.len(),
    decreases o.len(),
{
    if o.len() > 0 {
        lemma_last_index_contains(o.drop_last(), c);
        if o.last() != c {
            if o.contains(c) {
                let i = choose|i: int| 0 <= i < o.len() && o[i] == c;
                assert(o.drop_last()[i] == c);
            }
            if o.drop_last().contains(c) {
                let i = choose|i: int| 0 <= i < o.drop_last().len() && o.drop_last()[i] == c;
                assert(o[i] == c);
            }
        } else {
            assert(o[o.len() - 1] == c);
        }
    }
}

/// The lineage records: each team's occupants and stop flag equal its
/// lineage before round `r`, or before `r + 1` once `done` holds the team; a
/// team with no record has an empty, live lineage.
pub open spec fn lin_ok(
    lteams: Seq<String>,
    locc: Seq<Vec<Car>>,
    lstop: Seq<bool>,
    rv: Seq<RosterV>,
    s: Season,
    r: nat,
    done: Set<Seq<char>>,
) -> bool {
    &&& lteams.len() == locc.len()
    &&& lteams.len() == lstop.len()
    &&& forall|a: int, b: int| 0 <= a < b < lteams.len() ==> (#[trigger] lteams[a])@ != (#[trigger] lteams[b])@
    &&& forall|i: int|
        0 <= i < lteams.len() ==> ((#[trigger] locc[i])@, lstop[i]) == lineage_before(
            rv,
            s,
            lteams[i]@,
            if done.contains(lteams[i]@) {
                r + 1
            } else {
                r
            },
        ) && locc[i]@.len() <= 256
    &&& forall|t: Seq<char>|
        !has_str(lteams, t) ==> !done.contains(t) && lineage_before(rv, s, t, r) == (
            Seq::<Car>::empty(),
            false,
        )
}

fn find_team(lteams: &Vec<String>, t: &str) -> (r: Option<usize>)
    ensures
        match r {
            Some(i) => i < lteams@.len() && lteams@[i as int]@ == t@,
            None => !has_str(lteams@, t@),
        },
{
    let mut i: usize = 0;
    while i < lteams.len()
        invariant
            i <= lteams.len(),
            forall|k: int| 0 <= k < i ==> lteams@[k]@ != t@,
        decreases lteams.len() - i,
    {
        if str_eq(lteams[i].as_str(), t) {
            return Some(i);
        }
        i = i + 1;
    }
    None
}

/// At key `k`, a team step has recorded the seat the model gives when `k`
/// names one of the team's cars at this event, and left the map alone
/// elsewhere.
pub open spec fn team_key_ok(
    m_new: Map<(Season, Round, Car), SeatV>,
    m_old: Map<(Season, Round, Car), SeatV>,
    rv: Seq<RosterV>,
    s: Season,
    r: Round,
    e: Set<Car>,
    k: (Season, Round, Car),
) -> bool {
    if k.0 == s && k.1 == r && e.contains(k.2) {
        holds_seat(m_new, k, seat_spec(rv, s, r, k.2))
    } else {
        same_at(m_new, m_old, k)
    }
}

/// Partway through recording a team's seats: each of its cars holds the last
/// slot it occupies among the slots recorded so far.
pub open spec fn slot_key_ok(
    m_new: Map<(Season, Round, Car), SeatV>,
    m_old: Map<(Season, Round, Car), SeatV>,
    s: Season,
    r: Round,
    e: Set<Car>,
    t: Seq<char>,
    prefix: Seq<Car>,
    k: (Season, Round, Car),
) -> bool {
    if k.0 == s && k.1 == r && e.contains(k.2) {
        holds_seat(
            m_new,
            k,
            if last_index(prefix, k.2) >= 0 {
                Some((s, t, last_index(prefix, k.2) as Slot))
            } else {
                None
            },
        )
    } else {
        same_at(m_new, m_old, k)
    }
}

/// Carry team `t`'s lineage into round `r`, recording the seats it yields or
/// the ambiguity it raises.
#[verifier::rlimit(50)]
fn step_team(
    rosters: &[Roster],
    s: Season,
    r: Round,
    t: &String,
    entered: &Vec<Car>,
    lteams: &mut Vec<String>,
    locc: &mut Vec<Vec<Car>>,
    lstop: &mut Vec<bool>,
    by: &mut Vec<((Season, Round, Car), Seat)>,
    ambs: &mut Vec<SeatAmbiguity>,
    Ghost(done): Ghost<Set<Seq<char>>>,
)
    requires
        lin_ok(old(lteams)@, old(locc)@, old(lstop)@, rosters_view(rosters@), s, r as nat, done),
        !done.contains(t@),
        strictly_sorted(entered@, car_lt()),
        seq_set(entered@) == entered_set(event_of(rosters_view(rosters@), s, r), t@),
        !seq_set(entered@).is_empty(),
        forall|c: Car|
            seq_set(entered@).contains(c) ==> !bmap(old(by)@).contains_key((s, r, c)),
    ensures
        lin_ok(final(lteams)@, final(locc)@, final(lstop)@, rosters_view(rosters@), s, r as nat, done.insert(t@)),
        forall|k: (Season, Round, Car)|
            #[trigger] team_key_ok(
                bmap(final(by)@),
                bmap(old(by)@),
                rosters_view(rosters@),
                s,
                r,
                seq_set(entered@),
                k,
            ),
        match amb_at(rosters_view(rosters@), s, r, t@) {
            Some(a) => final(ambs)@.len() == old(ambs)@.len() + 1 && final(ambs)@.take(old(ambs)@.len() as int)
                == old(ambs)@ && final(ambs)@.last()@ == a,
            None => final(ambs)@ == old(ambs)@,
        },
{
    let ghost rv = rosters_view(rosters@);
    let ghost m = event_of(rv, s, r);
    let ghost e = seq_set(entered@);
    let ghost r1: nat = (r + 1) as nat;
    assert(((r1 - 1) as Round) == r);
    let idx = match find_team(lteams, t.as_str()) {
        Some(i) => i,
        None => {
            lteams.push(t.clone());
            locc.push(Vec::new());
            lstop.push(false);
            proof {
                let n = lteams@.len() - 1;
                assert(lteams@[n]@ == t@);
                assert forall|x: Seq<char>| !has_str(lteams@, x) implies !done.contains(x)
                    && lineage_before(rv, s, x, r as nat) == (Seq::<Car>::empty(), false) by {
                    if has_str(old(lteams)@, x) {
                        let i = choose|i: int| 0 <= i < old(lteams)@.len() && (#[trigger] old(lteams)@[i])@ == x;
                        assert(lteams@[i]@ == x);
                    }
                }
                assert(locc@[n]@ =~= Seq::<Car>::empty());
                assert forall|a: int, b: int| 0 <= a < b < lteams@.len() implies (#[trigger] lteams@[a])@
                    != (#[trigger] lteams@[b])@ by {
                    if b == n {
                        assert(old(lteams)@[a] == lteams@[a]);
                    }
                }
            }
            lteams.len() - 1
        },
    };
    assert(lin_ok(lteams@, locc@, lstop@, rv, s, r as nat, done));
    assert((locc@[idx as int]@, lstop@[idx as int]) == lineage_before(rv, s, t@, r as nat));
    if lstop[idx] {
        proof {
            assert(lineage_before(rv, s, t@, r1) == lineage_before(rv, s, t@, r as nat));
            assert forall|i: int| 0 <= i < lteams@.len() implies ((#[trigger] locc@[i])@, lstop@[i])
                == lineage_before(
                rv,
                s,
                lteams@[i]@,
                if done.insert(t@).contains(lteams@[i]@) {
                    (r + 1) as nat
                } else {
                    r as nat
                },
            ) && locc@[i]@.len() <= 256 by {
                if i != idx {
                    assert(lteams@[i]@ != lteams@[idx as int]@);
                }
            }
        }
        return;
    }
    let res = carry(&locc[idx], entered);
    match res {
        Ok(o) => {
            let ghost by0 = by@;
            let mut slot: usize = 0;
            while slot < o.len()
                invariant
                    slot <= o@.len(),
                    o@.len() <= 256,
                    forall|k: (Season, Round, Car)|
                        #[trigger] slot_key_ok(bmap(by@), bmap(by0), s, r, e, t@, o@.take(slot as int), k),
                    e == seq_set(entered@),
                    forall|c: Car| e.contains(c) ==> !bmap(by0).contains_key((s, r, c)),
                decreases o.len() - slot,
            {
                let c = o[slot];
                let ghost before = by@;
                let inn = contains_u16(entered, c);
                if inn {
                    let rec = ((s, r, c), Seat { season: s, team: t.clone(), slot: slot as u8 });
                    let ghost g = rec;
                    by.push(rec);
                    proof {
                        lemma_bmap_push(before, g);
                    }
                }
                proof {
                    assert forall|k: (Season, Round, Car)|
                        #[trigger] slot_key_ok(bmap(by@), bmap(by0), s, r, e, t@, o@.take(slot + 1), k) by {
                        assert(slot_key_ok(bmap(before), bmap(by0), s, r, e, t@, o@.take(slot as int), k));
                        lemma_last_index_take(o@, slot as int, k.2);
                        if k.0 == s && k.1 == r && e.contains(k.2) {
                            if c == k.2 {
                                assert(inn);
                                assert(last_index(o@.take(slot + 1), k.2) == slot);
                                assert(k == (s, r, c));
                                assert(bmap(by@).contains_key(k));
                                assert(bmap(by@)[k] == (s, t@, slot as u8));
                                assert((last_index(o@.take(slot + 1), k.2) as Slot) == slot as u8);
                            } else {
                                if inn {
                                    assert(k != (s, r, c));
                                }
                            }
                        } else {
                            if inn {
                                assert(k != (s, r, c));
                            }
                        }
                    }
                }
                slot = slot + 1;
            }
            proof {
                assert(o@.take(slot as int) =~= o@);
                assert forall|k: (Season, Round, Car)|
                    #[trigger] team_key_ok(bmap(by@), bmap(old(by)@), rv, s, r, e, k) by {
                    assert(slot_key_ok(bmap(by@), bmap(by0), s, r, e, t@, o@.take(slot as int), k));
                    lemma_last_index_contains(o@, k.2);
                    if k.0 == s && k.1 == r && e.contains(k.2) {
                        assert(m.contains_key(k.2) && m[k.2] == t@);
                    }
                }
            }
            locc.set(idx, o);
            proof {
                assert forall|i: int| 0 <= i < lteams@.len() implies ((#[trigger] locc@[i])@, lstop@[i])
                    == lineage_before(
                    rv,
                    s,
                    lteams@[i]@,
                    if done.insert(t@).contains(lteams@[i]@) {
                        (r + 1) as nat
                    } else {
                        r as nat
                    },
                ) && locc@[i]@.len() <= 256 by {
                    if i != idx {
                        assert(lteams@[i]@ != lteams@[idx as int]@);
                    }
                }
            }
        },
        Err((v, a)) => {
            lstop.set(idx, true);
            let ghost before = ambs@;
            ambs.push(SeatAmbiguity { season: s, round: r, team: t.clone(), vacated: v, arriving: a });
            proof {
                assert(ambs@.take(before.len() as int) =~= before);
                assert forall|i: int| 0 <= i < lteams@.len() implies ((#[trigger] locc@[i])@, lstop@[i])
                    == lineage_before(
                    rv,
                    s,
                    lteams@[i]@,
                    if done.insert(t@).contains(lteams@[i]@) {
                        (r + 1) as nat
                    } else {
                        r as nat
                    },
                ) && locc@[i]@.len() <= 256 by {
                    if i != idx {
                        assert(lteams@[i]@ != lteams@[idx as int]@);
                    }
                }
            }
        },
    }
}


/// The names among the first `n` of `teams`.
pub open spec fn prefix_names(teams: Seq<String>, n: int) -> Set<Seq<char>> {
    Set::new(|x: Seq<char>| exists|j: int| 0 <= j < n && (#[trigger] teams[j])@ == x)
}

/// Ambiguities as values.
pub open spec fn avs(v: Seq<SeatAmbiguity>) -> Seq<AmbV> {
    v.map_values(|a: SeatAmbiguity| a@)
}

/// Every pair of reported ambiguities is in report order.
pub open spec fn ambs_sorted(q: Seq<AmbV>) -> bool {
    forall|i: int, j: int| 0 <= i < j < q.len() ==> amb_lt(#[trigger] q[i], #[trigger] q[j])
}

/// Season `s` is resolved below round `rr`, and at round `rr` for the teams in
/// `done`; other seasons are as they were.
pub open spec fn season_key_ok(
    m_new: Map<(Season, Round, Car), SeatV>,
    m_old: Map<(Season, Round, Car), SeatV>,
    rv: Seq<RosterV>,
    s: Season,
    rr: int,
    done: Set<Seq<char>>,
    k: (Season, Round, Car),
) -> bool {
    if k.0 == s {
        if (k.1 as int) < rr {
            holds_seat(m_new, k, seat_spec(rv, s, k.1, k.2))
        } else if (k.1 as int) == rr && event_of(rv, s, k.1).contains_key(k.2) && done.contains(
            event_of(rv, s, k.1)[k.2],
        ) {
            holds_seat(m_new, k, seat_spec(rv, s, k.1, k.2))
        } else {
            !m_new.contains_key(k)
        }
    } else {
        same_at(m_new, m_old, k)
    }
}

/// The ambiguities of season `s` reported so far: each is one the model
/// raises, they are in report order, and every one the model raises below
/// round `rr`, or at `rr` for a team in `done`, is there.
pub open spec fn season_ambs_ok(q: Seq<AmbV>, rv: Seq<RosterV>, s: Season, rr: int, done: Set<Seq<char>>) -> bool {
    &&& forall|i: int|
        0 <= i < q.len() ==> (#[trigger] q[i]).0 == s && amb_at(rv, s, q[i].1, q[i].2) == Some(q[i])
            && ((q[i].1 as int) < rr || ((q[i].1 as int) == rr && done.contains(q[i].2)))
    &&& ambs_sorted(q)
    &&& forall|r: Round, t: Seq<char>|
        ((r as int) < rr || ((r as int) == rr && done.contains(t))) && (#[trigger] amb_at(rv, s, r, t)).is_some()
            ==> exists|i: int| 0 <= i < q.len() && (#[trigger] q[i]).1 == r && q[i].2 == t
}

/// Resolve every event of season `s`, appending its seats and ambiguities.
#[verifier::rlimit(80)]
fn resolve_season(
    rosters: &[Roster],
    s: Season,
    by: &mut Vec<((Season, Round, Car), Seat)>,
    ambs: &mut Vec<SeatAmbiguity>,
)
    requires
        forall|k: (Season, Round, Car)| k.0 == s ==> !(#[trigger] bmap(old(by)@).contains_key(k)),
    ensures
        forall|k: (Season, Round, Car)|
            #[trigger] season_key_ok(
                bmap(final(by)@),
                bmap(old(by)@),
                rosters_view(rosters@),
                s,
                256,
                Set::empty(),
                k,
            ),
        final(ambs)@.len() >= old(ambs)@.len(),
        final(ambs)@.take(old(ambs)@.len() as int) == old(ambs)@,
        season_ambs_ok(
            avs(final(ambs)@).skip(old(ambs)@.len() as int),
            rosters_view(rosters@),
            s,
            256,
            Set::empty(),
        ),
{
    let ghost rv = rosters_view(rosters@);
    let ghost by0 = by@;
    let ghost n0 = ambs@.len();
    let mut lteams: Vec<String> = Vec::new();
    let mut locc: Vec<Vec<Car>> = Vec::new();
    let mut lstop: Vec<bool> = Vec::new();
    let mut rr: u16 = 0;
    proof {
        assert(avs(ambs@).skip(n0 as int) =~= Seq::<AmbV>::empty());
        assert forall|k: (Season, Round, Car)|
            #[trigger] season_key_ok(bmap(by@), bmap(by0), rv, s, 0, Set::empty(), k) by {
        }
    }
    while rr < 256
        invariant
            rr <= 256,
            rv == rosters_view(rosters@),
            lin_ok(lteams@, locc@, lstop@, rv, s, rr as nat, Set::empty()),
            forall|k: (Season, Round, Car)|
                #[trigger] season_key_ok(bmap(by@), bmap(by0), rv, s, rr as int, Set::empty(), k),
            ambs@.len() >= n0,
            ambs@.take(n0 as int) == old(ambs)@,
            n0 == old(ambs)@.len(),
            by0 == old(by)@,
            season_ambs_ok(avs(ambs@).skip(n0 as int), rv, s, rr as int, Set::empty()),
        decreases 256 - rr,
    {
        let r = rr as u8;
        let ev = event_entries(rosters, s, r);
        let teams = teams_of(&ev);
        let ghost m = event_of(rv, s, r);
        let mut ti: usize = 0;
        proof {
            assert(prefix_names(teams@, 0) =~= Set::<Seq<char>>::empty());
        }
        while ti < teams.len()
            invariant
                rr < 256,
                r == rr as u8,
                ti <= teams@.len(),
                rv == rosters_view(rosters@),
                m == event_of(rv, s, r),
                distinct_cars(ev@),
                pairs_map(ev_view(ev@)) == m,
                strs_sorted(teams@),
                forall|t: Seq<char>| has_str(teams@, t) <==> !entered_set(m, t).is_empty(),
                lin_ok(lteams@, locc@, lstop@, rv, s, r as nat, prefix_names(teams@, ti as int)),
                forall|k: (Season, Round, Car)|
                    #[trigger] season_key_ok(
                        bmap(by@),
                        bmap(by0),
                        rv,
                        s,
                        rr as int,
                        prefix_names(teams@, ti as int),
                        k,
                    ),
                ambs@.len() >= n0,
                ambs@.take(n0 as int) == old(ambs)@,
                n0 == old(ambs)@.len(),
                season_ambs_ok(avs(ambs@).skip(n0 as int), rv, s, rr as int, prefix_names(teams@, ti as int)),
            decreases teams@.len() - ti,
        {
            let entered = entered_of(&ev, teams[ti].as_str());
            let ghost t = teams@[ti as int]@;
            let ghost done = prefix_names(teams@, ti as int);
            let ghost by_before = by@;
            let ghost ambs_before = ambs@;
            proof {
                crate::order::lemma_seq_lt_strict_total();
                assert(r as int == rr as int);
                if done.contains(t) {
                    let j = choose|j: int| 0 <= j < ti && (#[trigger] teams@[j])@ == t;
                    assert(seq_lt(teams@[j]@, teams@[ti as int]@));
                    crate::order::lemma_seq_lt_irreflexive(t);
                }
                assert(has_str(teams@, t));
                assert forall|c: Car| seq_set(entered@).contains(c) implies !bmap(by@).contains_key(
                    (s, r, c),
                ) by {
                    assert(entered_set(m, t).contains(c));
                    assert(season_key_ok(bmap(by@), bmap(by0), rv, s, rr as int, done, (s, r, c)));
                }
            }
            step_team(
                rosters,
                s,
                r,
                &teams[ti],
                &entered,
                &mut lteams,
                &mut locc,
                &mut lstop,
                by,
                ambs,
                Ghost(done),
            );
            proof {
                let done1 = prefix_names(teams@, ti + 1);
                assert(done1 =~= done.insert(t));
                let e = seq_set(entered@);
                assert forall|k: (Season, Round, Car)|
                    #[trigger] season_key_ok(bmap(by@), bmap(by0), rv, s, rr as int, done1, k) by {
                    assert(season_key_ok(bmap(by_before), bmap(by0), rv, s, rr as int, done, k));
                    assert(team_key_ok(bmap(by@), bmap(by_before), rv, s, r, e, k));
                    if k.0 == s && k.1 == r && m.contains_key(k.2) && m[k.2] == t {
                        assert(e.contains(k.2));
                    }
                }
                let q0 = avs(ambs_before).skip(n0 as int);
                let q1 = avs(ambs@).skip(n0 as int);
                assert(ambs@.take(n0 as int) =~= old(ambs)@) by {
                    if ambs@.len() > ambs_before.len() {
                        assert(ambs@.take(n0 as int) =~= ambs@.take(ambs_before.len() as int).take(n0 as int));
                    }
                }
                match amb_at(rv, s, r, t) {
                    Some(a) => {
                        assert(q1 =~= q0.push(a));
                        assert forall|i: int, j: int| 0 <= i < j < q1.len() implies amb_lt(
                            #[trigger] q1[i],
                            #[trigger] q1[j],
                        ) by {
                            if j == q1.len() - 1 {
                                assert(q1[i] == q0[i]);
                                if (q0[i].1 as int) == rr {
                                    let jj = choose|jj: int| 0 <= jj < ti && (#[trigger] teams@[jj])@ == q0[i].2;
                                    assert(seq_lt(teams@[jj]@, teams@[ti as int]@));
                                }
                            } else {
                                assert(q1[i] == q0[i] && q1[j] == q0[j]);
                            }
                        }
                        assert forall|rx: Round, tx: Seq<char>|
                            ((rx as int) < rr || ((rx as int) == rr && done1.contains(tx))) && (
                            #[trigger] amb_at(rv, s, rx, tx)).is_some() implies exists|i: int|
                            0 <= i < q1.len() && (#[trigger] q1[i]).1 == rx && q1[i].2 == tx by {
                            if (rx as int) == rr && tx == t {
                                assert(q1[q1.len() - 1].1 == rx && q1[q1.len() - 1].2 == tx);
                            } else {
                                let i = choose|i: int| 0 <= i < q0.len() && (#[trigger] q0[i]).1 == rx && q0[i].2 == tx;
                                assert(q1[i] == q0[i]);
                            }
                        }
                        assert forall|i: int| 0 <= i < q1.len() implies (#[trigger] q1[i]).0 == s && amb_at(
                            rv,
                            s,
                            q1[i].1,
                            q1[i].2,
                        ) == Some(q1[i]) && ((q1[i].1 as int) < rr || ((q1[i].1 as int) == rr
                            && done1.contains(q1[i].2))) by {
                            if i < q0.len() {
                                assert(q1[i] == q0[i]);
                            }
                        }
                    },
                    None => {
                        assert(q1 =~= q0);
                        assert forall|rx: Round, tx: Seq<char>|
                            ((rx as int) < rr || ((rx as int) == rr && done1.contains(tx))) && (
                            #[trigger] amb_at(rv, s, rx, tx)).is_some() implies exists|i: int|
                            0 <= i < q1.len() && (#[trigger] q1[i]).1 == rx && q1[i].2 == tx by {
                            let i = choose|i: int| 0 <= i < q0.len() && (#[trigger] q0[i]).1 == rx && q0[i].2 == tx;
                        }
                    },
                }
            }
            ti = ti + 1;
        }
        proof {
            let done = prefix_names(teams@, ti as int);
            let r1: nat = (rr + 1) as nat;
            assert(((r1 - 1) as Round) == r);
            assert forall|t: Seq<char>| !entered_set(m, t).is_empty() implies done.contains(t) by {
                assert(has_str(teams@, t));
                let j = choose|j: int| 0 <= j < teams@.len() && (#[trigger] teams@[j])@ == t;
            }
            assert forall|i: int| 0 <= i < lteams@.len() implies ((#[trigger] locc@[i])@, lstop@[i])
                == lineage_before(rv, s, lteams@[i]@, r1) && locc@[i]@.len() <= 256 by {
                if !done.contains(lteams@[i]@) {
                    assert(entered_set(m, lteams@[i]@).is_empty());
                }
            }
            assert forall|t: Seq<char>| !has_str(lteams@, t) implies lineage_before(rv, s, t, r1) == (
                Seq::<Car>::empty(),
                false,
            ) by {
                assert(!done.contains(t));
                assert(entered_set(m, t).is_empty());
            }
            assert forall|k: (Season, Round, Car)|
                #[trigger] season_key_ok(bmap(by@), bmap(by0), rv, s, r1 as int, Set::empty(), k) by {
                assert(season_key_ok(bmap(by@), bmap(by0), rv, s, rr as int, done, k));
                if k.0 == s && (k.1 as int) == rr {
                    if m.contains_key(k.2) {
                        assert(entered_set(m, m[k.2]).contains(k.2));
                    }
                }
            }
            let q = avs(ambs@).skip(n0 as int);
            assert forall|rx: Round, tx: Seq<char>|
                ((rx as int) < r1) && (#[trigger] amb_at(rv, s, rx, tx)).is_some() implies exists|i: int|
                0 <= i < q.len() && (#[trigger] q[i]).1 == rx && q[i].2 == tx by {
                if (rx as int) == rr {
                    assert(!entered_set(m, tx).is_empty());
                }
            }
        }
        rr = rr + 1;
    }
}

/// Resolve the seat of every car entry in a window of rosters.
///
/// Seasons resolve independently, and the window is order independent within
/// an event but for a car repeated there, which keeps its first entry. The
/// seat map holds exactly the seats the model gives, and the ambiguities are
/// exactly the ones it raises, ordered by season, then round, then team.
pub fn resolve_seats(rosters: &[Roster]) -> (seats: Seats)
    ensures
        resolves(rosters_view(rosters@), seats.seat_map(), seats.amb_view()),
{
    let ghost rv = rosters_view(rosters@);
    // The seasons the window holds, ascending.
    let mut seasons: Vec<Season> = Vec::new();
    let mut i: usize = 0;
    while i < rosters.len()
        invariant
            i <= rosters.len(),
            rv == rosters_view(rosters@),
            strictly_sorted(seasons@, car_lt()),
            forall|x: Season| seasons@.contains(x) <==> exists|j: int| 0 <= j < i && (#[trigger] rv[j]).0 == x,
        decreases rosters.len() - i,
    {
        insert_sorted_u16(&mut seasons, rosters[i].season);
        assert forall|x: Season| seasons@.contains(x) <==> exists|j: int| 0 <= j < i + 1 && (#[trigger] rv[j]).0 == x by {
            assert(rv[i as int].0 == rosters@[i as int].season);
            if exists|j: int| 0 <= j < i + 1 && (#[trigger] rv[j]).0 == x {
                let j = choose|j: int| 0 <= j < i + 1 && (#[trigger] rv[j]).0 == x;
                if j < i {
                    assert(exists|j: int| 0 <= j < i && (#[trigger] rv[j]).0 == x);
                }
            }
        }
        i = i + 1;
    }
    let mut by: Vec<((Season, Round, Car), Seat)> = Vec::new();
    let mut ambs: Vec<SeatAmbiguity> = Vec::new();
    let mut si: usize = 0;
    while si < seasons.len()
        invariant
            si <= seasons@.len(),
            rv == rosters_view(rosters@),
            strictly_sorted(seasons@, car_lt()),
            forall|x: Season| seasons@.contains(x) <==> exists|j: int| 0 <= j < rv.len() && (#[trigger] rv[j]).0 == x,
            forall|k: (Season, Round, Car)|
                if (exists|j: int| 0 <= j < si && seasons@[j] == k.0) {
                    holds_seat(bmap(by@), k, seat_spec(rv, k.0, k.1, k.2))
                } else {
                    !(#[trigger] bmap(by@).contains_key(k))
                },
            forall|j: int|
                0 <= j < avs(ambs@).len() ==> amb_at(rv, (#[trigger] avs(ambs@)[j]).0, avs(ambs@)[j].1, avs(ambs@)[j].2)
                    == Some(avs(ambs@)[j]) && exists|x: int| 0 <= x < si && seasons@[x] == avs(ambs@)[j].0,
            forall|s: Season, r: Round, t: Seq<char>|
                (exists|x: int| 0 <= x < si && seasons@[x] == s) && (#[trigger] amb_at(rv, s, r, t)).is_some()
                    ==> exists|j: int|
                    0 <= j < avs(ambs@).len() && (#[trigger] avs(ambs@)[j]).0 == s && avs(ambs@)[j].1 == r
                        && avs(ambs@)[j].2 == t,
            ambs_sorted(avs(ambs@)),
        decreases seasons@.len() - si,
    {
        let s = seasons[si];
        let ghost by_before = by@;
        let ghost a_before = avs(ambs@);
        let ghost n0 = ambs@.len();
        proof {
            assert forall|k: (Season, Round, Car)| k.0 == s implies !(#[trigger] bmap(by@).contains_key(k)) by {
                if exists|j: int| 0 <= j < si && seasons@[j] == k.0 {
                    let j = choose|j: int| 0 <= j < si && seasons@[j] == k.0;
                    assert(seasons@[j] < seasons@[si as int]);
                }
            }
        }
        resolve_season(rosters, s, &mut by, &mut ambs);
        proof {
            let q = avs(ambs@).skip(n0 as int);
            assert(season_ambs_ok(q, rv, s, 256, Set::empty()));
            assert(avs(ambs@).take(n0 as int) =~= a_before);
            assert forall|j: int| 0 <= j < avs(ambs@).len() implies avs(ambs@)[j] == (if j < n0 {
                a_before[j]
            } else {
                q[j - n0]
            }) by {
                if j < n0 {
                    assert(avs(ambs@).take(n0 as int)[j] == avs(ambs@)[j]);
                }
            }
            assert forall|k: (Season, Round, Car)|
                if (exists|j: int| 0 <= j < si + 1 && seasons@[j] == k.0) {
                    holds_seat(bmap(by@), k, seat_spec(rv, k.0, k.1, k.2))
                } else {
                    !(#[trigger] bmap(by@).contains_key(k))
                } by {
                assert(season_key_ok(bmap(by@), bmap(by_before), rv, s, 256, Set::empty(), k));
                if exists|j: int| 0 <= j < si + 1 && seasons@[j] == k.0 {
                    let j = choose|j: int| 0 <= j < si + 1 && seasons@[j] == k.0;
                    if j < si {
                        assert(exists|j: int| 0 <= j < si && seasons@[j] == k.0);
                    }
                } else {
                    assert(seasons@[si as int] != k.0);
                }
            }
            assert forall|j: int| 0 <= j < avs(ambs@).len() implies amb_at(rv, (#[trigger] avs(ambs@)[j]).0, avs(ambs@)[j].1, avs(ambs@)[j].2)
                    == Some(avs(ambs@)[j]) && exists|x: int| 0 <= x < si + 1 && seasons@[x] == avs(ambs@)[j].0 by {
                if j < n0 {
                    let x = choose|x: int| 0 <= x < si && seasons@[x] == a_before[j].0;
                } else {
                    assert(q[j - n0] == avs(ambs@)[j]);
                }
            }
            assert forall|s2: Season, r: Round, t: Seq<char>|
                (exists|x: int| 0 <= x < si + 1 && seasons@[x] == s2) && (#[trigger] amb_at(rv, s2, r, t)).is_some()
                    implies exists|j: int|
                    0 <= j < avs(ambs@).len() && (#[trigger] avs(ambs@)[j]).0 == s2 && avs(ambs@)[j].1 == r
                        && avs(ambs@)[j].2 == t by {
                if s2 == s {
                    let i = choose|i: int| 0 <= i < q.len() && (#[trigger] q[i]).1 == r && q[i].2 == t;
                    assert(avs(ambs@)[n0 + i] == q[i]);
                } else {
                    let x = choose|x: int| 0 <= x < si + 1 && seasons@[x] == s2;
                    assert(x < si);
                    let j = choose|j: int| 0 <= j < a_before.len() && (#[trigger] a_before[j]).0 == s2 && a_before[j].1 == r
                        && a_before[j].2 == t;
                    assert(avs(ambs@)[j] == a_before[j]);
                }
            }
            assert forall|i: int, j: int| 0 <= i < j < avs(ambs@).len() implies amb_lt(#[trigger] avs(ambs@)[i], #[trigger] avs(ambs@)[j]) by {
                if j < n0 {
                } else if i < n0 {
                    let x = choose|x: int| 0 <= x < si && seasons@[x] == a_before[i].0;
                    assert(seasons@[x] < seasons@[si as int]);
                    assert(q[j - n0].0 == s);
                } else {
                    assert(q[i - n0] == avs(ambs@)[i] && q[j - n0] == avs(ambs@)[j]);
                }
            }
        }
        si = si + 1;
    }
    proof {
        assert forall|k: (Season, Round, Car)| #[trigger] holds_seat(bmap(by@), k, seat_spec(rv, k.0, k.1, k.2)) by {
            if !exists|j: int| 0 <= j < si && seasons@[j] == k.0 {
                assert(!seasons@.contains(k.0));
                lemma_event_of_absent(rv, k.0, k.1);
            }
        }
        assert forall|s: Season, r: Round, t: Seq<char>|
            (#[trigger] amb_at(rv, s, r, t)).is_some() implies exists|i: int|
                0 <= i < avs(ambs@).len() && (#[trigger] avs(ambs@)[i]).0 == s && avs(ambs@)[i].1 == r
                    && avs(ambs@)[i].2 == t by {
            if !exists|j: int| 0 <= j < si && seasons@[j] == s {
                assert(!seasons@.contains(s));
                lemma_event_of_absent(rv, s, r);
                assert(entered_set(event_of(rv, s, r), t) =~= Set::empty());
            }
        }
    }
    let by_entry = seat_table(&by);
    Seats { by_entry, ambiguities: ambs }
}

/// The seat records as a map from key to seat, a later record for one key
/// winning.
fn seat_table(by: &Vec<((Season, Round, Car), Seat)>) -> (m: BTreeMap<(Season, Round, Car), Seat>)
    ensures
        m@.map_values(|st: Seat| st@) == bmap(by@),
{
    let ghost f = |e: ((Season, Round, Car), Seat)| (e.0, e.1@);
    let mut m: BTreeMap<(Season, Round, Car), Seat> = BTreeMap::new();
    let mut j: usize = 0;
    assert(by@.take(0).map_values(f) =~= Seq::<((Season, Round, Car), SeatV)>::empty());
    assert(m@.map_values(|st: Seat| st@) =~= Map::<(Season, Round, Car), SeatV>::empty());
    while j < by.len()
        invariant
            j <= by@.len(),
            f == (|e: ((Season, Round, Car), Seat)| (e.0, e.1@)),
            m@.map_values(|st: Seat| st@) == pairs_map(by@.take(j as int).map_values(f)),
        decreases by.len() - j,
    {
        let key = by[j].0;
        let seat = by[j].1.clone();
        let ghost before = m@;
        m.insert(key, seat);
        proof {
            assert(by@.take(j + 1).map_values(f) =~= by@.take(j as int).map_values(f).push(f(by@[j as int])));
            lemma_pairs_map_push(by@.take(j as int).map_values(f), f(by@[j as int]));
            assert(m@ == before.insert(key, seat));
            assert(m@.map_values(|st: Seat| st@) =~= before.map_values(|st: Seat| st@).insert(key, seat@));
        }
        j = j + 1;
    }
    assert(by@.take(j as int) =~= by@);
    m
}

/// A season no roster holds has no entries at any event.
proof fn lemma_event_of_absent(rv: Seq<RosterV>, s: Season, r: Round)
    requires
        forall|j: int| 0 <= j < rv.len() ==> (#[trigger] rv[j]).0 != s,
    ensures
        event_of(rv, s, r) == Map::<Car, Seq<char>>::empty(),
    decreases rv.len(),
{
    if rv.len() > 0 {
        assert forall|j: int| 0 <= j < rv.drop_last().len() implies (#[trigger] rv.drop_last()[j]).0 != s by {
            assert(rv.drop_last()[j] == rv[j]);
        }
        lemma_event_of_absent(rv.drop_last(), s, r);
        assert(rv.last() == rv[rv.len() - 1]);
    }
}

impl Seats {
    /// The seat `car` occupies at `(season, round)`.
    ///
    /// `None` when the window holds no roster for that event, when the car did
    /// not enter it, or when an ambiguous diff stopped its team's lineage.
    pub fn seat(&self, season: Season, round: Round, car: Car) -> (r: Option<&Seat>)
        ensures
            match r {
                Some(st) => self.seat_map().contains_key((season, round, car)) && st@ == self.seat_map()[(
                    season,
                    round,
                    car,
                )],
                None => !self.seat_map().contains_key((season, round, car)),
            },
    {
        proof {
            broadcast use vstd::std_specs::btree::group_btree_axioms;
        }
        self.by_entry.get(&(season, round, car))
    }

    /// Every diff the resolver refused to guess, ordered by season, then
    /// round, then team. One per team: the first unpairable diff stops the
    /// lineage.
    pub fn ambiguities(&self) -> (r: &[SeatAmbiguity])
        ensures
            r@.map_values(|a: SeatAmbiguity| a@) == self.amb_view(),
    {
        self.ambiguities.as_slice()
    }
}

} // verus!
