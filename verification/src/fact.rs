//! A [`Fact`]: one claim, from one document, about one component.
//!
//! Three independent documents state the same running count, so the tracker
//! records each claim verbatim, tagged by its source, and lets the invariant
//! sweep cross-check them: store raw facts, compute the view, flag
//! disagreements, never guess. Nothing here computes; a fact is a witness.
use vstd::prelude::*;
use vstd::string::*;

verus! {

/// A championship season, for example `2026`.
pub type Season = u16;

/// A car number.
pub type Car = u16;

/// An event's ordering within a season, counting from one.
pub type Round = u8;

/// A team name, as a document or a roster prints it.
pub type Team = String;

/// A component code, for example `ICE` or `PU-CE`.
///
/// The code is data, never an enum. The component set changes across seasons,
/// so a season's valid components are exactly the rows the ruleset seeds for
/// it.
#[derive(Debug, PartialEq, Eq, PartialOrd, Ord, Hash)]
pub struct ComponentCode(String);

impl View for ComponentCode {
    type V = Seq<char>;

    closed spec fn view(&self) -> Seq<char> {
        self.0@
    }
}

impl Clone for ComponentCode {
    fn clone(&self) -> (r: Self)
        ensures
            r@ == self@,
    {
        ComponentCode(self.0.clone())
    }
}

impl ComponentCode {
    /// Wrap a raw code string.
    pub fn new(code: &str) -> (r: Self)
        ensures
            r@ == code@,
    {
        ComponentCode(String::from_str(code))
    }

    /// Wrap an owned code string.
    pub fn from_string(code: String) -> (r: Self)
        ensures
            r@ == code@,
    {
        ComponentCode(code)
    }

    /// The code as a string slice.
    pub fn as_str(&self) -> (r: &str)
        ensures
            r@ == self@,
    {
        self.0.as_str()
    }
}

/// Whether a document states a fitted element is within the allowance.
#[derive(Debug, Clone, Copy, PartialEq, Eq, Structural)]
pub enum Conformity {
    /// The document states the element is within its allowance.
    InConformity,
    /// The document states the element exceeds its allowance.
    NotInConformity,
}

/// What a fact claims about its `(season, round, car, component)`.
///
/// Only [`SnapshotCount`](Claim::SnapshotCount) and
/// [`ElementsFitted`](Claim::ElementsFitted) feed the components-used sum. An
/// infringement's restated ordinal is a cross-check plus a penalty, never a
/// fitted increment.
#[derive(Debug, PartialEq, Eq)]
pub enum Claim {
    /// The snapshot's running total before this event's new parts.
    SnapshotCount(u32),
    /// Parts fitted at this event, with the document's conformity verdict.
    ElementsFitted {
        /// How many of this component the driver fitted this event.
        count: u32,
        /// Whether the document states this fitting stays within the allowance.
        conformity: Conformity,
    },
    /// The new-elements document's "previously used" figure: a cross-check
    /// that must equal the prior snapshot, never part of the sum.
    PreviouslyUsed(u32),
    /// An infringement's restated ordinal: a cross-check against the computed
    /// count after the event, never a fitted increment.
    StatedOrdinal(u32),
    /// The penalty an infringement imposes, recorded verbatim. Its presence
    /// marks the component penalized; the text is not cross-checked.
    Penalty(String),
}

impl Clone for Claim {
    fn clone(&self) -> (r: Self)
        ensures
            r == *self,
    {
        match self {
            Claim::SnapshotCount(n) => Claim::SnapshotCount(*n),
            Claim::ElementsFitted { count, conformity } => Claim::ElementsFitted {
                count: *count,
                conformity: *conformity,
            },
            Claim::PreviouslyUsed(n) => Claim::PreviouslyUsed(*n),
            Claim::StatedOrdinal(n) => Claim::StatedOrdinal(*n),
            Claim::Penalty(text) => Claim::Penalty(text.clone()),
        }
    }
}

/// One claim from one document.
///
/// `round` orders events within a season so the sweep can relate consecutive
/// ones.
#[derive(Debug, Clone, PartialEq, Eq)]
pub struct Fact {
    /// The season the claim belongs to, for example `2026`.
    pub season: Season,
    /// The event's ordering within the season, counting from one.
    pub round: Round,
    /// The car number the claim is about.
    pub car: Car,
    /// The component the claim is about.
    pub component: ComponentCode,
    /// What the fact claims.
    pub claim: Claim,
    /// The source document's number, as its header states it.
    pub document: u32,
    /// Whether reconciliation has superseded this fact with a corrected
    /// document. The sweep skips superseded facts.
    pub superseded: bool,
    /// The team the document prints against the car, verbatim, when it prints
    /// one. A witness the sweep checks by grouping only.
    pub printed_team: Option<Team>,
}

impl Fact {
    /// Build a live (not superseded) fact that prints no team.
    pub fn new(
        season: Season,
        round: Round,
        car: Car,
        component: ComponentCode,
        claim: Claim,
        document: u32,
    ) -> (r: Self)
        ensures
            r.season == season,
            r.round == round,
            r.car == car,
            r.component@ == component@,
            r.claim == claim,
            r.document == document,
            !r.superseded,
            r.printed_team.is_none(),
    {
        Fact { season, round, car, component, claim, document, superseded: false, printed_team: None }
    }

    /// The same fact, recording the team its document prints.
    pub fn with_printed_team(self, team: &str) -> (r: Self)
        ensures
            r.season == self.season,
            r.round == self.round,
            r.car == self.car,
            r.component@ == self.component@,
            r.claim == self.claim,
            r.document == self.document,
            r.superseded == self.superseded,
            r.printed_team.is_some() && r.printed_team.unwrap()@ == team@,
    {
        Fact { printed_team: Some(String::from_str(team)), ..self }
    }
}

} // verus!
