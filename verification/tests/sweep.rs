//! The invariant sweep, driven by hand-built rosters and facts. A clean set
//! reports nothing, and a single planted misparse surfaces as one named
//! conflict. The fixture swaps two cars between teams and substitutes a third
//! mid-season, so the same facts read against rosters that never record the
//! moves raise the false conflicts the seat fold removes.

use pu_tracker::{
    Allowances, Car, Claim, ComponentCode, Conflict, Conformity, Fact, Roster, RosterEntry, Round,
    Seat, SeatAmbiguity, Season, Seats, Slot, Team, resolve_seats, sweep,
};

const SEASON: Season = 2026;
const InConformity: Conformity = Conformity::InConformity;
const NotInConformity: Conformity = Conformity::NotInConformity;

/// The teams as the rosters enter them.
const RED_BULL: &str = "Red Bull";
const RACING_BULLS: &str = "Racing Bulls";
const FERRARI: &str = "Ferrari";

/// The same teams as the documents print them, and the only strings the
/// facts here carry: the sponsor names the roster feed leaves out, so no
/// printed string equals a roster string.
const RED_BULL_PRINTED: &str = "Red Bull Racing Honda RBPT";
const RACING_BULLS_PRINTED: &str = "Racing Bulls Honda RBPT";
const FERRARI_PRINTED: &str = "Scuderia Ferrari HP";

/// A team no roster in the window enters, for the cars the sweep cannot
/// seat.
const ALPINE_PRINTED: &str = "BWT Alpine Formula One Team";

/// Every fact in the fixture is about the ICE, the component whose count the
/// swap and the substitution carry across.
const ICE: &str = "ICE";

/// A second seeded component, for the rows one document lists beside the
/// ICE.
const TC: &str = "TC";

/// The three documents an event publishes, by the number each header states.
/// Numbering restarts each event, so the same three numbers recur every
/// round.
const SNAPSHOT_DOC: u32 = 1;
const NEW_ELEMENTS_DOC: u32 = 2;
const INFRINGEMENT_DOC: u32 = 3;

fn entry(car: Car, driver: &str, team: &str) -> RosterEntry {
    RosterEntry {
        car,
        driver: driver.to_owned(),
        team: team.into(),
    }
}

fn roster(round: Round, entries: Vec<RosterEntry>) -> Roster {
    Roster {
        season: SEASON,
        round,
        entries,
    }
}

fn seat(team: &str, slot: Slot) -> Seat {
    Seat {
        season: SEASON,
        team: team.into(),
        slot,
    }
}

/// The grid rounds 1 and 2 run: three teams, two cars each.
fn opening_grid() -> Vec<RosterEntry> {
    vec![
        entry(1, "Verstappen", RED_BULL),
        entry(30, "Lawson", RED_BULL),
        entry(6, "Hadjar", RACING_BULLS),
        entry(22, "Tsunoda", RACING_BULLS),
        entry(16, "Leclerc", FERRARI),
        entry(44, "Hamilton", FERRARI),
    ]
}

/// The grid rounds 3 and 4 run: cars 22 and 30 swap teams, and car 43
/// substitutes for car 44.
fn swapped_grid() -> Vec<RosterEntry> {
    vec![
        entry(1, "Verstappen", RED_BULL),
        entry(22, "Tsunoda", RED_BULL),
        entry(6, "Hadjar", RACING_BULLS),
        entry(30, "Lawson", RACING_BULLS),
        entry(16, "Leclerc", FERRARI),
        entry(43, "Colapinto", FERRARI),
    ]
}

/// The four events the facts cover, with the moves taking effect at round 3.
fn window() -> Vec<Roster> {
    vec![
        roster(1, opening_grid()),
        roster(2, opening_grid()),
        roster(3, swapped_grid()),
        roster(4, swapped_grid()),
    ]
}

fn seats() -> Seats {
    resolve_seats(&window())
}

/// The same four events with the opening grid throughout: rosters that never
/// record the moves. Each of the six cars on that grid then holds one seat
/// all season, so for them the sweep folds by car number and the seat key
/// buys nothing. Car 43 enters no roster here: the substitute's facts drop
/// out unseated.
fn unchanged_seats() -> Seats {
    resolve_seats(&[
        roster(1, opening_grid()),
        roster(2, opening_grid()),
        roster(3, opening_grid()),
        roster(4, opening_grid()),
    ])
}

fn allowances() -> Allowances {
    Allowances::seed()
}

fn fact(
    round: Round,
    car: Car,
    team: &str,
    component: &str,
    claim: Claim,
    document: u32,
) -> Fact {
    Fact::new(
        SEASON,
        round,
        car,
        ComponentCode::new(component),
        claim,
        document,
    )
    .with_printed_team(team)
}

fn snapshot(round: Round, car: Car, team: &str, count: u32) -> Fact {
    fact(
        round,
        car,
        team,
        ICE,
        Claim::SnapshotCount(count),
        SNAPSHOT_DOC,
    )
}

fn previously_used(round: Round, car: Car, team: &str, count: u32) -> Fact {
    fact(
        round,
        car,
        team,
        ICE,
        Claim::PreviouslyUsed(count),
        NEW_ELEMENTS_DOC,
    )
}

fn fitted(round: Round, car: Car, team: &str, count: u32, conformity: Conformity) -> Fact {
    fitted_component(round, car, team, ICE, count, conformity)
}

fn fitted_component(
    round: Round,
    car: Car,
    team: &str,
    component: &str,
    count: u32,
    conformity: Conformity,
) -> Fact {
    fact(
        round,
        car,
        team,
        component,
        Claim::ElementsFitted { count, conformity },
        NEW_ELEMENTS_DOC,
    )
}

/// A new-elements row from a document that prints no team against the car.
fn fitted_unprinted(round: Round, car: Car) -> Fact {
    Fact::new(
        SEASON,
        round,
        car,
        ComponentCode::new(ICE),
        Claim::ElementsFitted {
            count: 1,
            conformity: Conformity::InConformity,
        },
        NEW_ELEMENTS_DOC,
    )
}

fn ordinal(round: Round, car: Car, team: &str, value: u32) -> Fact {
    fact(
        round,
        car,
        team,
        ICE,
        Claim::StatedOrdinal(value),
        INFRINGEMENT_DOC,
    )
}

fn penalty(round: Round, car: Car, team: &str) -> Fact {
    fact(
        round,
        car,
        team,
        ICE,
        Claim::Penalty("10 place grid drop".to_owned()),
        INFRINGEMENT_DOC,
    )
}

/// A coherent 2026 fixture over the window's four events, for four seats.
///
/// Red Bull's second seat climbs to three ICEs and Racing Bulls' to two, so
/// the two seats the swap crosses hold different totals. Ferrari's second
/// seat passes to a substitute at round 3. Ferrari's first seat takes a
/// fifth ICE at round 3 and is penalized for it. Every oracle equation
/// holds.
///
/// Each round's snapshot prints the entry list of the round before it, and
/// each round's new-elements document prints its own, both in the form the
/// documents print teams.
fn clean_facts() -> Vec<Fact> {
    vec![
        // Round 1. Nothing precedes it, so its snapshot prints its own grid.
        snapshot(1, 30, RED_BULL_PRINTED, 0),
        previously_used(1, 30, RED_BULL_PRINTED, 0),
        fitted(1, 30, RED_BULL_PRINTED, 1, InConformity),
        snapshot(1, 22, RACING_BULLS_PRINTED, 0),
        previously_used(1, 22, RACING_BULLS_PRINTED, 0),
        fitted(1, 22, RACING_BULLS_PRINTED, 1, InConformity),
        snapshot(1, 44, FERRARI_PRINTED, 0),
        previously_used(1, 44, FERRARI_PRINTED, 0),
        fitted(1, 44, FERRARI_PRINTED, 1, InConformity),
        snapshot(1, 16, FERRARI_PRINTED, 1),
        previously_used(1, 16, FERRARI_PRINTED, 1),
        fitted(1, 16, FERRARI_PRINTED, 1, InConformity),
        // Round 2. Car 22 fits nothing, so the new-elements document has no
        // row for it and its seat's total stands.
        snapshot(2, 30, RED_BULL_PRINTED, 1),
        previously_used(2, 30, RED_BULL_PRINTED, 1),
        fitted(2, 30, RED_BULL_PRINTED, 1, InConformity),
        snapshot(2, 22, RACING_BULLS_PRINTED, 1),
        snapshot(2, 44, FERRARI_PRINTED, 1),
        previously_used(2, 44, FERRARI_PRINTED, 1),
        fitted(2, 44, FERRARI_PRINTED, 1, InConformity),
        snapshot(2, 16, FERRARI_PRINTED, 2),
        previously_used(2, 16, FERRARI_PRINTED, 2),
        fitted(2, 16, FERRARI_PRINTED, 1, InConformity),
        // Round 3, where the moves take effect. The snapshot still prints
        // round 2's grid and totals; the new-elements document prints
        // round 3's grid, and each arriving car takes over the total of the
        // seat it fills.
        snapshot(3, 30, RED_BULL_PRINTED, 2),
        snapshot(3, 22, RACING_BULLS_PRINTED, 1),
        snapshot(3, 44, FERRARI_PRINTED, 2),
        snapshot(3, 16, FERRARI_PRINTED, 3),
        previously_used(3, 22, RED_BULL_PRINTED, 2),
        fitted(3, 22, RED_BULL_PRINTED, 1, InConformity),
        previously_used(3, 30, RACING_BULLS_PRINTED, 1),
        fitted(3, 30, RACING_BULLS_PRINTED, 1, InConformity),
        previously_used(3, 43, FERRARI_PRINTED, 2),
        fitted(3, 43, FERRARI_PRINTED, 1, InConformity),
        previously_used(3, 16, FERRARI_PRINTED, 3),
        fitted(3, 16, FERRARI_PRINTED, 2, NotInConformity),
        ordinal(3, 16, FERRARI_PRINTED, 5),
        penalty(3, 16, FERRARI_PRINTED),
        // Round 4. Its snapshot closes every seat's round 3 total.
        snapshot(4, 22, RED_BULL_PRINTED, 3),
        snapshot(4, 30, RACING_BULLS_PRINTED, 2),
        snapshot(4, 43, FERRARI_PRINTED, 3),
        snapshot(4, 16, FERRARI_PRINTED, 5),
    ]
}

/// Mutable access to the facts matching one `(round, car)` ICE cell.
fn matching(facts: &mut [Fact], round: Round, car: Car) -> impl Iterator<Item = &mut Fact> {
    facts.iter_mut().filter(move |fact| {
        fact.round == round && fact.car == car && fact.component.as_str() == ICE
    })
}

/// Rewrite the team every row of one document prints against `car`.
fn reprint(facts: &mut [Fact], round: Round, document: u32, car: Car, team: &str) {
    for fact in facts
        .iter_mut()
        .filter(|fact| fact.round == round && fact.document == document && fact.car == car)
    {
        fact.printed_team = Some(team.into());
    }
}

/// One side of a grouping: the cars under each team, names ascending and each
/// team's cars ascending.
fn grouped<const N: usize>(groups: [(&str, &[Car]); N]) -> Vec<(Team, Vec<Car>)> {
    let mut out: Vec<(Team, Vec<Car>)> = groups
        .into_iter()
        .map(|(team, cars)| {
            let mut cars = cars.to_vec();
            cars.sort_unstable();
            (team.to_owned(), cars)
        })
        .collect();
    out.sort();
    out
}

#[test]
fn clean_facts_over_the_rosters_that_record_the_moves_report_no_conflicts() {
    // Every string these documents print carries the sponsor names the
    // roster feed leaves out, so not one of them equals a roster team. The
    // grouping is the same either way.
    assert_eq!(sweep(&clean_facts(), &allowances(), &seats()), Vec::new());
}

#[test]
fn rosters_that_miss_the_swap_raise_a_false_previously_used_mismatch() {
    let conflicts = sweep(&clean_facts(), &allowances(), &unchanged_seats());

    assert!(
        conflicts.contains(&Conflict::PreviouslyUsedMismatch {
            seat: seat(RACING_BULLS, 1),
            component: ComponentCode::new(ICE),
            round: 3,
            previously_used: 2,
            snapshot: 1,
        }),
        "{conflicts:?}"
    );
}

#[test]
fn rosters_that_miss_the_swap_raise_a_false_snapshot_disagreement() {
    let conflicts = sweep(&clean_facts(), &allowances(), &unchanged_seats());

    assert!(
        conflicts.contains(&Conflict::SnapshotDisagreement {
            seat: seat(RACING_BULLS, 1),
            component: ComponentCode::new(ICE),
            from_round: 3,
            to_round: 4,
            count_after: 2,
            next_snapshot: 3,
        }),
        "{conflicts:?}"
    );
}

#[test]
fn a_substitutes_previously_used_figure_is_read_against_the_seat_it_fills() {
    let mut facts = clean_facts();
    // Car 43 enters at round 3 with nothing of its own, so its stated
    // "previously used" can only come from the seat car 44 left.
    for fact in matching(&mut facts, 3, 43) {
        if let Claim::PreviouslyUsed(count) = &mut fact.claim {
            *count = 0;
        }
    }

    let conflicts = sweep(&facts, &allowances(), &seats());

    assert!(
        conflicts.contains(&Conflict::PreviouslyUsedMismatch {
            seat: seat(FERRARI, 1),
            component: ComponentCode::new(ICE),
            round: 3,
            previously_used: 0,
            snapshot: 2,
        }),
        "{conflicts:?}"
    );
}

#[test]
fn a_substitutes_fitting_adds_to_the_seat_it_fills() {
    let mut facts = clean_facts();
    for fact in matching(&mut facts, 3, 43) {
        if let Claim::ElementsFitted { count, .. } = &mut fact.claim {
            *count = 2;
        }
    }

    let conflicts = sweep(&facts, &allowances(), &seats());

    assert!(
        conflicts.contains(&Conflict::SnapshotDisagreement {
            seat: seat(FERRARI, 1),
            component: ComponentCode::new(ICE),
            from_round: 3,
            to_round: 4,
            count_after: 4,
            next_snapshot: 3,
        }),
        "{conflicts:?}"
    );
}

#[test]
fn a_seasons_first_snapshot_seats_on_its_own_roster() {
    assert_eq!(
        sweep(
            &[snapshot(1, 30, RED_BULL_PRINTED, 0)],
            &allowances(),
            &seats()
        ),
        Vec::new()
    );
}

#[test]
fn a_document_naming_one_cars_team_wrongly_raises_nothing() {
    // A label on a lone car groups nothing with anything, so the roster has
    // no grouping to contradict, however wrong the label.
    let facts = vec![fitted_component(
        2,
        30,
        FERRARI_PRINTED,
        ICE,
        1,
        Conformity::InConformity,
    )];

    assert_eq!(sweep(&facts, &allowances(), &seats()), Vec::new());
}

#[test]
fn two_cars_the_roster_keeps_together_under_one_string_raise_nothing() {
    // Cars 1 and 30 are both Red Bull entries at round 2, and the document
    // prints both under one string.
    let facts = vec![
        fitted_component(2, 1, RED_BULL_PRINTED, ICE, 1, Conformity::InConformity),
        fitted_component(2, 30, RED_BULL_PRINTED, ICE, 1, Conformity::InConformity),
    ];

    assert_eq!(sweep(&facts, &allowances(), &seats()), Vec::new());
}

#[test]
fn a_document_grouping_two_cars_the_roster_splits_is_a_conflict() {
    let mut facts = clean_facts();
    // Round 3's new-elements document describes round 3, where car 22 is a
    // Red Bull entry and car 30 a Racing Bulls one. Printing 22 under Racing
    // Bulls puts the two under one string the roster splits.
    reprint(&mut facts, 3, NEW_ELEMENTS_DOC, 22, RACING_BULLS_PRINTED);

    assert_eq!(
        sweep(&facts, &allowances(), &seats()),
        vec![Conflict::TeamGroupingMismatch {
            document_round: 3,
            roster_round: 3,
            printed: grouped([(RACING_BULLS_PRINTED, &[22, 30])]),
            entered: grouped([(RED_BULL, &[22]), (RACING_BULLS, &[30])]),
        }]
    );
}

#[test]
fn a_snapshot_is_grouped_against_the_previous_events_roster() {
    let mut facts = clean_facts();
    // Round 3's snapshot describes round 2, where car 22 was still a Racing
    // Bulls entry and car 30 a Red Bull one. Printing 22 under Red Bull
    // groups it with 30, which that roster does not.
    reprint(&mut facts, 3, SNAPSHOT_DOC, 22, RED_BULL_PRINTED);

    assert_eq!(
        sweep(&facts, &allowances(), &seats()),
        vec![Conflict::TeamGroupingMismatch {
            document_round: 3,
            roster_round: 2,
            printed: grouped([(RED_BULL_PRINTED, &[22, 30])]),
            entered: grouped([(RED_BULL, &[30]), (RACING_BULLS, &[22])]),
        }]
    );
}

#[test]
fn a_car_one_document_prints_under_two_teams_is_a_conflict() {
    // The 2025 Chinese GP snapshot in miniature: car 30 appears in two team
    // blocks, one with its own teammate and one with car 22, which the
    // roster enters for another team. No pair of names disagrees, so only the
    // grouping catches it.
    let facts = vec![
        snapshot(2, 1, RED_BULL_PRINTED, 0),
        snapshot(2, 30, RED_BULL_PRINTED, 0),
        fact(
            2,
            30,
            RACING_BULLS_PRINTED,
            TC,
            Claim::SnapshotCount(0),
            SNAPSHOT_DOC,
        ),
        snapshot(2, 22, RACING_BULLS_PRINTED, 0),
    ];

    assert_eq!(
        sweep(&facts, &allowances(), &seats()),
        vec![Conflict::TeamGroupingMismatch {
            document_round: 2,
            roster_round: 1,
            printed: grouped([
                (RED_BULL_PRINTED, &[1, 30]),
                (RACING_BULLS_PRINTED, &[22, 30]),
            ]),
            entered: grouped([(RED_BULL, &[1, 30]), (RACING_BULLS, &[22])]),
        }]
    );
}

#[test]
fn a_document_listing_part_of_the_grid_is_checked_over_the_cars_it_lists() {
    // Two of the grid's six cars, from two teams, under one string.
    let facts = vec![
        fitted_component(2, 30, RED_BULL_PRINTED, ICE, 1, Conformity::InConformity),
        fitted_component(2, 22, RED_BULL_PRINTED, ICE, 1, Conformity::InConformity),
    ];

    assert_eq!(
        sweep(&facts, &allowances(), &seats()),
        vec![Conflict::TeamGroupingMismatch {
            document_round: 2,
            roster_round: 2,
            printed: grouped([(RED_BULL_PRINTED, &[22, 30])]),
            entered: grouped([(RED_BULL, &[30]), (RACING_BULLS, &[22])]),
        }]
    );
}

#[test]
fn rows_with_no_printed_team_join_no_grouping() {
    // Cars 30 and 22 are the pair the roster splits, and 22 prints no team,
    // so the string left on 30 groups it with nothing. Car 16 prints none
    // either, from a third team: gathering the two unprinted rows under one
    // placeholder would merge teams the roster keeps apart.
    let facts = vec![
        fitted_component(2, 30, RED_BULL_PRINTED, ICE, 1, Conformity::InConformity),
        fitted_unprinted(2, 22),
        fitted_unprinted(2, 16),
    ];

    assert_eq!(sweep(&facts, &allowances(), &seats()), Vec::new());
}

#[test]
fn one_documents_component_rows_are_one_conflict() {
    // One new-elements document lists each car once per component, and
    // groups the two cars alike on every row.
    let facts = vec![
        fitted_component(2, 30, RED_BULL_PRINTED, ICE, 1, Conformity::InConformity),
        fitted_component(2, 30, RED_BULL_PRINTED, TC, 1, Conformity::InConformity),
        fitted_component(2, 22, RED_BULL_PRINTED, ICE, 1, Conformity::InConformity),
        fitted_component(2, 22, RED_BULL_PRINTED, TC, 1, Conformity::InConformity),
    ];

    assert_eq!(
        sweep(&facts, &allowances(), &seats()),
        vec![Conflict::TeamGroupingMismatch {
            document_round: 2,
            roster_round: 2,
            printed: grouped([(RED_BULL_PRINTED, &[22, 30])]),
            entered: grouped([(RED_BULL, &[30]), (RACING_BULLS, &[22])]),
        }]
    );
}

#[test]
fn two_documents_at_one_event_reading_different_rosters_are_two_conflicts() {
    let mut facts = clean_facts();
    // Car 30 is a Red Bull entry at rounds 1 and 2, so round 2's snapshot and
    // its new-elements document read different rosters that agree on the
    // team. Both print it in Ferrari's block, and each stays its own witness.
    reprint(&mut facts, 2, SNAPSHOT_DOC, 30, FERRARI_PRINTED);
    reprint(&mut facts, 2, NEW_ELEMENTS_DOC, 30, FERRARI_PRINTED);

    let misgrouped = |roster_round| Conflict::TeamGroupingMismatch {
        document_round: 2,
        roster_round,
        printed: grouped([(FERRARI_PRINTED, &[16, 30, 44])]),
        entered: grouped([(RED_BULL, &[30]), (FERRARI, &[16, 44])]),
    };

    assert_eq!(
        sweep(&facts, &allowances(), &seats()),
        vec![misgrouped(1), misgrouped(2)]
    );
}

#[test]
fn two_documents_at_the_seasons_first_event_are_two_conflicts() {
    let mut facts = clean_facts();
    // Round 1 has nothing before it, so its snapshot and its new-elements
    // document both read roster 1. Both print car 30 in Ferrari's block, and
    // each stays its own witness.
    reprint(&mut facts, 1, SNAPSHOT_DOC, 30, FERRARI_PRINTED);
    reprint(&mut facts, 1, NEW_ELEMENTS_DOC, 30, FERRARI_PRINTED);

    // The payload names the two rounds, not the document, so the two
    // witnesses read alike.
    let misgrouped = Conflict::TeamGroupingMismatch {
        document_round: 1,
        roster_round: 1,
        printed: grouped([(FERRARI_PRINTED, &[16, 30, 44])]),
        entered: grouped([(RED_BULL, &[30]), (FERRARI, &[16, 44])]),
    };

    assert_eq!(
        sweep(&facts, &allowances(), &seats()),
        vec![misgrouped.clone(), misgrouped]
    );
}

#[test]
fn one_document_number_at_two_events_misgrouping_two_cars_is_two_conflicts() {
    // Numbers restart each event, so both snapshots print number 1. Round
    // 2's snapshot describes round 1, so both read roster 1, and both group
    // cars 30 and 22 under one string. Only the round tells the two documents
    // apart.
    let facts = vec![
        snapshot(1, 30, RED_BULL_PRINTED, 0),
        snapshot(1, 22, RED_BULL_PRINTED, 0),
        snapshot(2, 30, RED_BULL_PRINTED, 0),
        snapshot(2, 22, RED_BULL_PRINTED, 0),
    ];

    let misgrouped = |document_round| Conflict::TeamGroupingMismatch {
        document_round,
        roster_round: 1,
        printed: grouped([(RED_BULL_PRINTED, &[22, 30])]),
        entered: grouped([(RED_BULL, &[30]), (RACING_BULLS, &[22])]),
    };

    assert_eq!(
        sweep(&facts, &allowances(), &seats()),
        vec![misgrouped(1), misgrouped(2)]
    );
}

#[test]
fn a_car_the_rosters_cannot_seat_joins_no_grouping() {
    // Car 77 shares a string with car 30, which the roster seats at Red Bull.
    // Seated anywhere else it would misgroup; unseated it reports once, as
    // unseated.
    let facts = vec![
        fitted_component(1, 30, RED_BULL_PRINTED, ICE, 1, Conformity::InConformity),
        fitted_component(1, 77, RED_BULL_PRINTED, ICE, 1, Conformity::InConformity),
    ];

    assert_eq!(
        sweep(&facts, &allowances(), &seats()),
        vec![Conflict::UnknownSeat {
            document_round: 1,
            roster_round: 1,
            car: 77,
        }]
    );
}

#[test]
fn a_diff_the_resolver_could_not_pair_is_a_conflict() {
    // Both Red Bull occupants change at round 2, so no pairing follows from
    // the diff.
    let unpairable = resolve_seats(&[
        roster(1, opening_grid()),
        roster(
            2,
            vec![
                entry(5, "Bortoleto", RED_BULL),
                entry(7, "Doohan", RED_BULL),
            ],
        ),
    ]);

    assert_eq!(
        sweep(&[], &allowances(), &unpairable),
        vec![Conflict::AmbiguousSeat(SeatAmbiguity {
            season: SEASON,
            round: 2,
            team: RED_BULL.into(),
            vacated: vec![0, 1],
            arriving: vec![5, 7],
        })]
    );
}

#[test]
fn a_fact_the_rosters_cannot_seat_is_a_conflict() {
    let mut facts = clean_facts();
    facts.push(snapshot(1, 77, ALPINE_PRINTED, 0));

    let conflicts = sweep(&facts, &allowances(), &seats());

    assert_eq!(
        conflicts,
        vec![Conflict::UnknownSeat {
            document_round: 1,
            roster_round: 1,
            car: 77,
        }]
    );
}

#[test]
fn one_documents_rows_for_an_unseated_car_are_one_conflict() {
    // One new-elements document lists car 77 once per component. No roster
    // enters it.
    let facts = vec![
        fitted_component(1, 77, ALPINE_PRINTED, ICE, 1, Conformity::InConformity),
        fitted_component(1, 77, ALPINE_PRINTED, TC, 1, Conformity::InConformity),
    ];

    assert_eq!(
        sweep(&facts, &allowances(), &seats()),
        vec![Conflict::UnknownSeat {
            document_round: 1,
            roster_round: 1,
            car: 77,
        }]
    );
}

#[test]
fn two_documents_naming_one_unseated_car_are_two_conflicts() {
    // Round 1's snapshot and its new-elements document both read roster 1,
    // and neither can seat car 77.
    let facts = vec![
        snapshot(1, 77, ALPINE_PRINTED, 0),
        fitted(1, 77, ALPINE_PRINTED, 1, Conformity::InConformity),
    ];

    let unseated = Conflict::UnknownSeat {
        document_round: 1,
        roster_round: 1,
        car: 77,
    };

    assert_eq!(
        sweep(&facts, &allowances(), &seats()),
        vec![unseated.clone(), unseated]
    );
}

#[test]
fn one_document_number_at_two_events_naming_an_unseated_car_is_two_conflicts() {
    // Numbers restart each event, so both snapshots print number 1. Round
    // 2's snapshot describes round 1, so both read roster 1, and neither can
    // seat car 77. Only the round tells the two documents apart.
    let facts = vec![
        snapshot(1, 77, ALPINE_PRINTED, 0),
        snapshot(2, 77, ALPINE_PRINTED, 0),
    ];

    assert_eq!(
        sweep(&facts, &allowances(), &seats()),
        vec![
            Conflict::UnknownSeat {
                document_round: 1,
                roster_round: 1,
                car: 77,
            },
            Conflict::UnknownSeat {
                document_round: 2,
                roster_round: 1,
                car: 77,
            },
        ]
    );
}

#[test]
fn a_window_opening_at_a_snapshots_own_event_strands_it() {
    // Rounds 3 and 4 only: the round 3 snapshot describes round 2, whose
    // roster the window does not hold.
    let short = resolve_seats(&[roster(3, swapped_grid()), roster(4, swapped_grid())]);

    let conflicts = sweep(
        &[snapshot(3, 22, RACING_BULLS_PRINTED, 1)],
        &allowances(),
        &short,
    );

    assert_eq!(
        conflicts,
        vec![Conflict::UnknownSeat {
            document_round: 3,
            roster_round: 2,
            car: 22,
        }]
    );
}

#[test]
fn a_wrong_fitted_count_breaks_the_next_snapshot() {
    let mut facts = clean_facts();
    for fact in matching(&mut facts, 2, 30) {
        if let Claim::ElementsFitted { count, .. } = &mut fact.claim {
            *count = 2;
        }
    }

    let conflicts = sweep(&facts, &allowances(), &seats());

    assert_eq!(
        conflicts,
        vec![Conflict::SnapshotDisagreement {
            seat: seat(RED_BULL, 1),
            component: ComponentCode::new(ICE),
            from_round: 2,
            to_round: 3,
            count_after: 3,
            next_snapshot: 2,
        }]
    );
}

#[test]
fn an_infringement_ordinal_that_disagrees_is_a_conflict() {
    let mut facts = clean_facts();
    for fact in matching(&mut facts, 3, 16) {
        if let Claim::StatedOrdinal(value) = &mut fact.claim {
            *value = 4;
        }
    }

    let conflicts = sweep(&facts, &allowances(), &seats());

    assert_eq!(
        conflicts,
        vec![Conflict::OrdinalMismatch {
            seat: seat(FERRARI, 0),
            component: ComponentCode::new(ICE),
            round: 3,
            stated_ordinal: 4,
            count_after: 5,
        }]
    );
}

#[test]
fn a_wrong_previously_used_figure_is_a_conflict() {
    let mut facts = clean_facts();
    for fact in matching(&mut facts, 2, 30) {
        if let Claim::PreviouslyUsed(count) = &mut fact.claim {
            *count = 9;
        }
    }

    let conflicts = sweep(&facts, &allowances(), &seats());

    assert_eq!(
        conflicts,
        vec![Conflict::PreviouslyUsedMismatch {
            seat: seat(RED_BULL, 1),
            component: ComponentCode::new(ICE),
            round: 2,
            previously_used: 9,
            snapshot: 1,
        }]
    );
}

#[test]
fn a_conformity_verdict_against_the_count_is_a_conflict() {
    let mut facts = clean_facts();
    // Red Bull's second seat reaches only 3 of 4 at round 3, yet claim it
    // out of conformity. The claim contradicts the count, but no penalty
    // follows, so the exceedance witness and the penalized set both clash.
    for fact in matching(&mut facts, 3, 22) {
        if let Claim::ElementsFitted { conformity, .. } = &mut fact.claim {
            *conformity = Conformity::NotInConformity;
        }
    }

    let conflicts = sweep(&facts, &allowances(), &seats());

    assert!(
        conflicts.contains(&Conflict::StatedExceedanceMismatch {
            seat: seat(RED_BULL, 1),
            component: ComponentCode::new(ICE),
            round: 3,
            stated_not_in_conformity: true,
            computed_exceeds: false,
        }),
        "{conflicts:?}"
    );
}

#[test]
fn a_penalty_without_a_not_in_conformity_flag_is_a_conflict() {
    let mut facts = clean_facts();
    // Drop the not-in-conformity flag from the element the infringement
    // still penalizes: the two sets no longer agree.
    for fact in matching(&mut facts, 3, 16) {
        if let Claim::ElementsFitted { conformity, .. } = &mut fact.claim {
            *conformity = Conformity::InConformity;
        }
    }

    let conflicts = sweep(&facts, &allowances(), &seats());

    assert!(
        conflicts.contains(&Conflict::PenalizedSetMismatch {
            round: 3,
            penalized: vec![(seat(FERRARI, 0), ComponentCode::new(ICE))],
            not_in_conformity: Vec::new(),
        }),
        "{conflicts:?}"
    );
}

#[test]
fn a_component_with_no_seeded_allowance_is_a_conflict() {
    let mut facts = clean_facts();
    facts.push(fact(
        1,
        16,
        FERRARI_PRINTED,
        "GEARBOX",
        Claim::SnapshotCount(1),
        SNAPSHOT_DOC,
    ));

    let conflicts = sweep(&facts, &allowances(), &seats());

    assert_eq!(
        conflicts,
        vec![Conflict::UnknownComponent {
            component: ComponentCode::new("GEARBOX"),
        }]
    );
}

#[test]
fn a_superseded_contradiction_raises_no_conflict() {
    let mut facts = clean_facts();
    facts.push(Fact {
        superseded: true,
        ..snapshot(3, 30, RED_BULL_PRINTED, 99)
    });

    assert_eq!(sweep(&facts, &allowances(), &seats()), Vec::new());
}

#[test]
fn the_same_contradiction_left_live_surfaces() {
    let mut facts = clean_facts();
    // The identical fact, unmarked, overwrites the good snapshot and blows
    // the equations, proving the superseded skip is not a vacuous pass.
    facts.push(snapshot(3, 30, RED_BULL_PRINTED, 99));

    assert!(!sweep(&facts, &allowances(), &seats()).is_empty());
}

#[test]
fn exceedance_flags_a_count_above_the_allowance() {
    assert_eq!(
        allowances().exceeds(&ComponentCode::new(ICE), 5),
        Some(true)
    );
}

#[test]
fn exceedance_clears_a_count_at_the_allowance() {
    assert_eq!(
        allowances().exceeds(&ComponentCode::new(ICE), 4),
        Some(false)
    );
}

#[test]
fn exceedance_clears_a_count_below_the_allowance() {
    assert_eq!(
        allowances().exceeds(&ComponentCode::new(ICE), 3),
        Some(false)
    );
}

#[test]
fn exceedance_is_unknown_for_an_unseeded_component() {
    assert_eq!(
        allowances().exceeds(&ComponentCode::new("GEARBOX"), 1),
        None
    );
}


#[test]
fn an_ordinal_at_an_event_with_no_snapshot_raises_nothing() {
    // No snapshot anchors round 2, so there is no count after it to hold
    // the ordinal or the conformity verdict against.
    let facts = vec![
        ordinal(2, 16, FERRARI_PRINTED, 9),
        fitted(2, 16, FERRARI_PRINTED, 1, InConformity),
    ];

    let conflicts = sweep(&facts, &allowances(), &seats());

    assert_eq!(conflicts, Vec::new());
}

#[test]
fn an_unseeded_component_named_by_two_cells_is_reported_once() {
    let facts = vec![
        fact(
            1,
            16,
            FERRARI_PRINTED,
            "GEARBOX",
            Claim::SnapshotCount(1),
            SNAPSHOT_DOC,
        ),
        fact(
            2,
            1,
            RED_BULL_PRINTED,
            "GEARBOX",
            Claim::SnapshotCount(2),
            SNAPSHOT_DOC,
        ),
    ];

    let conflicts = sweep(&facts, &allowances(), &seats());

    assert_eq!(
        conflicts,
        vec![Conflict::UnknownComponent {
            component: ComponentCode::new("GEARBOX"),
        }]
    );
}

#[test]
fn a_count_is_checked_against_the_next_event_present() {
    // Round 2 is absent from this element's timeline: round 1's count after
    // is compared with round 3's snapshot.
    let facts = vec![
        snapshot(1, 1, RED_BULL_PRINTED, 0),
        fitted(1, 1, RED_BULL_PRINTED, 1, InConformity),
        snapshot(3, 1, RED_BULL_PRINTED, 5),
    ];

    let conflicts = sweep(&facts, &allowances(), &seats());

    assert_eq!(
        conflicts,
        vec![Conflict::SnapshotDisagreement {
            seat: seat(RED_BULL, 0),
            component: ComponentCode::new(ICE),
            from_round: 1,
            to_round: 3,
            count_after: 1,
            next_snapshot: 5,
        }]
    );
}

#[test]
fn penalized_set_mismatches_come_in_event_order() {
    let facts = vec![
        penalty(4, 16, FERRARI_PRINTED),
        penalty(2, 1, RED_BULL_PRINTED),
    ];

    let conflicts = sweep(&facts, &allowances(), &seats());

    assert_eq!(
        conflicts,
        vec![
            Conflict::PenalizedSetMismatch {
                round: 2,
                penalized: vec![(seat(RED_BULL, 0), ComponentCode::new(ICE))],
                not_in_conformity: Vec::new(),
            },
            Conflict::PenalizedSetMismatch {
                round: 4,
                penalized: vec![(seat(FERRARI, 0), ComponentCode::new(ICE))],
                not_in_conformity: Vec::new(),
            },
        ]
    );
}
