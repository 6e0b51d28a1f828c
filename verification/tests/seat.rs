//! Seat resolution, driven by hand-built rosters. A swap and a substitution
//! each transfer one seat; both occupants changing at once is flagged and never
//! guessed.

use pu_tracker::{Car, Round, Roster, RosterEntry, Seat, SeatAmbiguity, Season, Slot, resolve_seats};

const SEASON: Season = 2026;
const RED_BULL: &str = "Red Bull";
const RACING_BULLS: &str = "Racing Bulls";
const FERRARI: &str = "Ferrari";

fn entry(car: Car, driver: &str, team: &str) -> RosterEntry {
    RosterEntry {
        car,
        driver: driver.to_owned(),
        team: team.into(),
    }
}

fn roster(round: Round, entries: Vec<RosterEntry>) -> Roster {
    Roster {
        season: SEASON,
        round,
        entries,
    }
}

fn seat(team: &str, slot: Slot) -> Seat {
    Seat {
        season: SEASON,
        team: team.into(),
        slot,
    }
}

/// The grid the season opens with: three teams, two cars each.
fn opening_grid() -> Vec<RosterEntry> {
    vec![
        entry(1, "Verstappen", RED_BULL),
        entry(30, "Lawson", RED_BULL),
        entry(6, "Hadjar", RACING_BULLS),
        entry(22, "Tsunoda", RACING_BULLS),
        entry(16, "Leclerc", FERRARI),
        entry(44, "Hamilton", FERRARI),
    ]
}

/// A 2026 window over three events.
///
/// Rounds 1 and 2 run the opening grid. At round 3 Red Bull and Racing Bulls
/// swap cars 30 and 22, and Ferrari substitutes car 43 for car 44. Every
/// other entry holds.
fn window() -> Vec<Roster> {
    vec![
        roster(1, opening_grid()),
        roster(2, opening_grid()),
        roster(
            3,
            vec![
                entry(1, "Verstappen", RED_BULL),
                entry(22, "Tsunoda", RED_BULL),
                entry(6, "Hadjar", RACING_BULLS),
                entry(30, "Lawson", RACING_BULLS),
                entry(16, "Leclerc", FERRARI),
                entry(43, "Colapinto", FERRARI),
            ],
        ),
    ]
}

/// Both of Red Bull's occupants change at round 2.
fn double_change() -> Vec<Roster> {
    vec![
        roster(
            1,
            vec![
                entry(1, "Verstappen", RED_BULL),
                entry(30, "Lawson", RED_BULL),
            ],
        ),
        roster(
            2,
            vec![entry(22, "Tsunoda", RED_BULL), entry(6, "Hadjar", RED_BULL)],
        ),
        roster(
            3,
            vec![entry(22, "Tsunoda", RED_BULL), entry(6, "Hadjar", RED_BULL)],
        ),
    ]
}

#[test]
fn a_teams_first_event_seats_its_lowest_car_number_in_the_first_slot() {
    assert_eq!(
        resolve_seats(&window()).seat(SEASON, 1, 1),
        Some(&seat(RED_BULL, 0))
    );
}

#[test]
fn a_teams_first_event_seats_its_higher_car_number_in_the_next_slot() {
    assert_eq!(
        resolve_seats(&window()).seat(SEASON, 1, 30),
        Some(&seat(RED_BULL, 1))
    );
}

#[test]
fn teams_slot_their_cars_independently() {
    assert_eq!(
        resolve_seats(&window()).seat(SEASON, 1, 6),
        Some(&seat(RACING_BULLS, 0))
    );
}

#[test]
fn a_swap_seats_the_arriving_car_where_the_departing_car_sat() {
    let seats = resolve_seats(&window());
    let vacated = Some(&seat(RED_BULL, 1));

    assert_eq!(
        (seats.seat(SEASON, 2, 30), seats.seat(SEASON, 3, 22)),
        (vacated, vacated)
    );
}

#[test]
fn the_car_moving_the_other_way_inherits_the_seat_it_arrives_in() {
    assert_eq!(
        resolve_seats(&window()).seat(SEASON, 3, 30),
        Some(&seat(RACING_BULLS, 1))
    );
}

#[test]
fn a_substitute_from_outside_the_grid_inherits_the_seat_it_fills() {
    let seats = resolve_seats(&window());
    let vacated = Some(&seat(FERRARI, 1));

    assert_eq!(
        (seats.seat(SEASON, 2, 44), seats.seat(SEASON, 3, 43)),
        (vacated, vacated)
    );
}

#[test]
fn a_car_that_never_changes_team_keeps_its_seat() {
    let seats = resolve_seats(&window());
    let held = Some(&seat(FERRARI, 0));

    assert_eq!(
        (seats.seat(SEASON, 1, 16), seats.seat(SEASON, 3, 16)),
        (held, held)
    );
}

#[test]
fn a_regular_returning_from_a_substitution_returns_to_its_seat() {
    let seats = resolve_seats(&[
        roster(
            1,
            vec![
                entry(16, "Leclerc", FERRARI),
                entry(44, "Hamilton", FERRARI),
            ],
        ),
        roster(
            2,
            vec![
                entry(16, "Leclerc", FERRARI),
                entry(43, "Colapinto", FERRARI),
            ],
        ),
        roster(
            3,
            vec![
                entry(16, "Leclerc", FERRARI),
                entry(44, "Hamilton", FERRARI),
            ],
        ),
    ]);

    assert_eq!(seats.seat(SEASON, 3, 44), Some(&seat(FERRARI, 1)));
}

#[test]
fn a_window_of_resolvable_diffs_flags_nothing() {
    assert_eq!(resolve_seats(&window()).ambiguities(), &[]);
}

#[test]
fn both_occupants_changing_at_once_is_flagged() {
    assert_eq!(
        resolve_seats(&double_change()).ambiguities(),
        &[SeatAmbiguity {
            season: SEASON,
            round: 2,
            team: RED_BULL.into(),
            vacated: vec![0, 1],
            arriving: vec![6, 22],
        }]
    );
}

#[test]
fn an_unpairable_diff_seats_neither_arriving_car() {
    assert_eq!(resolve_seats(&double_change()).seat(SEASON, 2, 22), None);
}

#[test]
fn an_unpairable_diff_stops_the_team_at_every_later_event() {
    assert_eq!(resolve_seats(&double_change()).seat(SEASON, 3, 22), None);
}

#[test]
fn a_stopped_team_is_flagged_once() {
    assert_eq!(resolve_seats(&double_change()).ambiguities().len(), 1);
}

#[test]
fn a_car_the_window_never_enters_has_no_seat() {
    assert_eq!(resolve_seats(&window()).seat(SEASON, 1, 77), None);
}

#[test]
fn seasons_resolve_independently() {
    let seats = resolve_seats(&[
        roster(1, vec![entry(1, "Verstappen", RED_BULL)]),
        Roster {
            season: SEASON + 1,
            round: 1,
            entries: vec![entry(30, "Lawson", RED_BULL)],
        },
    ]);

    assert_eq!(
        seats.seat(SEASON + 1, 1, 30),
        Some(&Seat {
            season: SEASON + 1,
            team: RED_BULL.into(),
            slot: 0,
        })
    );
}

#[test]
fn a_car_repeated_within_an_event_keeps_its_first_entry() {
    let seats = resolve_seats(&[roster(
        1,
        vec![
            entry(1, "Verstappen", RED_BULL),
            entry(1, "Verstappen", RACING_BULLS),
        ],
    )]);

    assert_eq!(seats.seat(SEASON, 1, 1), Some(&seat(RED_BULL, 0)));
}

