//! The library's laws, checked on concrete values.

use pu_tracker::{
    Allowances, BandError, Bands, Car, Claim, ComponentCode, Grid, Round, Roster, RosterEntry,
    Season, SnapshotError, parse_snapshot, resolve_seats,
};

const SEASON: Season = 2026;

fn entry(car: Car, team: &str) -> RosterEntry {
    RosterEntry {
        car,
        driver: format!("Driver {car}"),
        team: team.into(),
    }
}

fn roster(season: Season, round: Round, entries: Vec<RosterEntry>) -> Roster {
    Roster {
        season,
        round,
        entries,
    }
}

/// Three events: a swap between two teams at round 3, a substitute, and both
/// of a third team's occupants changing at round 2.
fn window() -> Vec<Roster> {
    vec![
        roster(
            SEASON,
            1,
            vec![
                entry(1, "Red Bull"),
                entry(30, "Red Bull"),
                entry(6, "Racing Bulls"),
                entry(22, "Racing Bulls"),
                entry(16, "Ferrari"),
                entry(44, "Ferrari"),
                entry(5, "Sauber"),
                entry(27, "Sauber"),
            ],
        ),
        roster(
            SEASON,
            2,
            vec![
                entry(1, "Red Bull"),
                entry(30, "Red Bull"),
                entry(6, "Racing Bulls"),
                entry(22, "Racing Bulls"),
                entry(16, "Ferrari"),
                entry(44, "Ferrari"),
                entry(50, "Sauber"),
                entry(51, "Sauber"),
            ],
        ),
        roster(
            SEASON,
            3,
            vec![
                entry(1, "Red Bull"),
                entry(22, "Red Bull"),
                entry(6, "Racing Bulls"),
                entry(30, "Racing Bulls"),
                entry(16, "Ferrari"),
                entry(43, "Ferrari"),
                entry(50, "Sauber"),
                entry(51, "Sauber"),
            ],
        ),
        roster(SEASON - 1, 1, vec![entry(1, "Red Bull"), entry(11, "Red Bull")]),
    ]
}

const CARS: [Car; 13] = [1, 30, 6, 22, 16, 44, 43, 5, 27, 50, 51, 11, 99];

#[test]
fn the_window_resolves_alike_in_any_order() {
    let forward = resolve_seats(&window());
    let mut reversed_window = window();
    reversed_window.reverse();
    let reversed = resolve_seats(&reversed_window);
    let mut doubled_window = window();
    doubled_window.extend(window());
    let doubled = resolve_seats(&doubled_window);

    for season in [SEASON - 1, SEASON] {
        for round in 1..=4 {
            for car in CARS {
                assert_eq!(forward.seat(season, round, car), reversed.seat(season, round, car));
                assert_eq!(forward.seat(season, round, car), doubled.seat(season, round, car));
            }
        }
    }
    assert_eq!(forward.ambiguities(), reversed.ambiguities());
    assert_eq!(forward.ambiguities(), doubled.ambiguities());
}

#[test]
fn permuted_rosters_resolve_to_equal_seats() {
    let forward = resolve_seats(&window());
    let mut rotated_window = window();
    rotated_window.rotate_left(2);
    let mut reversed_window = window();
    reversed_window.reverse();

    assert_eq!(resolve_seats(&rotated_window), forward);
    assert_eq!(resolve_seats(&reversed_window), forward);
}

#[test]
fn a_season_resolves_alike_without_the_other_seasons() {
    let all = resolve_seats(&window());
    let own: Vec<Roster> = window().into_iter().filter(|r| r.season == SEASON).collect();
    let alone = resolve_seats(&own);

    for round in 1..=4 {
        for car in CARS {
            assert_eq!(all.seat(SEASON, round, car), alone.seat(SEASON, round, car));
        }
    }
}

#[test]
fn no_two_cars_share_a_seat_at_one_event() {
    let seats = resolve_seats(&window());

    for round in 1..=3 {
        let taken: Vec<_> = CARS
            .iter()
            .filter_map(|car| seats.seat(SEASON, round, *car))
            .collect();
        for (i, a) in taken.iter().enumerate() {
            for b in &taken[i + 1..] {
                assert_ne!(a, b, "two cars share a seat at round {round}");
            }
        }
    }
}

#[test]
fn an_unpairable_team_is_flagged_once_and_seated_no_further() {
    let seats = resolve_seats(&window());

    let sauber: Vec<_> = seats
        .ambiguities()
        .iter()
        .filter(|amb| amb.team == "Sauber")
        .collect();
    assert_eq!(sauber.len(), 1);
    assert_eq!(sauber[0].round, 2);
    assert_eq!(seats.seat(SEASON, 3, 50), None);
    assert_eq!(seats.seat(SEASON, 1, 5).map(|seat| seat.slot), Some(0));
}

fn grid_of(rows: &[&[&str]]) -> Grid {
    let width = rows.first().map_or(0, |row| row.len());
    let cells = rows
        .iter()
        .map(|row| row.iter().map(|cell| (*cell).to_owned()).collect())
        .collect();
    Grid::new(width, cells)
}

fn document(rows: &[&[&str]]) -> (Vec<Result<Bands, BandError>>, Grid) {
    let legend = grid_of(&[&["ICE  Internal Combustion Engine", "TC  Turbo Charger"]]);
    let mut table: Vec<&[&str]> = vec![&["N", "Car", "Driver", "ICE", "TC"]];
    table.extend_from_slice(rows);
    (
        vec![Ok(Bands::new(legend, grid_of(&table)))],
        grid_of(&[&["Document 21"]]),
    )
}

#[test]
fn a_snapshot_yields_one_fact_per_row_per_component_in_printed_order() {
    let (pages, header) = document(&[
        &["7", "Falcon Racing", "Ana Ferreira", "2", "3"],
        &["8", "Falcon Racing", "Piet Janssen", "4", "5"],
        &["9", "Comet GP", "Rosa Iglesias", "6", "7"],
    ]);

    let facts = parse_snapshot(pages, Some(&header), SEASON, 5, None).expect("must parse");

    let read: Vec<(Car, &str, Claim, u32)> = facts
        .iter()
        .map(|f| (f.car, f.component.as_str(), f.claim.clone(), f.document))
        .collect();
    assert_eq!(
        read,
        [
            (7, "ICE", Claim::SnapshotCount(2), 21),
            (7, "TC", Claim::SnapshotCount(3), 21),
            (8, "ICE", Claim::SnapshotCount(4), 21),
            (8, "TC", Claim::SnapshotCount(5), 21),
            (9, "ICE", Claim::SnapshotCount(6), 21),
            (9, "TC", Claim::SnapshotCount(7), 21),
        ]
    );
}

#[test]
fn numbers_read_as_the_standard_parser_reads_them() {
    let (pages, header) = document(&[&["+7", "Falcon Racing", "Ana Ferreira", "007", "0"]]);
    let facts = parse_snapshot(pages, Some(&header), SEASON, 5, None).expect("must parse");
    assert_eq!(facts[0].car, 7);
    assert_eq!(facts[0].claim, Claim::SnapshotCount(7));
    assert_eq!(facts[1].claim, Claim::SnapshotCount(0));

    let (pages, header) = document(&[&["65536", "Falcon Racing", "Ana Ferreira", "1", "1"]]);
    assert_eq!(
        parse_snapshot(pages, Some(&header), SEASON, 5, None),
        Err(SnapshotError::CarNotANumber {
            row: 1,
            text: "65536".to_owned()
        })
    );

    let (pages, header) = document(&[&["-7", "Falcon Racing", "Ana Ferreira", "1", "1"]]);
    assert_eq!(
        parse_snapshot(pages, Some(&header), SEASON, 5, None),
        Err(SnapshotError::CarNotANumber {
            row: 1,
            text: "-7".to_owned()
        })
    );

    let (pages, header) = document(&[&["7", "Falcon Racing", "Ana Ferreira", "1", "4294967296"]]);
    assert!(matches!(
        parse_snapshot(pages, Some(&header), SEASON, 5, None),
        Err(SnapshotError::CountNotANumber { row: 1, car: 7, .. })
    ));

    let (pages, header) = document(&[&["7", "Falcon Racing", "Ana Ferreira", "+", "1"]]);
    assert!(matches!(
        parse_snapshot(pages, Some(&header), SEASON, 5, None),
        Err(SnapshotError::CountNotANumber { row: 1, car: 7, .. })
    ));
}

#[test]
fn the_first_row_that_refuses_is_the_one_reported() {
    let (pages, header) = document(&[
        &["7", "Falcon Racing", "Ana Ferreira", "x", "3"],
        &["TBC", "Falcon Racing", "Piet Janssen", "4", "5"],
    ]);

    assert_eq!(
        parse_snapshot(pages, Some(&header), SEASON, 5, None),
        Err(SnapshotError::CountNotANumber {
            row: 1,
            car: 7,
            component: pu_tracker::ComponentCode::new("ICE"),
            text: "x".to_owned()
        })
    );
}

#[test]
fn allowance_tables_giving_the_same_allowances_compare_equal() {
    let forward = Allowances::from_rows(vec![
        (ComponentCode::new("ICE"), 4),
        (ComponentCode::new("TC"), 4),
        (ComponentCode::new("ES"), 3),
    ]);
    let shuffled = Allowances::from_rows(vec![
        (ComponentCode::new("ES"), 3),
        (ComponentCode::new("ICE"), 9),
        (ComponentCode::new("TC"), 4),
        (ComponentCode::new("ICE"), 4),
    ]);

    assert_eq!(forward, shuffled);
    assert_eq!(shuffled.allowance(&ComponentCode::new("ICE")), Some(4));
    assert_ne!(
        forward,
        Allowances::from_rows(vec![(ComponentCode::new("ICE"), 4)])
    );
}
