//! Reading a legend band from hand-built cells. No PDF: the rules read cell
//! text, and that is what a test can state outright.

use pu_tracker::{Grid, LabelError, LegendEntry, read_legend};

/// A grid of one cell per entry, laid out as the given rows of cells.
fn grid_of(rows: &[&[&str]]) -> Grid {
    let width = rows.first().map_or(0, |row| row.len());
    let cells = rows
        .iter()
        .map(|row| row.iter().map(|cell| (*cell).to_owned()).collect())
        .collect();
    Grid::new(width, cells)
}

#[test]
fn pairs_each_code_with_its_description() {
    let grid = grid_of(&[
        &[
            "ICE      Internal Combustion Engine",
            "TC     Turbo Charger",
        ],
        &["ES       Energy Store unit", ""],
    ]);

    let legend = read_legend(&grid).expect("the legend must read");

    let codes: Vec<&str> = legend
        .entries()
        .iter()
        .map(|entry| entry.code().as_str())
        .collect();
    assert_eq!(codes, ["ICE", "TC", "ES"]);
}

#[test]
fn keeps_the_description_beside_its_code() {
    let grid = grid_of(&[&["ICE      Internal Combustion Engine"]]);

    let legend = read_legend(&grid).expect("the legend must read");

    assert_eq!(
        legend.entry("ICE").map(LegendEntry::description),
        Some("Internal Combustion Engine")
    );
}

#[test]
fn keeps_a_separator_that_is_not_a_hyphen_verbatim() {
    // U+0002, the separator the 2026 documents really carry.
    let grid = grid_of(&[&["PU\u{2}CE   Power Unit Control Electronics unit"]]);

    let legend = read_legend(&grid).expect("the legend must read");

    assert_eq!(
        legend.entries()[0].code().as_str(),
        "PU\u{2}CE",
        "the code must survive unrewritten, or it stops matching its own header"
    );
}

#[test]
fn reads_rows_top_to_bottom_and_columns_left_to_right() {
    let grid = grid_of(&[&["A  first", "B  second"], &["C  third", "D  fourth"]]);

    let legend = read_legend(&grid).expect("the legend must read");

    let codes: Vec<&str> = legend
        .entries()
        .iter()
        .map(|entry| entry.code().as_str())
        .collect();
    assert_eq!(codes, ["A", "B", "C", "D"]);
}

#[test]
fn rejects_an_empty_legend() {
    let grid = grid_of(&[&["", ""]]);

    assert_eq!(read_legend(&grid), Err(LabelError::EmptyLegend));
}

#[test]
fn rejects_a_code_with_no_description() {
    let grid = grid_of(&[&["ICE"]]);

    assert_eq!(
        read_legend(&grid),
        Err(LabelError::LegendEntryWithoutDescription {
            entry: "ICE".to_owned()
        })
    );
}

#[test]
fn rejoins_a_code_the_column_boundaries_split_from_its_description() {
    let grid = grid_of(&[
        &[
            "ICE",
            "Internal Combustion Engine",
            "TC       Turbo Charger",
        ],
        &["ES", "Energy Store unit", ""],
    ]);

    let legend = read_legend(&grid).expect("the legend must read");

    let entries: Vec<(&str, &str)> = legend
        .entries()
        .iter()
        .map(|entry| (entry.code().as_str(), entry.description()))
        .collect();
    assert_eq!(
        entries,
        [
            ("ICE", "Internal Combustion Engine"),
            ("TC", "Turbo Charger"),
            ("ES", "Energy Store unit"),
        ]
    );
}

#[test]
fn refuses_to_rejoin_a_code_with_a_cell_that_carries_its_own() {
    let grid = grid_of(&[&["ICE", "TC       Turbo Charger"]]);

    assert_eq!(
        read_legend(&grid),
        Err(LabelError::LegendEntryWithoutDescription {
            entry: "ICE".to_owned()
        })
    );
}

#[test]
fn refuses_to_rejoin_a_code_beside_a_column_holding_an_entry_padded_by_one_space() {
    let grid = grid_of(&[
        &["ICE", "LONGCODE Motor Generator Unit Kinetic"],
        &["ES", "TC       Turbo Charger"],
    ]);

    assert_eq!(
        read_legend(&grid),
        Err(LabelError::LegendEntryWithoutDescription {
            entry: "ICE".to_owned()
        })
    );
}

#[test]
fn refuses_to_rejoin_two_bare_codes() {
    let grid = grid_of(&[&["ICE", "TC"]]);

    assert_eq!(
        read_legend(&grid),
        Err(LabelError::LegendEntryWithoutDescription {
            entry: "ICE".to_owned()
        })
    );
}

#[test]
fn rejects_a_repeated_code() {
    let grid = grid_of(&[&["ICE  Internal Combustion Engine"], &["ICE  again"]]);

    assert_eq!(
        read_legend(&grid),
        Err(LabelError::DuplicateLegendCode {
            code: "ICE".to_owned()
        })
    );
}

#[test]
fn trims_the_cell_before_reading_it() {
    let grid = grid_of(&[&["   ES  Energy Store unit   "]]);

    let legend = read_legend(&grid).expect("the legend must read");

    assert_eq!(legend.entries().len(), 1);
    assert_eq!(legend.entries()[0].code().as_str(), "ES");
    assert_eq!(legend.entries()[0].description(), "Energy Store unit");
}

#[test]
fn a_legend_of_no_rows_is_empty() {
    let grid = Grid::new(0, Vec::new());

    assert_eq!(read_legend(&grid), Err(LabelError::EmptyLegend));
}

#[test]
fn a_bare_code_in_the_last_column_has_nothing_to_rejoin() {
    let grid = grid_of(&[&["ICE  Internal Combustion Engine", "TC"]]);

    assert_eq!(
        read_legend(&grid),
        Err(LabelError::LegendEntryWithoutDescription {
            entry: "TC".to_owned()
        })
    );
}

#[test]
fn a_rejoined_code_with_a_blank_description_refuses() {
    // The column to the right holds descriptions, but not on this row.
    let grid = grid_of(&[&["ICE", "Internal Combustion Engine"], &["TC", ""]]);

    assert_eq!(
        read_legend(&grid),
        Err(LabelError::LegendEntryWithoutDescription {
            entry: "TC".to_owned()
        })
    );
}

#[test]
fn the_legend_found_by_code_is_the_only_one_it_declares() {
    let grid = grid_of(&[&["A  first", "B  second"]]);

    let legend = read_legend(&grid).expect("the legend must read");

    assert!(legend.entry("C").is_none());
    assert_eq!(legend.entry("B").map(LegendEntry::description), Some("second"));
}
