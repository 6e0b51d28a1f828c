//! The correction, driven through the seam it exists to unblock: a legend read
//! from cells, corrected, then labelled against a header. No PDF.

use pu_tracker::corrections::known;
use pu_tracker::{
    ColumnLabels, ComponentCode, Correction, Grid, LabelError, Legend, LegendEntry, Season,
    for_season, label_columns, read_legend,
};

/// The season the one recorded entry names.
const MONACO_SEASON: Season = 2026;

/// A grid of one cell per entry, laid out as the given rows of cells.
fn grid_of(rows: &[&[&str]]) -> Grid {
    let width = rows.first().map_or(0, |row| row.len());
    let cells = rows
        .iter()
        .map(|row| row.iter().map(|cell| (*cell).to_owned()).collect())
        .collect();
    Grid::new(width, cells)
}

/// A 2026 legend spelling the exhaust code `exhaust`. Monaco prints `EX`
/// there; every other 2026 document prints `EXH`.
fn legend_of(exhaust: &str) -> Legend {
    read_legend(&grid_of(&[
        &["ICE  Internal Combustion Engine"],
        &[&format!("{exhaust}  EXHaust set")],
        &["ES  Energy Store unit"],
    ]))
    .expect("the legend must read")
}

/// The table the Monaco document really prints: a header spelling `EXH` over
/// the column its legend calls `EX`.
fn table() -> Grid {
    grid_of(&[&["Car", "ICE", "EXH", "ES"], &["7", "2", "3", "1"]])
}

fn monaco() -> Correction {
    for_season(MONACO_SEASON).expect("2026 must carry a correction")
}

/// Every column's code, left to right, `None` where the header names no
/// component.
fn codes(labels: &ColumnLabels) -> Vec<Option<&str>> {
    (0..4)
        .map(|column| labels.code_at(column).map(ComponentCode::as_str))
        .collect()
}

#[test]
fn labels_the_stale_column_by_the_code_its_header_spells() {
    let mut legend = legend_of("EX");

    monaco().apply(&mut legend).expect("the rename must apply");
    let labels = label_columns(&table(), &legend).expect("the columns must label");

    assert_eq!(codes(&labels), [None, Some("ICE"), Some("EXH"), Some("ES")]);
}

#[test]
fn refuses_the_same_table_when_the_correction_does_not_run() {
    let legend = legend_of("EX");

    assert_eq!(
        label_columns(&table(), &legend),
        Err(LabelError::HeaderDoesNotMatchLegend {
            unmatched: vec!["EX".to_owned()]
        })
    );
}

#[test]
fn keeps_the_description_the_legend_prints_beside_the_stale_code() {
    let mut legend = legend_of("EX");

    monaco().apply(&mut legend).expect("the rename must apply");

    assert_eq!(
        legend.entry("EXH").map(LegendEntry::description),
        Some("EXHaust set")
    );
}

#[test]
fn stands_down_on_a_legend_that_prints_the_code_it_means() {
    let correct = legend_of("EXH");
    let mut corrected = correct.clone();

    monaco()
        .apply(&mut corrected)
        .expect("the rename must apply");

    assert_eq!(corrected, correct);
}

#[test]
fn stands_down_on_a_legend_that_prints_neither_code() {
    let plain = read_legend(&grid_of(&[&["ICE  Internal Combustion Engine"]]))
        .expect("the legend must read");
    let mut corrected = plain.clone();

    monaco()
        .apply(&mut corrected)
        .expect("the rename must apply");

    assert_eq!(corrected, plain);
}

#[test]
fn refuses_a_legend_that_declares_both_codes() {
    let mut both = read_legend(&grid_of(&[
        &["EX   Engine EXhaust system"],
        &["EXH  EXHaust set"],
    ]))
    .expect("the legend must read");

    assert_eq!(
        monaco().apply(&mut both),
        Err(LabelError::CorrectionWouldMergeCodes {
            printed: "EX".to_owned(),
            meant: "EXH".to_owned()
        })
    );
}

#[test]
fn renames_nothing_but_the_code() {
    let mut legend = legend_of("EX");

    monaco().apply(&mut legend).expect("the rename must apply");

    let declared: Vec<&str> = legend
        .entries()
        .iter()
        .map(|entry| entry.code().as_str())
        .collect();
    assert_eq!(declared, ["ICE", "EXH", "ES"]);
}

#[test]
fn resolves_the_correction_for_the_season_that_names_it() {
    assert!(for_season(MONACO_SEASON).is_some());
}

#[test]
fn resolves_nothing_for_the_season_that_prints_the_stale_code_as_a_live_one() {
    assert_eq!(for_season(2025), None);
}

#[test]
fn resolves_nothing_for_a_season_no_entry_names() {
    assert_eq!(for_season(2027), None);
}

#[test]
fn every_entry_names_a_distinct_season() {
    let mut seasons: Vec<Season> = known().iter().map(|entry| entry.season()).collect();
    seasons.sort_unstable();
    let count = seasons.len();
    seasons.dedup();

    assert_eq!(seasons.len(), count, "two entries name one season");
}

#[test]
fn every_rename_changes_the_code() {
    for entry in known() {
        for rename in entry.renames() {
            assert_ne!(
                rename.printed(),
                rename.meant(),
                "season {} renames a code to itself",
                entry.season()
            );
        }
    }
}

#[test]
fn the_monaco_correction_renames_ex_to_exh() {
    let correction = monaco();

    assert_eq!(correction.season(), 2026);
    let renames: Vec<(&str, &str)> = correction
        .renames()
        .iter()
        .map(|rename| (rename.printed(), rename.meant()))
        .collect();
    assert_eq!(renames, [("EX", "EXH")]);
}

#[test]
fn a_rename_moves_the_code_in_place() {
    let mut legend = read_legend(&grid_of(&[&["A  first", "B  second"]]))
        .expect("the legend must read");

    legend.rename("A", "Z").expect("the rename must apply");

    let declared: Vec<(&str, &str)> = legend
        .entries()
        .iter()
        .map(|entry| (entry.code().as_str(), entry.description()))
        .collect();
    assert_eq!(declared, [("Z", "first"), ("B", "second")]);
}

#[test]
fn a_rename_onto_itself_refuses_as_a_merge() {
    let mut legend = read_legend(&grid_of(&[&["A  first"]])).expect("the legend must read");
    let before = legend.clone();

    assert_eq!(
        legend.rename("A", "A"),
        Err(LabelError::CorrectionWouldMergeCodes {
            printed: "A".to_owned(),
            meant: "A".to_owned()
        })
    );
    assert_eq!(legend, before);
}
