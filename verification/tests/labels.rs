//! Labelling a snapshot table's columns from its legend, through a header that
//! wraps over several baselines.

use pu_tracker::{ColumnLabels, ComponentCode, Grid, LabelError, Legend, label_columns, read_legend};

/// Build a grid from row-major cell text.
fn grid_of(rows: &[Vec<String>]) -> Grid {
    let width = rows.first().map_or(0, Vec::len);
    Grid::new(width, rows.to_vec())
}

fn row(cells: &[&str]) -> Vec<String> {
    cells.iter().map(|cell| (*cell).to_owned()).collect()
}

/// The 2026 legend as printed, with `sep` between the halves of the two-part
/// codes.
fn legend_rows(sep: char) -> Vec<Vec<String>> {
    vec![
        row(&["ICE  Internal Combustion Engine", "TC  Turbo Charger"]),
        row(&["EXH  EXhaust set", "MGU-K  Motor Generator Unit Kinetic"]),
        row(&[
            "ES  Energy Store unit",
            &format!("PU{sep}CE  Power Unit Control Electronics unit"),
        ]),
        row(&[&format!("PU{sep}ANC  Power Unit ANCillary component"), ""]),
    ]
}

fn legend_with(sep: char) -> Legend {
    read_legend(&grid_of(&legend_rows(sep))).expect("the legend must read")
}

/// A 2026 table: three identity columns, seven component columns, and a header
/// wrapped over three baselines exactly as the documents print it.
fn wrapped_header_table(sep: char) -> Grid {
    let pu = format!("PU{sep}");
    grid_of(&[
        row(&["", "", "", "", "", "", "MGU", "", &pu, &pu]),
        row(&["N", "Car", "Driver", "ICE", "TC", "EXH", "", "ES", "", ""]),
        row(&["", "", "", "", "", "", "-K", "", "CE", "ANC"]),
        row(&[
            "7",
            "Falcon Racing",
            "Ana Ferreira",
            "2",
            "2",
            "2",
            "1",
            "2",
            "2",
            "3",
        ]),
    ])
}

fn codes(labels: &ColumnLabels, width: usize) -> Vec<Option<&str>> {
    (0..width)
        .map(|column| labels.code_at(column).map(ComponentCode::as_str))
        .collect()
}

#[test]
fn labels_every_component_column_through_a_wrapped_header() {
    let legend = legend_with('-');
    let table = wrapped_header_table('-');

    let labels = label_columns(&table, &legend).expect("the columns must label");

    assert_eq!(
        codes(&labels, 10),
        [
            None,
            None,
            None,
            Some("ICE"),
            Some("TC"),
            Some("EXH"),
            Some("MGU-K"),
            Some("ES"),
            Some("PU-CE"),
            Some("PU-ANC"),
        ]
    );
}

#[test]
fn puts_mgu_k_on_the_column_a_wrapped_header_would_give_to_es() {
    let legend = legend_with('-');
    let table = wrapped_header_table('-');

    let labels = label_columns(&table, &legend).expect("the columns must label");

    assert_eq!(labels.code_at(6).map(ComponentCode::as_str), Some("MGU-K"));
}

#[test]
fn labels_a_code_separated_by_u0002() {
    let legend = legend_with('\u{2}');
    let table = wrapped_header_table('\u{2}');

    let labels = label_columns(&table, &legend).expect("the columns must label");

    assert_eq!(
        labels.code_at(8).map(ComponentCode::as_str),
        Some("PU\u{2}CE")
    );
}

#[test]
fn finds_the_column_of_a_code_separated_by_u0002() {
    let legend = legend_with('\u{2}');
    let table = wrapped_header_table('\u{2}');

    let labels = label_columns(&table, &legend).expect("the columns must label");

    assert_eq!(labels.column_of("PU\u{2}ANC"), Some(9));
}

#[test]
fn reports_the_header_depth_it_found() {
    let legend = legend_with('-');
    let table = wrapped_header_table('-');

    let labels = label_columns(&table, &legend).expect("the columns must label");

    assert_eq!(labels.header_rows(), 3);
}

#[test]
fn counts_the_header_row_that_labels_only_the_identity_columns() {
    let legend = legend_with('-');
    let table = grid_of(&[
        row(&[
            "", "", "", "ICE", "TC", "EXH", "MGU-K", "ES", "PU-CE", "PU-ANC",
        ]),
        row(&["N", "Car", "Driver", "", "", "", "", "", "", ""]),
        row(&[
            "7",
            "Falcon Racing",
            "Ana Ferreira",
            "2",
            "2",
            "2",
            "1",
            "2",
            "2",
            "3",
        ]),
    ]);

    let labels = label_columns(&table, &legend).expect("the columns must label");

    assert_eq!(labels.header_rows(), 2);
}

#[test]
fn labels_a_header_that_does_not_wrap() {
    let grid = grid_of(&[row(&["A  first", "B  second"])]);
    let legend = read_legend(&grid).expect("the legend must read");
    let table = grid_of(&[row(&["Car", "A", "B"]), row(&["7", "1", "2"])]);

    let labels = label_columns(&table, &legend).expect("the columns must label");

    assert_eq!(labels.header_rows(), 1);
}

#[test]
fn refuses_a_table_missing_a_legend_code() {
    let legend = legend_with('-');
    let table = grid_of(&[
        row(&["", "", "", "", "", "", "MGU", "", "PU-"]),
        row(&["N", "Car", "Driver", "ICE", "TC", "EXH", "", "ES", ""]),
        row(&["", "", "", "", "", "", "-K", "", "CE"]),
    ]);

    assert_eq!(
        label_columns(&table, &legend),
        Err(LabelError::HeaderDoesNotMatchLegend {
            unmatched: vec!["PU-ANC".to_owned()]
        })
    );
}

#[test]
fn refuses_a_table_that_spells_one_code_in_two_columns() {
    let grid = grid_of(&[row(&["A  first", "B  second"])]);
    let legend = read_legend(&grid).expect("the legend must read");
    let table = grid_of(&[row(&["A", "A", "B"]), row(&["1", "2", "3"])]);

    assert_eq!(
        label_columns(&table, &legend),
        Err(LabelError::HeaderSpellsOneCodeTwice {
            code: "A".to_owned(),
            first: 0,
            second: 1
        })
    );
}

#[test]
fn refuses_a_legend_shorter_than_the_table() {
    let rows = legend_rows('-');
    let clipped = read_legend(&grid_of(&rows[..rows.len() - 1])).expect("the legend must read");
    let table = wrapped_header_table('-');

    assert_eq!(
        label_columns(&table, &clipped),
        Err(LabelError::HeaderColumnNotInLegend {
            column: 9,
            header: "PU-ANC".to_owned()
        })
    );
}

#[test]
fn refuses_a_table_with_an_unheaded_column() {
    let grid = grid_of(&[row(&["A  first", "B  second"])]);
    let legend = read_legend(&grid).expect("the legend must read");
    let table = grid_of(&[row(&["", "A", "B"]), row(&["7", "1", "2"])]);

    assert_eq!(
        label_columns(&table, &legend),
        Err(LabelError::HeaderColumnIsBlank { column: 0 })
    );
}

#[test]
fn names_a_blank_column_right_of_the_first_code_blank_rather_than_unknown() {
    let grid = grid_of(&[row(&["A  first", "B  second"])]);
    let legend = read_legend(&grid).expect("the legend must read");
    let table = grid_of(&[row(&["Car", "A", "", "B"]), row(&["7", "1", "3", "2"])]);

    assert_eq!(
        label_columns(&table, &legend),
        Err(LabelError::HeaderColumnIsBlank { column: 2 })
    );
}

#[test]
fn refuses_an_empty_table() {
    let legend = legend_with('-');

    assert_eq!(
        label_columns(&grid_of(&[]), &legend),
        Err(LabelError::HeaderDoesNotMatchLegend {
            unmatched: vec![
                "ICE".to_owned(),
                "TC".to_owned(),
                "EXH".to_owned(),
                "MGU-K".to_owned(),
                "ES".to_owned(),
                "PU-CE".to_owned(),
                "PU-ANC".to_owned(),
            ]
        })
    );
}

#[test]
fn keeps_the_closest_rejection_rather_than_the_first() {
    // Depth 1 misses both codes; depth 2 spells `A` twice, which is closer;
    // depth 3 pulls a count into every label and misses both codes again.
    let grid = grid_of(&[row(&["AB  first", "C  second"])]);
    let legend = read_legend(&grid).expect("the legend must read");
    let table = grid_of(&[
        row(&["A", "A", "X"]),
        row(&["B", "B", "Y"]),
        row(&["1", "2", "3"]),
    ]);

    assert_eq!(
        label_columns(&table, &legend),
        Err(LabelError::HeaderSpellsOneCodeTwice {
            code: "AB".to_owned(),
            first: 0,
            second: 1
        })
    );
}

#[test]
fn lists_the_labelled_columns_left_to_right() {
    let grid = grid_of(&[row(&["A  first", "B  second"])]);
    let legend = read_legend(&grid).expect("the legend must read");
    let table = grid_of(&[row(&["Car", "B", "A"]), row(&["7", "1", "2"])]);

    let labels = label_columns(&table, &legend).expect("the columns must label");

    let pairs: Vec<(usize, &str)> = labels
        .components()
        .iter()
        .map(|(column, code)| (*column, code.as_str()))
        .collect();
    assert_eq!(pairs, [(1, "B"), (2, "A")]);
    assert_eq!(labels.column_of("C"), None);
}
