//! The three identity columns a PU document prints, found by position.

use pu_tracker::{Grid, IdentityError, Legend, identity_columns, label_columns, read_legend};

/// Build a grid from row-major cell text.
fn grid_of(rows: &[Vec<String>]) -> Grid {
    let width = rows.first().map_or(0, Vec::len);
    Grid::new(width, rows.to_vec())
}

fn row(cells: &[&str]) -> Vec<String> {
    cells.iter().map(|cell| (*cell).to_owned()).collect()
}

/// A two-component legend, enough to label a table.
fn legend() -> Legend {
    read_legend(&grid_of(&[
        row(&["ICE  Internal Combustion Engine"]),
        row(&["TC  Turbo Charger"]),
    ]))
    .expect("the legend must read")
}

/// A table whose identity columns carry `headers`.
fn table_with(headers: &[&str]) -> Grid {
    let mut header: Vec<&str> = headers.to_vec();
    header.extend(["ICE", "TC"]);
    let mut data: Vec<&str> = vec!["7"; headers.len()];
    data.extend(["2", "3"]);
    grid_of(&[row(&header), row(&data)])
}

#[test]
fn names_the_three_identity_columns_left_to_right() {
    let labels = label_columns(&table_with(&["N°", "Car", "Driver"]), &legend())
        .expect("the columns must label");

    let identity = identity_columns(&labels).expect("the identity columns must resolve");

    assert_eq!(
        (identity.car(), identity.team(), identity.driver()),
        (0, 1, 2)
    );
}

#[test]
fn reads_the_same_columns_whatever_the_first_header_spells() {
    let snapshot = label_columns(&table_with(&["N°", "Car", "Driver"]), &legend())
        .expect("the columns must label");
    let new_elements = label_columns(&table_with(&["Number", "Car", "Driver"]), &legend())
        .expect("the columns must label");

    assert_eq!(
        identity_columns(&snapshot).expect("the snapshot must resolve"),
        identity_columns(&new_elements).expect("the new elements doc must resolve")
    );
}

#[test]
fn refuses_a_table_with_too_few_identity_columns() {
    let labels =
        label_columns(&table_with(&["N°", "Car"]), &legend()).expect("the columns must label");

    assert_eq!(
        identity_columns(&labels),
        Err(IdentityError::UnexpectedIdentityColumns { found: 2 })
    );
}

#[test]
fn refuses_a_table_with_too_many_identity_columns() {
    let labels = label_columns(&table_with(&["N°", "Car", "Driver", "Engine"]), &legend())
        .expect("the columns must label");

    assert_eq!(
        identity_columns(&labels),
        Err(IdentityError::UnexpectedIdentityColumns { found: 4 })
    );
}

#[test]
fn refuses_a_table_that_opens_with_a_component() {
    let labels = label_columns(&table_with(&[]), &legend()).expect("the columns must label");

    assert_eq!(
        identity_columns(&labels),
        Err(IdentityError::UnexpectedIdentityColumns { found: 0 })
    );
}
