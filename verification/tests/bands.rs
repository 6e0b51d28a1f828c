//! Picking the table band from the rows that print like a table row.

use pu_tracker::bands::blocks_of;
use pu_tracker::{BandError, table_band};

#[test]
fn finds_every_block_top_to_bottom() {
    assert_eq!(
        blocks_of(&[true, true, false, false, true, false, true]),
        [0..2, 4..5, 6..7]
    );
    assert!(blocks_of(&[]).is_empty());
    assert!(blocks_of(&[false, false]).is_empty());
}

#[test]
fn takes_the_one_block_of_table_rows() {
    assert_eq!(table_band(&[false, false, true, true, true]), Ok(2..5));
    assert_eq!(table_band(&[true, true]), Ok(0..2));
}

#[test]
fn refuses_a_page_with_no_table_row() {
    assert_eq!(table_band(&[]), Err(BandError::NoTableBand));
    assert_eq!(table_band(&[false, false]), Err(BandError::NoTableBand));
}

#[test]
fn refuses_table_rows_in_more_than_one_block() {
    assert_eq!(
        table_band(&[true, true, false, true, true, false, true, true]),
        Err(BandError::SplitTable { blocks: 3 })
    );
}

#[test]
fn refuses_a_block_too_short_for_a_header_and_a_data_row() {
    assert_eq!(
        table_band(&[false, true, false]),
        Err(BandError::ShortTableBand { rows: 1 })
    );
}
