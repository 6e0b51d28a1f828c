//! Parsing a snapshot document from its banded pages and its clustered header
//! page. No PDF: each page is given as the grids the band split and the
//! clustering produce from it, which is what the parser reads.

use pu_tracker::snapshot::{document_number, line_of, numbers_in, table_page};
use pu_tracker::{
    BandError, Bands, Claim, ComponentCode, Fact, Grid, IdentityError, LabelError, Season,
    SnapshotError, for_season, parse_snapshot,
};

const SEASON: Season = 2026;

fn grid_of(rows: &[&[&str]]) -> Grid {
    let width = rows.first().map_or(0, |row| row.len());
    let cells = rows
        .iter()
        .map(|row| row.iter().map(|cell| (*cell).to_owned()).collect())
        .collect();
    Grid::new(width, cells)
}

/// A cover page clustered whole: a header block stating `Document`, and the
/// time it was published.
fn cover(number: &str) -> Grid {
    grid_of(&[
        &["From", "The Synthetic Technical Delegate", "Document", number],
        &["", "", "Time", "08:58"],
    ])
}

/// What a cover page's band split says: its one narrow line is no table.
fn cover_bands() -> Result<Bands, BandError> {
    Err(BandError::ShortTableBand { rows: 1 })
}

/// The legend band of a table page: each code padded out to its description.
fn legend_band() -> Grid {
    grid_of(&[
        &[
            "ICE      Internal Combustion Engine",
            "TC       Turbo Charger",
        ],
        &[
            "ES       Energy Store unit",
            "PU-CE    Power Unit Control Electronics",
        ],
    ])
}

/// A table page's bands: the legend, then the table with one row per driver.
fn table_page_bands(rows: &[(&str, &str, [&str; 4])]) -> Bands {
    let mut cells: Vec<Vec<String>> = vec![
        ["N", "Car", "Driver", "ICE", "TC", "ES", "PU-CE"]
            .iter()
            .map(|cell| (*cell).to_owned())
            .collect(),
    ];
    for (car, team, counts) in rows {
        let mut row: Vec<String> = vec![(*car).to_owned(), (*team).to_owned(), "Ana Ferreira".to_owned()];
        row.extend(counts.iter().map(|count| (*count).to_owned()));
        cells.push(row);
    }
    Bands::new(legend_band(), Grid::new(7, cells))
}

/// Two drivers of one team, with a count under each of the four components.
fn two_rows() -> Bands {
    table_page_bands(&[
        ("7", "Falcon Racing", ["2", "2", "1", "3"]),
        ("8", "Falcon Racing", ["2", "3", "2", "4"]),
    ])
}

/// A table page whose header wraps: `MGU` above `-K`.
fn wrapped_header_bands(data: &[&[&str]]) -> Bands {
    let legend = grid_of(&[
        &[
            "ICE      Internal Combustion Engine",
            "MGU-K    Motor Generator Unit Kinetic",
        ],
        &["ES       Energy Store unit", ""],
    ]);
    let mut rows: Vec<&[&str]> = vec![
        &["", "", "", "", "MGU", ""],
        &["N", "Car", "Driver", "ICE", "", "ES"],
        &["", "", "", "", "-K", ""],
    ];
    rows.extend_from_slice(data);
    Bands::new(legend, grid_of(&rows))
}

fn parse(pages: Vec<Result<Bands, BandError>>, header: Option<Grid>) -> Result<Vec<Fact>, SnapshotError> {
    parse_snapshot(pages, header.as_ref(), SEASON, 9, None)
}

fn parsed(pages: Vec<Result<Bands, BandError>>, header: Option<Grid>) -> Vec<Fact> {
    parse(pages, header).expect("the document must parse")
}

/// The whole document: a cover, then the table page.
fn document() -> (Vec<Result<Bands, BandError>>, Option<Grid>) {
    (vec![cover_bands(), Ok(two_rows())], Some(cover("9")))
}

fn counts(facts: &[Fact]) -> Vec<(u16, &str, u32)> {
    facts
        .iter()
        .filter_map(|fact| match fact.claim {
            Claim::SnapshotCount(count) => Some((fact.car, fact.component.as_str(), count)),
            _ => None,
        })
        .collect()
}

#[test]
fn reads_every_count_off_the_table() {
    let (pages, header) = document();
    let facts = parsed(pages, header);

    assert_eq!(
        counts(&facts),
        [
            (7, "ICE", 2),
            (7, "TC", 2),
            (7, "ES", 1),
            (7, "PU-CE", 3),
            (8, "ICE", 2),
            (8, "TC", 3),
            (8, "ES", 2),
            (8, "PU-CE", 4),
        ]
    );
}

#[test]
fn every_fact_claims_a_snapshot_count() {
    let (pages, header) = document();
    let facts = parsed(pages, header);

    assert!(
        facts
            .iter()
            .all(|fact| matches!(fact.claim, Claim::SnapshotCount(_))),
        "a snapshot states running totals and nothing else"
    );
}

#[test]
fn carries_forward_the_count_of_a_driver_who_fitted_nothing() {
    let pages = vec![
        cover_bands(),
        Ok(table_page_bands(&[
            ("7", "Falcon Racing", ["2", "2", "1", "3"]),
            ("8", "Falcon Racing", ["2", "2", "1", "3"]),
        ])),
    ];

    let facts = parsed(pages, Some(cover("9")));

    assert_eq!(
        counts(&facts),
        [
            (7, "ICE", 2),
            (7, "TC", 2),
            (7, "ES", 1),
            (7, "PU-CE", 3),
            (8, "ICE", 2),
            (8, "TC", 2),
            (8, "ES", 1),
            (8, "PU-CE", 3),
        ]
    );
}

#[test]
fn tags_every_fact_with_the_document_number_the_cover_states() {
    let (pages, header) = document();
    let facts = parsed(pages, header);

    assert!(facts.iter().all(|fact| fact.document == 9));
}

#[test]
fn takes_the_document_number_from_a_header_that_pads_it() {
    let facts = parsed(vec![cover_bands(), Ok(two_rows())], Some(cover("14")));

    assert!(facts.iter().all(|fact| fact.document == 14));
}

#[test]
fn records_the_team_each_row_prints() {
    let (pages, header) = document();
    let facts = parsed(pages, header);

    assert!(
        facts
            .iter()
            .all(|fact| fact.printed_team.as_deref() == Some("Falcon Racing")),
        "every row of this table prints one team"
    );
}

#[test]
fn keeps_a_team_string_exactly_as_printed() {
    let pages = vec![
        cover_bands(),
        Ok(table_page_bands(&[("7", "Fálcon Racing", ["2", "2", "1", "3"])])),
    ];

    let facts = parsed(pages, Some(cover("9")));

    assert_eq!(facts[0].printed_team.as_deref(), Some("Fálcon Racing"));
}

#[test]
fn emits_a_car_the_document_prints_twice_twice() {
    let pages = vec![
        cover_bands(),
        Ok(table_page_bands(&[
            ("7", "Falcon Racing", ["2", "2", "1", "3"]),
            ("7", "Comet GP", ["3", "3", "2", "4"]),
        ])),
    ];

    let facts = parsed(pages, Some(cover("9")));

    let teams: Vec<Option<&str>> = facts
        .iter()
        .filter(|fact| fact.component == ComponentCode::new("ICE"))
        .map(|fact| fact.printed_team.as_deref())
        .collect();
    assert_eq!(teams, [Some("Falcon Racing"), Some("Comet GP")]);
}

#[test]
fn labels_the_columns_from_the_legend_not_the_header_line() {
    let bands = wrapped_header_bands(&[&["7", "Falcon Racing", "Ana Ferreira", "2", "5", "1"]]);

    let facts = parsed(vec![cover_bands(), Ok(bands)], Some(cover("9")));

    assert_eq!(
        counts(&facts),
        [(7, "ICE", 2), (7, "MGU-K", 5), (7, "ES", 1)],
        "the 5 belongs to MGU-K; a header-line reader gives it to ES"
    );
}

#[test]
fn reads_the_table_page_and_skips_the_cover() {
    let (pages, header) = document();
    let facts = parsed(pages, header);

    assert_eq!(counts(&facts).len(), 8);
}

#[test]
fn finds_the_table_page_wherever_it_sits() {
    let pages = vec![cover_bands(), Err(BandError::NoTableBand), Ok(two_rows())];

    let facts = parsed(pages, Some(cover("9")));

    assert_eq!(counts(&facts).len(), 8);
}

#[test]
fn refuses_a_document_whose_table_page_is_cut_to_one_row() {
    let pages = vec![cover_bands(), Err(BandError::ShortTableBand { rows: 1 })];

    assert_eq!(
        parse(pages, Some(cover("9"))),
        Err(SnapshotError::NoTablePage {
            refusals: vec![
                (0, BandError::ShortTableBand { rows: 1 }),
                (1, BandError::ShortTableBand { rows: 1 }),
            ]
        })
    );
}

#[test]
fn reports_a_split_table_in_the_refusal_it_returns() {
    let pages = vec![cover_bands(), Err(BandError::SplitTable { blocks: 2 })];

    let refusal = parse(pages, Some(cover("9")));

    assert!(
        matches!(
            refusal,
            Err(SnapshotError::NoTablePage { ref refusals })
                if refusals.contains(&(1, BandError::SplitTable { blocks: 2 }))
        ),
        "the split table must survive into the refusal: {refusal:?}"
    );
}

#[test]
fn refuses_a_document_whose_pages_both_carry_a_table() {
    let pages = vec![Ok(two_rows()), Ok(two_rows())];

    assert_eq!(
        parse(pages, Some(cover("9"))),
        Err(SnapshotError::ManyTablePages { pages: vec![0, 1] })
    );
}

#[test]
fn refuses_a_document_that_states_no_number() {
    // A document whose one page is the table page: its header page holds no
    // label at all.
    let page = grid_of(&[&["N", "Car", "Driver", "ICE"], &["7", "Falcon Racing", "Ana Ferreira", "2"]]);

    assert_eq!(
        parse(vec![Ok(two_rows())], Some(page)),
        Err(SnapshotError::NoDocumentNumber)
    );
}

#[test]
fn refuses_a_header_that_states_two_numbers() {
    let header = grid_of(&[
        &["From", "The Synthetic Technical Delegate", "Document", "12"],
        &["", "", "Document", "14"],
        &["", "", "Time", "08:58"],
    ]);

    assert_eq!(
        parse(vec![cover_bands(), Ok(two_rows())], Some(header)),
        Err(SnapshotError::AmbiguousDocumentNumber {
            numbers: vec![12, 14]
        })
    );
}

#[test]
fn ignores_a_number_stated_off_the_header_page() {
    // The footer's number prints on the table page, which the number search
    // never reads: only the header page is handed over.
    let facts = parsed(vec![cover_bands(), Ok(two_rows())], Some(cover("9")));

    assert!(facts.iter().all(|fact| fact.document == 9));
    assert_eq!(numbers_in("Supersedes Document 3"), [3]);
}

#[test]
fn passes_over_prose_that_merely_uses_the_word() {
    let header = grid_of(&[
        &["From", "The Synthetic Technical Delegate", "Document", "9"],
        &["", "", "Time", "08:58"],
        &["this document supersedes the previous one", "", "", ""],
    ]);

    let facts = parsed(vec![cover_bands(), Ok(two_rows())], Some(header));

    assert!(facts.iter().all(|fact| fact.document == 9));
}

#[test]
fn passes_over_a_word_that_merely_ends_in_the_label() {
    let header = grid_of(&[
        &["From", "The Synthetic Technical Delegate", "Document", "9"],
        &["", "", "Time", "08:58"],
        &["documents 5 and 6 are superseded", "", "", ""],
    ]);

    let facts = parsed(vec![cover_bands(), Ok(two_rows())], Some(header));

    assert!(facts.iter().all(|fact| fact.document == 9));
}

#[test]
fn takes_a_number_the_header_welds_to_its_label() {
    let header = grid_of(&[
        &["From", "The Synthetic Technical Delegate", "Document7"],
        &["", "", "Time 08:58"],
    ]);

    let facts = parsed(vec![cover_bands(), Ok(two_rows())], Some(header));

    assert!(facts.iter().all(|fact| fact.document == 7));
}

#[test]
fn takes_a_label_the_header_welds_to_the_text_on_its_left() {
    let header = grid_of(&[
        &["From", "The Synthetic DelegateDocument 5"],
        &["Time", "08:58"],
    ]);

    let facts = parsed(vec![cover_bands(), Ok(two_rows())], Some(header));

    assert!(facts.iter().all(|fact| fact.document == 5));
}

#[test]
fn refuses_a_row_that_prints_no_car_number() {
    let pages = vec![
        cover_bands(),
        Ok(table_page_bands(&[("TBC", "Falcon Racing", ["2", "2", "1", "3"])])),
    ];

    assert_eq!(
        parse(pages, Some(cover("9"))),
        Err(SnapshotError::CarNotANumber {
            row: 1,
            text: "TBC".to_owned()
        })
    );
}

#[test]
fn refuses_a_row_that_prints_no_team() {
    let pages = vec![
        cover_bands(),
        Ok(table_page_bands(&[("7", "", ["2", "2", "1", "3"])])),
    ];

    assert_eq!(
        parse(pages, Some(cover("9"))),
        Err(SnapshotError::MissingTeam { row: 1, car: 7 })
    );
}

#[test]
fn refuses_a_table_band_that_is_all_header() {
    assert_eq!(
        parse(vec![cover_bands(), Ok(wrapped_header_bands(&[]))], Some(cover("9"))),
        Err(SnapshotError::NoDataRows { header_rows: 3 })
    );
}

#[test]
fn refuses_a_row_whose_count_is_not_a_number() {
    let pages = vec![
        cover_bands(),
        Ok(table_page_bands(&[("7", "Falcon Racing", ["2", "-", "1", "3"])])),
    ];

    assert_eq!(
        parse(pages, Some(cover("9"))),
        Err(SnapshotError::CountNotANumber {
            row: 1,
            car: 7,
            component: ComponentCode::new("TC"),
            text: "-".to_owned()
        })
    );
}

#[test]
fn refuses_a_table_whose_identity_columns_are_not_the_three() {
    let legend = grid_of(&[
        &["ICE      Internal Combustion Engine"],
        &["TC       Turbo Charger"],
    ]);
    let table = grid_of(&[&["N", "Car", "ICE", "TC"], &["7", "Falcon Racing", "2", "3"]]);

    assert_eq!(
        parse(vec![cover_bands(), Ok(Bands::new(legend, table))], Some(cover("9"))),
        Err(SnapshotError::Identity(
            IdentityError::UnexpectedIdentityColumns { found: 2 }
        ))
    );
}

#[test]
fn tags_every_fact_with_the_round_the_caller_passes() {
    let (pages, header) = document();
    let facts = parse_snapshot(pages, header.as_ref(), SEASON, 4, None).expect("must parse");

    assert!(facts.iter().all(|fact| fact.round == 4));
}

#[test]
fn leaves_every_fact_live() {
    let (pages, header) = document();
    let facts = parsed(pages, header);

    assert!(facts.iter().all(|fact| !fact.superseded));
}

#[test]
fn refuses_a_document_with_no_pages() {
    assert_eq!(
        parse(Vec::new(), None),
        Err(SnapshotError::NoTablePage { refusals: vec![] })
    );
}

#[test]
fn tags_every_fact_with_the_season_the_caller_passes() {
    let (pages, header) = document();
    let facts = parsed(pages, header);

    assert!(facts.iter().all(|fact| fact.season == SEASON));
}

#[test]
fn a_season_correction_lets_the_stale_legend_label_its_table() {
    let pages = || {
        let legend = grid_of(&[
            &["ICE      Internal Combustion Engine"],
            &["EX       EXHaust set"],
        ]);
        let table = grid_of(&[
            &["N", "Car", "Driver", "ICE", "EXH"],
            &["7", "Falcon Racing", "Ana Ferreira", "2", "3"],
        ]);
        vec![cover_bands(), Ok(Bands::new(legend, table))]
    };
    let header = cover("9");

    let refused = parse_snapshot(pages(), Some(&header), SEASON, 9, None);
    assert_eq!(
        refused,
        Err(SnapshotError::Label(LabelError::HeaderDoesNotMatchLegend {
            unmatched: vec!["EX".to_owned()]
        }))
    );

    let correction = for_season(SEASON).expect("2026 carries a correction");
    let facts = parse_snapshot(pages(), Some(&header), SEASON, 9, Some(&correction))
        .expect("the corrected document must parse");
    assert_eq!(counts(&facts), [(7, "ICE", 2), (7, "EXH", 3)]);
}

#[test]
fn reads_a_number_in_either_case_with_or_without_a_space() {
    assert_eq!(numbers_in("Document 9"), [9]);
    assert_eq!(numbers_in("DOCUMENT  14"), [14]);
    assert_eq!(numbers_in("Document7"), [7]);
    assert_eq!(numbers_in("DelegateDocument 5"), [5]);
    assert_eq!(numbers_in("document 12 and document 14"), [12, 14]);
}

#[test]
fn reads_no_number_where_the_label_is_not_followed_by_digits() {
    assert!(numbers_in("this document supersedes the previous one").is_empty());
    assert!(numbers_in("documents 5 and 6 are superseded").is_empty());
    assert!(numbers_in("Document +5").is_empty());
    assert!(numbers_in("Document").is_empty());
    assert!(numbers_in("").is_empty());
}

#[test]
fn reads_no_number_too_large_for_the_key() {
    assert!(numbers_in("Document 4294967296").is_empty());
    assert_eq!(numbers_in("Document 4294967295"), [4_294_967_295]);
}

#[test]
fn joins_a_row_with_single_spaces() {
    let page = grid_of(&[&["From", "", "Document", "9"]]);

    assert_eq!(line_of(&page, 0), "From  Document 9");
    assert_eq!(line_of(&page, 1), "   ");
}

#[test]
fn counts_one_number_stated_twice_once() {
    let header = grid_of(&[&["Document 9"], &["Document 9"]]);

    assert_eq!(document_number(Some(&header)), Ok(9));
    assert_eq!(document_number(None), Err(SnapshotError::NoDocumentNumber));
}

#[test]
fn picks_the_one_page_that_bands() {
    assert_eq!(
        table_page(vec![cover_bands(), Ok(two_rows())]),
        Ok(two_rows())
    );
}
