//! Error types for the document readers.
//!
//! Every variant is a refusal, never a guess. A document that does not match
//! the shape a reader expects is reported and dropped, because a reading that
//! silently labels one column wrong produces a plausible table that no later
//! check can tell from a correct one.
use vstd::prelude::*;

use crate::fact::{Car, ComponentCode};

verus! {

/// A failure while turning a PDF into glyphs.
///
/// The engine's own error is flattened into a message, so this type names no
/// engine type.
#[derive(Debug, PartialEq, Eq)]
pub enum ExtractError {
    /// The underlying PDF engine failed to load the document or read a page.
    Engine(String),
}

/// A failure while slicing a page into bands.
#[derive(Debug, Clone, Copy, PartialEq, Eq, Structural)]
pub enum BandError {
    /// No row on the page prints like a table row.
    NoTableBand,
    /// The page prints its table rows in more than one block, so any one band
    /// holds part of the table.
    SplitTable {
        /// How many blocks the table rows fall in.
        blocks: usize,
    },
    /// The one block of table rows is too short to carry a table.
    ShortTableBand {
        /// How many rows the block holds.
        rows: usize,
    },
    /// The table band starts at the top of the page, so nothing above it can
    /// name its columns.
    NoLegendBand,
}

/// A failure while reading a snapshot's legend or labelling its columns.
///
/// The four header variants report a failed header search. `label_columns`
/// tries each header depth in turn and reports the depth that came closest,
/// so the refusal names the likely fault rather than the first depth tried.
#[derive(Debug, PartialEq, Eq)]
pub enum LabelError {
    /// The legend band held no entries at all.
    EmptyLegend,
    /// A legend cell carried a code with nothing beside it.
    LegendEntryWithoutDescription {
        /// The cell text, as printed.
        entry: String,
    },
    /// One code appeared twice in the legend, so its column is ambiguous.
    DuplicateLegendCode {
        /// The repeated code, as printed.
        code: String,
    },
    /// A correction would rename a code onto one the legend already declares,
    /// merging two components into one.
    CorrectionWouldMergeCodes {
        /// The code the legend prints and the correction renames.
        printed: String,
        /// The code the correction renames it to.
        meant: String,
    },
    /// No depth of header rows gave each legend code exactly one column.
    HeaderDoesNotMatchLegend {
        /// The codes that landed on no column, as printed.
        unmatched: Vec<String>,
    },
    /// Two columns spelled the same code, so neither one owns it.
    HeaderSpellsOneCodeTwice {
        /// The repeated code, as printed.
        code: String,
        /// The leftmost column spelling it.
        first: usize,
        /// The next column spelling it.
        second: usize,
    },
    /// A component column carried a header the legend never declared.
    HeaderColumnNotInLegend {
        /// The column, counting from the left of the table.
        column: usize,
        /// Its header text, joined down the column.
        header: String,
    },
    /// A column carried no header text, so nothing names it.
    HeaderColumnIsBlank {
        /// The column, counting from the left of the table.
        column: usize,
    },
}

/// What a [`LabelError`] says, as plain values.
pub enum LabelErrorV {
    EmptyLegend,
    LegendEntryWithoutDescription { entry: Seq<char> },
    DuplicateLegendCode { code: Seq<char> },
    CorrectionWouldMergeCodes { printed: Seq<char>, meant: Seq<char> },
    HeaderDoesNotMatchLegend { unmatched: Seq<Seq<char>> },
    HeaderSpellsOneCodeTwice { code: Seq<char>, first: int, second: int },
    HeaderColumnNotInLegend { column: int, header: Seq<char> },
    HeaderColumnIsBlank { column: int },
}

/// The characters of each string, in order.
pub open spec fn strings_view(v: Seq<String>) -> Seq<Seq<char>> {
    v.map_values(|s: String| s@)
}

impl View for LabelError {
    type V = LabelErrorV;

    open spec fn view(&self) -> LabelErrorV {
        match self {
            LabelError::EmptyLegend => LabelErrorV::EmptyLegend,
            LabelError::LegendEntryWithoutDescription { entry } => {
                LabelErrorV::LegendEntryWithoutDescription { entry: entry@ }
            },
            LabelError::DuplicateLegendCode { code } => LabelErrorV::DuplicateLegendCode {
                code: code@,
            },
            LabelError::CorrectionWouldMergeCodes { printed, meant } => {
                LabelErrorV::CorrectionWouldMergeCodes { printed: printed@, meant: meant@ }
            },
            LabelError::HeaderDoesNotMatchLegend { unmatched } => {
                LabelErrorV::HeaderDoesNotMatchLegend { unmatched: strings_view(unmatched@) }
            },
            LabelError::HeaderSpellsOneCodeTwice { code, first, second } => {
                LabelErrorV::HeaderSpellsOneCodeTwice {
                    code: code@,
                    first: *first as int,
                    second: *second as int,
                }
            },
            LabelError::HeaderColumnNotInLegend { column, header } => {
                LabelErrorV::HeaderColumnNotInLegend { column: *column as int, header: header@ }
            },
            LabelError::HeaderColumnIsBlank { column } => LabelErrorV::HeaderColumnIsBlank {
                column: *column as int,
            },
        }
    }
}

/// A failure while locating a PU document's identity columns.
#[derive(Debug, Clone, Copy, PartialEq, Eq, Structural)]
pub enum IdentityError {
    /// The table prints some number of columns left of its first component
    /// column other than the three every PU document carries.
    UnexpectedIdentityColumns {
        /// How many it prints.
        found: usize,
    },
}

/// A failure while parsing a PU snapshot document into count facts.
///
/// A snapshot is one of the three documents the invariant sweep cross-checks,
/// so a count it cannot read exactly is dropped rather than guessed at: a row
/// the sweep never sees raises nothing, while a row it sees wrong raises a
/// conflict somebody can act on.
#[derive(Debug, PartialEq, Eq)]
pub enum SnapshotError {
    /// No page of the document yielded a table band. Carries every page's
    /// refusal.
    NoTablePage {
        /// Each page, with the reason its band split refused.
        refusals: Vec<(usize, BandError)>,
    },
    /// More than one page yielded a table band, so which one states the counts
    /// is ambiguous.
    ManyTablePages {
        /// The pages that banded.
        pages: Vec<usize>,
    },
    /// No page states a document number.
    NoDocumentNumber,
    /// The header states more than one document number.
    AmbiguousDocumentNumber {
        /// The distinct numbers found, in the order the header prints them.
        numbers: Vec<u32>,
    },
    /// The legend, a correction, or the column mapping refused.
    Label(LabelError),
    /// The identity columns refused.
    Identity(IdentityError),
    /// The table band holds a header and no data row.
    NoDataRows {
        /// How deep the header runs.
        header_rows: usize,
    },
    /// A row printed something other than a number where the car number
    /// belongs.
    CarNotANumber {
        /// The row, counting from the top of the table band.
        row: usize,
        /// The cell text, as printed.
        text: String,
    },
    /// A row printed no team.
    MissingTeam {
        /// The row, counting from the top of the table band.
        row: usize,
        /// The car the row states.
        car: Car,
    },
    /// A row printed something other than a number under a component column.
    CountNotANumber {
        /// The row, counting from the top of the table band.
        row: usize,
        /// The car the row states.
        car: Car,
        /// The component whose column it is.
        component: ComponentCode,
        /// The cell text, as printed.
        text: String,
    },
}

/// What a [`SnapshotError`] says, as plain values.
pub enum SnapshotErrorV {
    NoTablePage { refusals: Seq<(usize, BandError)> },
    ManyTablePages { pages: Seq<usize> },
    NoDocumentNumber,
    AmbiguousDocumentNumber { numbers: Seq<u32> },
    Label(LabelErrorV),
    Identity(IdentityError),
    NoDataRows { header_rows: int },
    CarNotANumber { row: int, text: Seq<char> },
    MissingTeam { row: int, car: Car },
    CountNotANumber { row: int, car: Car, component: Seq<char>, text: Seq<char> },
}

impl View for SnapshotError {
    type V = SnapshotErrorV;

    open spec fn view(&self) -> SnapshotErrorV {
        match self {
            SnapshotError::NoTablePage { refusals } => SnapshotErrorV::NoTablePage {
                refusals: refusals@,
            },
            SnapshotError::ManyTablePages { pages } => SnapshotErrorV::ManyTablePages {
                pages: pages@,
            },
            SnapshotError::NoDocumentNumber => SnapshotErrorV::NoDocumentNumber,
            SnapshotError::AmbiguousDocumentNumber { numbers } => {
                SnapshotErrorV::AmbiguousDocumentNumber { numbers: numbers@ }
            },
            SnapshotError::Label(e) => SnapshotErrorV::Label(e@),
            SnapshotError::Identity(e) => SnapshotErrorV::Identity(*e),
            SnapshotError::NoDataRows { header_rows } => SnapshotErrorV::NoDataRows {
                header_rows: *header_rows as int,
            },
            SnapshotError::CarNotANumber { row, text } => SnapshotErrorV::CarNotANumber {
                row: *row as int,
                text: text@,
            },
            SnapshotError::MissingTeam { row, car } => SnapshotErrorV::MissingTeam {
                row: *row as int,
                car: *car,
            },
            SnapshotError::CountNotANumber { row, car, component, text } => {
                SnapshotErrorV::CountNotANumber {
                    row: *row as int,
                    car: *car,
                    component: component@,
                    text: text@,
                }
            },
        }
    }
}

} // verus!
