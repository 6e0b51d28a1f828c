//! Parsing a `PU elements used per driver up to now` document into count facts.
//!
//! The snapshot is the running total per driver, published before each event.
//! It is one of the three documents the invariant sweep cross-checks, so its
//! parse must be exact: a count read wrong here contradicts the other two and
//! surfaces, but a row never read at all raises nothing.
//!
//! A snapshot is a document, not a page. The table prints on one page; the
//! document number prints in the first page's header block and nowhere else.
//! The table page is found by banding every page, because which page carries
//! the table is a property of the page. The number is read from the first page
//! alone, because which page carries the header is a property of the document.
//!
//! Two pages that both band is refused rather than resolved by taking the
//! first: picking one of two plausible tables is the failure this parser
//! exists to prevent.
use vstd::prelude::*;
use vstd::string::*;

use crate::bands::Bands;
use crate::corrections::{apply_spec, Correction};
use crate::error::{BandError, IdentityError, LabelErrorV, SnapshotError, SnapshotErrorV};
use crate::fact::{Car, Claim, Fact, Round, Season};
use crate::grid::{cell_of, Grid};
use crate::identity::{identity_columns, identity_count, IDENTITY_COLUMNS};
use crate::labels::{label_columns, label_spec, labelled_view, LabelledV};
use crate::legend::{read_legend, read_legend_spec, EntryV};
use crate::text::{digits_value, first_ink_from, is_digit, parse_decimal, parse_spec, trim, trimmed};

verus! {

/// The label a document's header prints before its number, in lower case.
pub open spec fn label() -> Seq<char> {
    seq!['d', 'o', 'c', 'u', 'm', 'e', 'n', 't']
}

/// Whether `c` is the letter `lower`, in either case.
pub open spec fn same_letter(c: char, lower: char) -> bool {
    c == lower || (c as u32) + 32 == lower as u32
}

/// Whether `w` spells the label, ignoring case.
pub open spec fn spells_label(w: Seq<char>) -> bool {
    w.len() == label().len() && forall|k: int| 0 <= k < w.len() ==> same_letter(#[trigger] w[k], label()[k])
}

/// Whether the label starts at `p`.
pub open spec fn label_at(s: Seq<char>, p: int) -> bool {
    0 <= p && p + label().len() <= s.len() && spells_label(s.subrange(p, p + label().len()))
}

/// Index one past the run of digits that starts at `from`.
pub open spec fn digits_end(s: Seq<char>, from: int) -> int
    decreases s.len() - from,
{
    if from >= s.len() || from < 0 {
        from
    } else if is_digit(s[from]) {
        digits_end(s, from + 1)
    } else {
        from
    }
}

/// The number stated after the label that starts at `p`: optional whitespace,
/// then one or more digits, worth no more than `u32::MAX`.
pub open spec fn number_after(s: Seq<char>, p: int) -> Option<u32> {
    let a = first_ink_from(s, p + label().len());
    let b = digits_end(s, a);
    if a < b && digits_value(s.subrange(a, b)) <= u32::MAX {
        Some(digits_value(s.subrange(a, b)) as u32)
    } else {
        None
    }
}

/// The document numbers stated by labels starting before `n`, left to right.
pub open spec fn numbers_upto(s: Seq<char>, n: int) -> Seq<u32>
    decreases n,
{
    if n <= 0 {
        Seq::empty()
    } else {
        let prev = numbers_upto(s, n - 1);
        if label_at(s, n - 1) && number_after(s, n - 1) is Some {
            prev.push(number_after(s, n - 1)->0)
        } else {
            prev
        }
    }
}

/// Every document number a line states, left to right.
pub open spec fn numbers_spec(s: Seq<char>) -> Seq<u32> {
    numbers_upto(s, s.len() as int)
}

proof fn lemma_digits_end_bounds(s: Seq<char>, from: int)
    requires
        0 <= from <= s.len(),
    ensures
        from <= digits_end(s, from) <= s.len(),
        forall|k: int| from <= k < digits_end(s, from) ==> is_digit(#[trigger] s[k]),
        digits_end(s, from) < s.len() ==> !is_digit(s[digits_end(s, from)]),
    decreases s.len() - from,
{
    if from < s.len() && is_digit(s[from]) {
        lemma_digits_end_bounds(s, from + 1);
    }
}

/// Whether the label starts at `p` of `line`.
fn label_starts_at(line: &str, p: usize) -> (r: bool)
    requires
        p + 8 <= line@.len(),
    ensures
        r == label_at(line@, p as int),
{
    let n = line.unicode_len();
    let label_text = "document";
    proof {
        reveal_strlit("document");
        assert(label_text@ =~= label());
    }
    let mut k: usize = 0;
    while k < 8
        invariant
            k <= 8,
            n == line@.len(),
            p + 8 <= line@.len(),
            label_text@ == label(),
            forall|j: int| 0 <= j < k ==> same_letter(#[trigger] line@[p + j], label()[j]),
        decreases 8 - k,
    {
        let c = line.get_char(p + k);
        let e = label_text.get_char(k);
        if !(c == e || (c as u32) + 32 == (e as u32)) {
            proof {
                let w = line@.subrange(p as int, p + 8);
                assert(w[k as int] == c);
                assert(!spells_label(w));
            }
            return false;
        }
        k = k + 1;
    }
    proof {
        let w = line@.subrange(p as int, p + 8);
        assert forall|j: int| 0 <= j < w.len() implies same_letter(#[trigger] w[j], label()[j]) by {
            assert(w[j] == line@[p + j]);
        }
    }
    true
}

/// The number stated after the label that starts at `p` of `line`.
fn number_after_label(line: &str, p: usize) -> (r: Option<u32>)
    requires
        p + 8 <= line@.len(),
    ensures
        r == number_after(line@, p as int),
{
    let n = line.unicode_len();
    let mut a: usize = p + 8;
    while a < n && crate::text::char_is_space(line.get_char(a))
        invariant
            n == line@.len(),
            p + 8 <= a <= n,
            first_ink_from(line@, a as int) == first_ink_from(line@, p + 8),
        decreases n - a,
    {
        a = a + 1;
    }
    let mut b: usize = a;
    while b < n && ('0' <= line.get_char(b) && line.get_char(b) <= '9')
        invariant
            n == line@.len(),
            a <= b <= n,
            digits_end(line@, b as int) == digits_end(line@, a as int),
            forall|k: int| a <= k < b ==> is_digit(#[trigger] line@[k]),
        decreases n - b,
    {
        b = b + 1;
    }
    proof {
        lemma_digits_end_bounds(line@, a as int);
    }
    if a == b {
        return None;
    }
    let digits = line.substring_char(a, b);
    proof {
        assert(digits@.len() > 0);
        assert(digits@[0] != '+');
        assert(digits@ =~= line@.subrange(a as int, b as int));
        assert forall|k: int| 0 <= k < digits@.len() implies is_digit(#[trigger] digits@[k]) by {
            assert(digits@[k] == line@[a + k]);
        }
    }
    parse_decimal(digits, 0xffff_ffff)
}

/// Every document number a line states, left to right.
///
/// What follows the label is the whole rule: optional whitespace, then
/// digits. A line that puts anything else there states no number, so
/// `documented`, `documents 5`, and prose that merely uses the word yield
/// nothing. Nothing is asked of what precedes the label, because headers weld
/// it to the text on its left; nor must whitespace separate it from the
/// number, because headers weld that too. The label matches in either case.
pub fn numbers_in(line: &str) -> (r: Vec<u32>)
    ensures
        r@ == numbers_spec(line@),
{
    let n = line.unicode_len();
    let mut found: Vec<u32> = Vec::new();
    let mut p: usize = 0;
    while p < n
        invariant
            n == line@.len(),
            p <= n,
            found@ == numbers_upto(line@, p as int),
        decreases n - p,
    {
        if n - p >= 8 && label_starts_at(line, p) {
            match number_after_label(line, p) {
                Some(number) => {
                    found.push(number);
                },
                None => {},
            }
        }
        p = p + 1;
    }
    found
}

/// A grid row's cells joined left to right with a space, which is the line the
/// page prints.
pub open spec fn line_spec(rows: Seq<Seq<Seq<char>>>, row: int, n: int) -> Seq<char>
    decreases n,
{
    if n <= 0 {
        Seq::empty()
    } else if n == 1 {
        cell_of(rows, row, 0)
    } else {
        line_spec(rows, row, n - 1) + seq![' '] + cell_of(rows, row, n - 1)
    }
}

/// A grid row's cells joined left to right, which is the line the page prints.
///
/// Joining with a space keeps two cells apart wherever the clustering split
/// them, so a label in one column and its value in the next still read as two
/// tokens.
pub fn line_of(page: &Grid, row: usize) -> (r: String)
    ensures
        r@ == line_spec(page@, row as int, page.width() as int),
{
    let width = page.column_count();
    let mut line = String::new();
    let mut column: usize = 0;
    while column < width
        invariant
            width == page.width(),
            column <= width,
            line@ == line_spec(page@, row as int, column as int),
        decreases width - column,
    {
        if column > 0 {
            let space = " ";
            proof {
                reveal_strlit(" ");
            }
            line.append(space);
        }
        line.append(page.cell(row, column));
        proof {
            if column == 0 {
                assert(line@ =~= line_spec(page@, row as int, 1));
            } else {
                assert(line@ =~= line_spec(page@, row as int, column + 1));
            }
        }
        column = column + 1;
    }
    line
}

/// Every number the first `n` lines of a page state, in reading order.
pub open spec fn page_numbers(rows: Seq<Seq<Seq<char>>>, width: int, n: int) -> Seq<u32>
    decreases n,
{
    if n <= 0 {
        Seq::empty()
    } else {
        page_numbers(rows, width, n - 1) + numbers_spec(line_spec(rows, n - 1, width))
    }
}

/// `s` with every repeat after the first dropped.
pub open spec fn distinct_in_order(s: Seq<u32>) -> Seq<u32>
    decreases s.len(),
{
    if s.len() == 0 {
        Seq::empty()
    } else {
        let d = distinct_in_order(s.drop_last());
        if d.contains(s.last()) {
            d
        } else {
            d.push(s.last())
        }
    }
}

/// The document number the header page states: exactly one distinct number.
pub open spec fn document_number_spec(header: Option<&Grid>) -> Result<u32, SnapshotErrorV> {
    match header {
        None => Err(SnapshotErrorV::NoDocumentNumber),
        Some(page) => {
            let found = distinct_in_order(page_numbers(page@, page.width() as int, page@.len() as int));
            if found.len() == 0 {
                Err(SnapshotErrorV::NoDocumentNumber)
            } else if found.len() == 1 {
                Ok(found[0])
            } else {
                Err(SnapshotErrorV::AmbiguousDocumentNumber { numbers: found })
            }
        },
    }
}

/// Whether `v` holds `x`.
fn holds(v: &Vec<u32>, x: u32) -> (r: bool)
    ensures
        r == v@.contains(x),
{
    let mut i: usize = 0;
    while i < v.len()
        invariant
            i <= v@.len(),
            forall|j: int| 0 <= j < i ==> v@[j] != x,
        decreases v@.len() - i,
    {
        if v[i] == x {
            return true;
        }
        i = i + 1;
    }
    false
}

/// The document number the header states, read from the document's first page
/// alone, which `header` is, clustered; `None` when the document has no page.
///
/// A line stating the label without a number after it is passed over, since
/// prose may use the word. Two distinct numbers refuse: the number is the key
/// reconciliation supersedes an original by, so guessing which one is meant
/// would silently pick which document wins.
pub fn document_number(header: Option<&Grid>) -> (r: Result<u32, SnapshotError>)
    ensures
        match r {
            Ok(number) => document_number_spec(header) == Ok::<u32, SnapshotErrorV>(number),
            Err(e) => document_number_spec(header) == Err::<u32, SnapshotErrorV>(e@),
        },
{
    let page = match header {
        None => return Err(SnapshotError::NoDocumentNumber),
        Some(page) => page,
    };
    let rows = page.row_count();
    let ghost width = page.width() as int;
    let mut found: Vec<u32> = Vec::new();
    let ghost mut seen: Seq<u32> = Seq::empty();
    let mut row: usize = 0;
    while row < rows
        invariant
            rows == page@.len(),
            width == page.width(),
            row <= rows,
            seen == page_numbers(page@, width, row as int),
            found@ == distinct_in_order(seen),
        decreases rows - row,
    {
        let line = line_of(page, row);
        let numbers = numbers_in(line.as_str());
        let mut k: usize = 0;
        while k < numbers.len()
            invariant
                k <= numbers@.len(),
                numbers@ == numbers_spec(line_spec(page@, row as int, width)),
                seen == page_numbers(page@, width, row as int) + numbers@.take(k as int),
                found@ == distinct_in_order(seen),
            decreases numbers@.len() - k,
        {
            let number = numbers[k];
            let ghost before = seen;
            proof {
                seen = seen.push(number);
                assert(seen.drop_last() =~= before);
                assert(numbers@.take(k + 1) =~= numbers@.take(k as int).push(number));
            }
            if !holds(&found, number) {
                found.push(number);
            }
            k = k + 1;
        }
        assert(numbers@.take(k as int) =~= numbers@);
        row = row + 1;
    }
    if found.len() == 0 {
        Err(SnapshotError::NoDocumentNumber)
    } else if found.len() == 1 {
        Ok(found[0])
    } else {
        Err(SnapshotError::AmbiguousDocumentNumber { numbers: found })
    }
}

/// The pages below `n` whose band split yielded a table, in order.
pub open spec fn banded_upto(pages: Seq<Result<Bands, BandError>>, n: int) -> Seq<usize>
    decreases n,
{
    if n <= 0 {
        Seq::empty()
    } else if pages[n - 1] is Ok {
        banded_upto(pages, n - 1).push((n - 1) as usize)
    } else {
        banded_upto(pages, n - 1)
    }
}

/// Each page below `n` whose band split refused, with the refusal.
pub open spec fn refusals_upto(pages: Seq<Result<Bands, BandError>>, n: int) -> Seq<(usize, BandError)>
    decreases n,
{
    if n <= 0 {
        Seq::empty()
    } else {
        match pages[n - 1] {
            Ok(_) => refusals_upto(pages, n - 1),
            Err(e) => refusals_upto(pages, n - 1).push(((n - 1) as usize, e)),
        }
    }
}

/// The one page that bands; several refuse, and so does none, carrying every
/// page's refusal.
pub open spec fn table_page_spec(pages: Seq<Result<Bands, BandError>>) -> Result<Bands, SnapshotErrorV> {
    let banded = banded_upto(pages, pages.len() as int);
    if banded.len() > 1 {
        Err(SnapshotErrorV::ManyTablePages { pages: banded })
    } else if banded.len() == 1 {
        match pages[banded[0] as int] {
            Ok(bands) => Ok(bands),
            Err(_) => Err(SnapshotErrorV::ManyTablePages { pages: banded }),
        }
    } else {
        Err(SnapshotErrorV::NoTablePage { refusals: refusals_upto(pages, pages.len() as int) })
    }
}

/// The one page of the document whose band split yields a table.
///
/// `pages` holds each page's band split, in page order. A page that refuses
/// is not the table page, whatever it refuses with. No page banding and
/// several pages banding are both refusals.
pub fn table_page(pages: Vec<Result<Bands, BandError>>) -> (r: Result<Bands, SnapshotError>)
    ensures
        match r {
            Ok(bands) => table_page_spec(pages@) == Ok::<Bands, SnapshotErrorV>(bands),
            Err(e) => table_page_spec(pages@) == Err::<Bands, SnapshotErrorV>(e@),
        },
{
    let ghost all = pages@;
    let mut banded: Vec<usize> = Vec::new();
    let mut refusals: Vec<(usize, BandError)> = Vec::new();
    let mut i: usize = 0;
    while i < pages.len()
        invariant
            i <= pages@.len(),
            all == pages@,
            banded@ == banded_upto(all, i as int),
            refusals@ == refusals_upto(all, i as int),
            forall|k: int| 0 <= k < banded@.len() ==> (#[trigger] banded@[k]) < i && all[banded@[k] as int] is Ok,
        decreases pages@.len() - i,
    {
        match &pages[i] {
            Ok(_) => {
                banded.push(i);
            },
            Err(refusal) => {
                refusals.push((i, *refusal));
            },
        }
        i = i + 1;
    }
    if banded.len() > 1 {
        return Err(SnapshotError::ManyTablePages { pages: banded });
    }
    if banded.len() == 0 {
        return Err(SnapshotError::NoTablePage { refusals });
    }
    let at = banded[0];
    let mut pages = pages;
    match pages.remove(at) {
        Ok(bands) => Ok(bands),
        Err(_) => {
            proof {
                assert(all[at as int] is Ok);
                assert(false);
            }
            Err(SnapshotError::NoDocumentNumber)
        },
    }
}

/// One count a snapshot row states: the car, the component, the count, and
/// the team the row prints.
pub type Reading = (Car, Seq<char>, u32, Seq<char>);

/// The counts a row states under the first `k` labelled columns, or the first
/// that is not a number.
pub open spec fn counts_of_row(
    table: Grid,
    components: LabelledV,
    row: int,
    car: Car,
    team: Seq<char>,
    k: int,
) -> Result<Seq<Reading>, SnapshotErrorV>
    decreases k,
{
    if k <= 0 {
        Ok(Seq::empty())
    } else {
        match counts_of_row(table, components, row, car, team, k - 1) {
            Err(e) => Err(e),
            Ok(prev) => {
                let text = trim(table.text_at(row, components[k - 1].0));
                match parse_spec(text, u32::MAX as int) {
                    None => Err(
                        SnapshotErrorV::CountNotANumber {
                            row,
                            car,
                            component: components[k - 1].1,
                            text,
                        },
                    ),
                    Some(count) => Ok(prev.push((car, components[k - 1].1, count as u32, team))),
                }
            },
        }
    }
}

/// What one data row states: its car number, its team, then a count under
/// each labelled column, left to right.
pub open spec fn row_readings(table: Grid, components: LabelledV, row: int) -> Result<
    Seq<Reading>,
    SnapshotErrorV,
> {
    let printed = trim(table.text_at(row, 0));
    match parse_spec(printed, u16::MAX as int) {
        None => Err(SnapshotErrorV::CarNotANumber { row, text: printed }),
        Some(car) => {
            let team = trim(table.text_at(row, 1));
            if team.len() == 0 {
                Err(SnapshotErrorV::MissingTeam { row, car: car as u16 })
            } else {
                counts_of_row(table, components, row, car as u16, team, components.len() as int)
            }
        },
    }
}

/// What the data rows from `first` up to `n` state, top to bottom, or the
/// first refusal.
pub open spec fn readings_upto(table: Grid, components: LabelledV, first: int, n: int) -> Result<
    Seq<Reading>,
    SnapshotErrorV,
>
    decreases n - first,
{
    if n <= first {
        Ok(Seq::empty())
    } else {
        match readings_upto(table, components, first, n - 1) {
            Err(e) => Err(e),
            Ok(prev) => match row_readings(table, components, n - 1) {
                Err(e) => Err(e),
                Ok(row) => Ok(prev + row),
            },
        }
    }
}

proof fn lemma_counts_stay_refused(
    table: Grid,
    components: LabelledV,
    row: int,
    car: Car,
    team: Seq<char>,
    k: int,
    n: int,
)
    requires
        1 <= k <= n,
        counts_of_row(table, components, row, car, team, k) is Err,
    ensures
        counts_of_row(table, components, row, car, team, n) == counts_of_row(
            table,
            components,
            row,
            car,
            team,
            k,
        ),
    decreases n - k,
{
    if n > k {
        lemma_counts_stay_refused(table, components, row, car, team, k, n - 1);
    }
}

proof fn lemma_readings_stay_refused(table: Grid, components: LabelledV, first: int, k: int, n: int)
    requires
        first < k <= n,
        readings_upto(table, components, first, k) is Err,
    ensures
        readings_upto(table, components, first, n) == readings_upto(table, components, first, k),
    decreases n - k,
{
    if n > k {
        lemma_readings_stay_refused(table, components, first, k, n - 1);
    }
}

/// The legend after the correction's renames, and the refusal that stopped
/// them, if any.
pub open spec fn corrected(legend: Seq<EntryV>, correction: Option<&Correction>) -> (
    Seq<EntryV>,
    Option<LabelErrorV>,
) {
    match correction {
        None => (legend, None),
        Some(c) => apply_spec(legend, c@.1),
    }
}

/// What a snapshot states: the document number and every reading, or the
/// first refusal, checked in the order the parser meets them.
pub open spec fn snapshot_spec(
    pages: Seq<Result<Bands, BandError>>,
    header: Option<&Grid>,
    correction: Option<&Correction>,
) -> Result<(u32, Seq<Reading>), SnapshotErrorV> {
    match table_page_spec(pages) {
        Err(e) => Err(e),
        Ok(bands) => match document_number_spec(header) {
            Err(e) => Err(e),
            Ok(document) => match read_legend_spec(bands.legend_spec()) {
                Err(e) => Err(SnapshotErrorV::Label(e)),
                Ok(read) => {
                    let (legend, refusal) = corrected(read, correction);
                    match refusal {
                        Some(e) => Err(SnapshotErrorV::Label(e)),
                        None => match label_spec(bands.table_spec(), legend) {
                            Err(e) => Err(SnapshotErrorV::Label(e)),
                            Ok(labels) => {
                                let found = identity_count(labels);
                                let table = bands.table_spec();
                                if found != IDENTITY_COLUMNS {
                                    Err(
                                        SnapshotErrorV::Identity(
                                            IdentityError::UnexpectedIdentityColumns {
                                                found: found as usize,
                                            },
                                        ),
                                    )
                                } else if labels.1 >= table@.len() {
                                    Err(SnapshotErrorV::NoDataRows { header_rows: labels.1 })
                                } else {
                                    match readings_upto(table, labels.0, labels.1, table@.len() as int) {
                                        Err(e) => Err(e),
                                        Ok(readings) => Ok((document, readings)),
                                    }
                                }
                            },
                        },
                    }
                },
            },
        },
    }
}

/// Whether `fact` is the snapshot count `reading` states, from document
/// `document` of round `round` of `season`.
pub open spec fn states(fact: Fact, season: Season, round: Round, document: u32, reading: Reading) -> bool {
    &&& fact.season == season
    &&& fact.round == round
    &&& fact.car == reading.0
    &&& fact.component@ == reading.1
    &&& fact.claim == Claim::SnapshotCount(reading.2)
    &&& fact.document == document
    &&& !fact.superseded
    &&& fact.printed_team is Some
    &&& fact.printed_team->0@ == reading.3
}

/// Whether `facts` are exactly the counts `readings` state, in order.
pub open spec fn states_all(
    facts: Seq<Fact>,
    season: Season,
    round: Round,
    document: u32,
    readings: Seq<Reading>,
) -> bool {
    facts.len() == readings.len() && forall|i: int|
        0 <= i < facts.len() ==> states(#[trigger] facts[i], season, round, document, readings[i])
}

/// The outcome once the document number is known: every reading, or the first
/// row's refusal.
pub open spec fn with_document(document: u32, r: Result<Seq<Reading>, SnapshotErrorV>) -> Result<
    (u32, Seq<Reading>),
    SnapshotErrorV,
> {
    match r {
        Err(e) => Err(e),
        Ok(readings) => Ok((document, readings)),
    }
}

/// Parse a snapshot document into one count fact per driver per component.
///
/// `pages` holds each page's band split, in page order; `header` is the first
/// page clustered whole, `None` for a document without pages. `round` is the
/// caller's: a snapshot names its event and never numbers it. `correction` is
/// the one [`for_season`](crate::for_season) resolves for the document's
/// season; it renames legend codes before the columns are labelled.
///
/// Every fact claims [`Claim::SnapshotCount`], the running total the page
/// states, carries the team its row prints verbatim, and the document number
/// the header states. Facts come out in printed order: each data row top to
/// bottom, each component column left to right. Rows are read as printed, not
/// deduplicated: a document that prints one car twice yields two facts, and
/// the sweep reports the contradiction.
pub fn parse_snapshot(
    pages: Vec<Result<Bands, BandError>>,
    header: Option<&Grid>,
    season: Season,
    round: Round,
    correction: Option<&Correction>,
) -> (r: Result<Vec<Fact>, SnapshotError>)
    ensures
        match r {
            Ok(facts) => match snapshot_spec(pages@, header, correction) {
                Ok(stated) => states_all(facts@, season, round, stated.0, stated.1),
                Err(_) => false,
            },
            Err(e) => snapshot_spec(pages@, header, correction) == Err::<
                (u32, Seq<Reading>),
                SnapshotErrorV,
            >(e@),
        },
{
    let ghost all = pages@;
    let bands = match table_page(pages) {
        Ok(bands) => bands,
        Err(e) => return Err(e),
    };
    let document = match document_number(header) {
        Ok(document) => document,
        Err(e) => return Err(e),
    };
    let mut legend = match read_legend(bands.legend()) {
        Ok(legend) => legend,
        Err(e) => return Err(SnapshotError::Label(e)),
    };
    match correction {
        Some(c) => match c.apply(&mut legend) {
            Ok(()) => {},
            Err(e) => return Err(SnapshotError::Label(e)),
        },
        None => {},
    }
    let table = bands.table();
    let labels = match label_columns(table, &legend) {
        Ok(labels) => labels,
        Err(e) => return Err(SnapshotError::Label(e)),
    };
    let identity = match identity_columns(&labels) {
        Ok(identity) => identity,
        Err(e) => return Err(SnapshotError::Identity(e)),
    };
    let header_rows = labels.header_rows();
    let nrows = table.row_count();
    if header_rows >= nrows {
        return Err(SnapshotError::NoDataRows { header_rows });
    }
    let components = labels.components();
    let ghost comps = labels@.0;
    let ghost outcome = snapshot_spec(all, header, correction);
    assert(outcome == with_document(
        document,
        readings_upto(*table, comps, header_rows as int, nrows as int),
    ));

    let mut facts: Vec<Fact> = Vec::new();
    let ghost mut readings: Seq<Reading> = Seq::empty();
    let mut row: usize = header_rows;
    while row < nrows
        invariant
            header_rows <= row <= nrows,
            nrows == table@.len(),
            labelled_view(components@) == comps,
            identity@ == (0int, 1int, 2int),
            outcome == snapshot_spec(all, header, correction),
            all == pages@,
            outcome == with_document(
                document,
                readings_upto(*table, comps, header_rows as int, nrows as int),
            ),
            readings_upto(*table, comps, header_rows as int, row as int) == Ok::<
                Seq<Reading>,
                SnapshotErrorV,
            >(readings),
            states_all(facts@, season, round, document, readings),
        decreases nrows - row,
    {
        let printed = trimmed(table.cell(row, identity.car()));
        let parsed = parse_decimal(printed.as_str(), 0xffff);
        let car: Car = match parsed {
            Some(v) => {
                proof {
                    let w = parse_spec(printed@, 0xffff).unwrap();
                    let digits = if printed@.len() > 0 && printed@[0] == '+' {
                        printed@.drop_first()
                    } else {
                        printed@
                    };
                    crate::text::lemma_digits_value_nonneg(digits);
                    assert(0 <= w <= 0xffff);
                    assert(v == w);
                }
                v as u16
            },
            None => {
                proof {
                    assert(row_readings(*table, comps, row as int) == Err::<Seq<Reading>, SnapshotErrorV>(
                        SnapshotErrorV::CarNotANumber { row: row as int, text: printed@ },
                    ));
                    assert(readings_upto(*table, comps, header_rows as int, row + 1) == Err::<
                        Seq<Reading>,
                        SnapshotErrorV,
                    >(SnapshotErrorV::CarNotANumber { row: row as int, text: printed@ }));
                    lemma_readings_stay_refused(
                        *table,
                        comps,
                        header_rows as int,
                        row + 1,
                        nrows as int,
                    );
                }
                return Err(SnapshotError::CarNotANumber { row, text: printed });
            },
        };
        let team = trimmed(table.cell(row, identity.team()));
        if team.as_str().unicode_len() == 0 {
            proof {
                lemma_readings_stay_refused(*table, comps, header_rows as int, row + 1, nrows as int);
            }
            return Err(SnapshotError::MissingTeam { row, car });
        }
        let ghost mut stated: Seq<Reading> = Seq::empty();
        let mut k: usize = 0;
        while k < components.len()
            invariant
                k <= components@.len(),
                row < nrows,
                header_rows <= row,
                nrows == table@.len(),
                labelled_view(components@) == comps,
                comps.len() == components@.len(),
                identity@ == (0int, 1int, 2int),
                outcome == with_document(
                    document,
                    readings_upto(*table, comps, header_rows as int, nrows as int),
                ),
                outcome == snapshot_spec(all, header, correction),
                all == pages@,
                readings_upto(*table, comps, header_rows as int, row as int) == Ok::<
                    Seq<Reading>,
                    SnapshotErrorV,
                >(readings),
                parse_spec(printed@, u16::MAX as int) == Some(car as int),
                printed@ == trim(table.text_at(row as int, 0)),
                team@ == trim(table.text_at(row as int, 1)),
                team@.len() > 0,
                counts_of_row(*table, comps, row as int, car, team@, k as int) == Ok::<
                    Seq<Reading>,
                    SnapshotErrorV,
                >(stated),
                states_all(facts@, season, round, document, readings + stated),
            decreases components@.len() - k,
        {
            let column = components[k].0;
            let text = trimmed(table.cell(row, column));
            assert(comps[k as int] == (column as int, components@[k as int].1@));
            match parse_decimal(text.as_str(), 0xffff_ffff) {
                None => {
                    proof {
                        lemma_counts_stay_refused(
                            *table,
                            comps,
                            row as int,
                            car,
                            team@,
                            k + 1,
                            comps.len() as int,
                        );
                        lemma_readings_stay_refused(
                            *table,
                            comps,
                            header_rows as int,
                            row + 1,
                            nrows as int,
                        );
                    }
                    return Err(
                        SnapshotError::CountNotANumber {
                            row,
                            car,
                            component: components[k].1.clone(),
                            text,
                        },
                    );
                },
                Some(count) => {
                    let fact = Fact::new(
                        season,
                        round,
                        car,
                        components[k].1.clone(),
                        Claim::SnapshotCount(count),
                        document,
                    ).with_printed_team(team.as_str());
                    let ghost before = facts@;
                    let ghost reading = (car, comps[k as int].1, count, team@);
                    facts.push(fact);
                    proof {
                        let prev = readings + stated;
                        stated = stated.push(reading);
                        assert(readings + stated =~= prev.push(reading));
                        assert forall|i: int| 0 <= i < facts@.len() implies states(
                            #[trigger] facts@[i],
                            season,
                            round,
                            document,
                            (readings + stated)[i],
                        ) by {
                            if i < before.len() {
                                assert(facts@[i] == before[i]);
                                assert((readings + stated)[i] == prev[i]);
                            }
                        }
                    }
                },
            }
            k = k + 1;
        }
        proof {
            readings = readings + stated;
        }
        row = row + 1;
    }
    Ok(facts)
}

proof fn lemma_counts_of_row_ok(
    table: Grid,
    components: LabelledV,
    row: int,
    car: Car,
    team: Seq<char>,
    k: int,
)
    requires
        0 <= k,
        counts_of_row(table, components, row, car, team, k) is Ok,
    ensures
        counts_of_row(table, components, row, car, team, k)->Ok_0.len() == k,
        forall|j: int|
            0 <= j < k ==> (#[trigger] counts_of_row(table, components, row, car, team, k)->Ok_0[j]).0
                == car && counts_of_row(table, components, row, car, team, k)->Ok_0[j].1
                == components[j].1 && counts_of_row(table, components, row, car, team, k)->Ok_0[j].3
                == team,
    decreases k,
{
    if k > 0 {
        lemma_counts_of_row_ok(table, components, row, car, team, k - 1);
    }
}

/// A successful read of the data rows `first..n` yields one reading per row
/// per labelled column: row by row, and within a row in column order.
pub proof fn lemma_one_reading_per_row_and_component(
    table: Grid,
    components: LabelledV,
    first: int,
    n: int,
)
    requires
        first <= n,
        readings_upto(table, components, first, n) is Ok,
    ensures
        readings_upto(table, components, first, n)->Ok_0.len() == (n - first) * components.len(),
        forall|r: int, j: int|
            first <= r < n && 0 <= j < components.len() ==> (#[trigger] readings_upto(
                table,
                components,
                first,
                n,
            )->Ok_0[(r - first) * components.len() + j]).1 == #[trigger] components[j].1,
    decreases n - first,
{
    let m = components.len() as int;
    if n > first {
        lemma_one_reading_per_row_and_component(table, components, first, n - 1);
        let prev = readings_upto(table, components, first, n - 1)->Ok_0;
        let rowr = row_readings(table, components, n - 1);
        let all = readings_upto(table, components, first, n)->Ok_0;
        let printed = trim(table.text_at(n - 1, 0));
        let car = parse_spec(printed, u16::MAX as int)->0 as u16;
        let team = trim(table.text_at(n - 1, 1));
        lemma_counts_of_row_ok(table, components, n - 1, car, team, m);
        let cur = rowr->Ok_0;
        assert(all == prev + cur);
        assert(prev.len() == (n - 1 - first) * m);
        assert((n - first) * m == (n - 1 - first) * m + m) by (nonlinear_arith);
        assert forall|r: int, j: int| first <= r < n && 0 <= j < m implies (#[trigger] all[(r - first) * m + j]).1 == #[trigger] components[j].1 by {
            if r < n - 1 {
                assert((r - first) * m + j < (n - 1 - first) * m) by (nonlinear_arith)
                    requires
                        first <= r < n - 1,
                        0 <= j < m,
                ;
                assert(0 <= (r - first) * m + j) by (nonlinear_arith)
                    requires
                        first <= r,
                        0 <= j,
                        0 <= m,
                ;
                assert(all[(r - first) * m + j] == prev[(r - first) * m + j]);
            } else {
                assert(all[(r - first) * m + j] == cur[j]);
            }
        }
    }
}

} // verus!
