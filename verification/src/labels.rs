//! Mapping a snapshot table's columns to component codes.
//!
//! The header of a snapshot table wraps. A long code splits down the page:
//! `MGU` prints above `-K`, and `PU-` above `CE` and `ANC`. Reading the labels
//! along the line therefore shifts components by a column. Reading down each
//! column instead spells each column's code, because the grid already placed
//! every header glyph in the column its x range covers.
//!
//! The legend supplies the codes. Nothing here names a component, so a
//! document whose separator is not an ordinary hyphen still matches: its
//! header and its legend carry the same characters.
use vstd::prelude::*;
use vstd::string::*;

use crate::error::{strings_view, LabelError, LabelErrorV};
use crate::fact::ComponentCode;
use crate::grid::{cell_of, Grid};
use crate::legend::{has_code, legend_ok, EntryV, Legend};
use crate::order::{first_index, lemma_first_index, lemma_first_index_is, lemma_first_index_none};
use crate::text::{trim, trimmed};

verus! {

/// Labelled columns, each a column index and the code it holds.
pub type LabelledV = Seq<(int, Seq<char>)>;

/// The labelled pairs as plain values.
pub open spec fn labelled_view(v: Seq<(usize, ComponentCode)>) -> LabelledV {
    v.map_values(|p: (usize, ComponentCode)| (p.0 as int, p.1@))
}

/// Columns strictly ascending, and no code on two of them.
pub open spec fn labelled_ok(v: LabelledV) -> bool {
    &&& forall|i: int| 0 <= i < v.len() ==> 0 <= (#[trigger] v[i]).0
    &&& forall|i: int, j: int| 0 <= i < j < v.len() ==> (#[trigger] v[i]).0 < (#[trigger] v[j]).0
    &&& forall|i: int, j: int| 0 <= i < j < v.len() ==> (#[trigger] v[i]).1 != (#[trigger] v[j]).1
}

/// Which component each labelled column of a snapshot table holds.
#[derive(Debug, PartialEq, Eq)]
pub struct ColumnLabels {
    /// The labelled columns, ascending. Identity columns are absent.
    labelled: Vec<(usize, ComponentCode)>,
    header_rows: usize,
}

impl View for ColumnLabels {
    type V = (LabelledV, int);

    closed spec fn view(&self) -> (LabelledV, int) {
        (labelled_view(self.labelled@), self.header_rows as int)
    }
}

impl ColumnLabels {
    /// Labelled columns ascend, and no code labels two of them.
    #[verifier::type_invariant]
    pub open spec fn wf(self) -> bool {
        labelled_ok(self@.0)
    }

    /// The code the column at `column` holds, or `None` where the header
    /// labels no component, as over the car number and driver columns.
    pub fn code_at(&self, column: usize) -> (r: Option<&ComponentCode>)
        ensures
            labelled_ok(self@.0),
            match r {
                Some(code) => exists|i: int|
                    0 <= i < self@.0.len() && (#[trigger] self@.0[i]).0 == column && self@.0[i].1
                        == code@,
                None => forall|i: int| 0 <= i < self@.0.len() ==> (#[trigger] self@.0[i]).0 != column,
            },
    {
        proof {
            use_type_invariant(self);
        }
        let mut i: usize = 0;
        while i < self.labelled.len()
            invariant
                i <= self.labelled@.len(),
                forall|j: int| 0 <= j < i ==> (#[trigger] labelled_view(self.labelled@)[j]).0 != column,
                labelled_ok(labelled_view(self.labelled@)),
            decreases self.labelled@.len() - i,
        {
            if self.labelled[i].0 == column {
                assert(labelled_view(self.labelled@)[i as int] == (
                self.labelled@[i as int].0 as int,
                self.labelled@[i as int].1@,
                ));
                return Some(&self.labelled[i].1);
            }
            i = i + 1;
        }
        None
    }

    /// Every labelled column paired with its code, left to right.
    ///
    /// Identity columns are absent, so the first pair's column is also how many
    /// identity columns the table prints.
    pub fn components(&self) -> (r: &[(usize, ComponentCode)])
        ensures
            labelled_view(r@) == self@.0,
            labelled_ok(self@.0),
    {
        proof {
            use_type_invariant(self);
        }
        self.labelled.as_slice()
    }

    /// The column holding `code`.
    pub fn column_of(&self, code: &str) -> (r: Option<usize>)
        ensures
            labelled_ok(self@.0),
            match r {
                Some(column) => exists|i: int|
                    0 <= i < self@.0.len() && (#[trigger] self@.0[i]).1 == code@ && self@.0[i].0
                        == column,
                None => forall|i: int| 0 <= i < self@.0.len() ==> (#[trigger] self@.0[i]).1 != code@,
            },
    {
        proof {
            use_type_invariant(self);
        }
        let mut i: usize = 0;
        while i < self.labelled.len()
            invariant
                i <= self.labelled@.len(),
                forall|j: int| 0 <= j < i ==> (#[trigger] labelled_view(self.labelled@)[j]).1 != code@,
                labelled_ok(labelled_view(self.labelled@)),
            decreases self.labelled@.len() - i,
        {
            if crate::text::str_eq(self.labelled[i].1.as_str(), code) {
                assert(labelled_view(self.labelled@)[i as int] == (
                self.labelled@[i as int].0 as int,
                self.labelled@[i as int].1@,
                ));
                return Some(self.labelled[i].0);
            }
            i = i + 1;
        }
        None
    }

    /// How many rows at the top of the grid the header occupies. The first
    /// data row follows it.
    pub fn header_rows(&self) -> (r: usize)
        ensures
            r == self@.1,
    {
        self.header_rows
    }
}

/// A column's header cells over the top `depth` rows, each trimmed, joined top
/// to bottom.
pub open spec fn header_spelled(rows: Seq<Seq<Seq<char>>>, col: int, depth: int) -> Seq<char>
    decreases depth,
{
    if depth <= 0 {
        Seq::empty()
    } else {
        header_spelled(rows, col, depth - 1) + trim(cell_of(rows, depth - 1, col))
    }
}

/// Every column's header over the top `depth` rows, left to right.
pub open spec fn headers_at(rows: Seq<Seq<Seq<char>>>, width: int, depth: int) -> Seq<Seq<char>> {
    Seq::new(width as nat, |c: int| header_spelled(rows, c, depth))
}

/// The legend's codes, in printed order.
pub open spec fn codes_of(v: Seq<EntryV>) -> Seq<Seq<char>> {
    v.map_values(|e: EntryV| e.0)
}

/// Column `c` spells a legend code that a column left of it spells too.
pub open spec fn repeats(h: Seq<Seq<char>>, v: Seq<EntryV>, c: int) -> bool {
    has_code(v, h[c]) && exists|c0: int| 0 <= c0 < c && #[trigger] h[c0] == h[c]
}

pub open spec fn repeat_at(h: Seq<Seq<char>>, v: Seq<EntryV>) -> spec_fn(int) -> bool {
    |c: int| repeats(h, v, c)
}

pub open spec fn spells(h: Seq<Seq<char>>, x: Seq<char>) -> spec_fn(int) -> bool {
    |c: int| h[c] == x
}

pub open spec fn blank_at(h: Seq<Seq<char>>) -> spec_fn(int) -> bool {
    |c: int| h[c].len() == 0
}

/// Column `c` spells no legend code, while a column left of it does.
pub open spec fn uncovered(h: Seq<Seq<char>>, v: Seq<EntryV>, c: int) -> bool {
    !has_code(v, h[c]) && exists|c0: int| 0 <= c0 < c && has_code(v, #[trigger] h[c0])
}

pub open spec fn uncovered_at(h: Seq<Seq<char>>, v: Seq<EntryV>) -> spec_fn(int) -> bool {
    |c: int| uncovered(h, v, c)
}

/// The first `n` legend codes, in order, that no column spells.
pub open spec fn unmatched(k: Seq<Seq<char>>, h: Seq<Seq<char>>, n: int) -> Seq<Seq<char>>
    decreases n,
{
    if n <= 0 {
        Seq::empty()
    } else if h.contains(k[n - 1]) {
        unmatched(k, h, n - 1)
    } else {
        unmatched(k, h, n - 1).push(k[n - 1])
    }
}

/// The columns left of `n` that spell a legend code, each with that code.
pub open spec fn labelled_upto(h: Seq<Seq<char>>, v: Seq<EntryV>, n: int) -> LabelledV
    decreases n,
{
    if n <= 0 {
        Seq::empty()
    } else if has_code(v, h[n - 1]) {
        labelled_upto(h, v, n - 1).push((n - 1, h[n - 1]))
    } else {
        labelled_upto(h, v, n - 1)
    }
}

/// Why a candidate header depth was rejected.
pub enum Rejection {
    /// Legend codes that landed on no column.
    MissingCodes(Seq<Seq<char>>),
    /// One code spelled by two columns: the code, the first column, the next.
    RepeatedCode(Seq<char>, int, int),
    /// A column whose header the legend does not declare.
    UnknownColumn(int, Seq<char>),
    /// A column with no header text.
    BlankColumn(int),
}

/// Labelling the columns with the top `depth` rows as the header.
///
/// The depth holds when every legend code lands on exactly one column, no
/// column's header is blank, and every column from the first labelled one
/// rightwards carries a code. The rules are checked in that order.
pub open spec fn at_depth(rows: Seq<Seq<Seq<char>>>, width: int, v: Seq<EntryV>, depth: int) -> Result<
    LabelledV,
    Rejection,
> {
    let h = headers_at(rows, width, depth);
    let k = codes_of(v);
    match first_index(width, repeat_at(h, v)) {
        Some(c) => match first_index(width, spells(h, h[c])) {
            Some(first) => Err(Rejection::RepeatedCode(h[c], first, c)),
            None => Err(Rejection::RepeatedCode(h[c], c, c)),
        },
        None => {
            let missing = unmatched(k, h, k.len() as int);
            if missing.len() > 0 {
                Err(Rejection::MissingCodes(missing))
            } else {
                match first_index(width, blank_at(h)) {
                    Some(c) => Err(Rejection::BlankColumn(c)),
                    None => match first_index(width, uncovered_at(h, v)) {
                        Some(c) => Err(Rejection::UnknownColumn(c, h[c])),
                        None => Ok(labelled_upto(h, v, width)),
                    },
                }
            }
        },
    }
}

/// How far a depth fell short, closest first: an unknown or blank column means
/// every code landed once; a repeated code names the spelling at fault; the
/// fewer codes missing, the closer.
pub open spec fn distance(r: Rejection) -> (int, int) {
    match r {
        Rejection::UnknownColumn(..) => (0, 0),
        Rejection::BlankColumn(..) => (0, 0),
        Rejection::RepeatedCode(..) => (1, 0),
        Rejection::MissingCodes(codes) => (2, codes.len() as int),
    }
}

/// Whether `a` came strictly closer than `b`.
pub open spec fn closer(a: Rejection, b: Rejection) -> bool {
    distance(a).0 < distance(b).0 || (distance(a).0 == distance(b).0 && distance(a).1 < distance(
        b,
    ).1)
}

/// The rejection of a depth that fails.
pub open spec fn rejection_at(rows: Seq<Seq<Seq<char>>>, width: int, v: Seq<EntryV>, depth: int) -> Rejection {
    match at_depth(rows, width, v, depth) {
        Err(r) => r,
        Ok(_) => Rejection::BlankColumn(0),
    }
}

/// The closest rejection among depths `1..=n`, the shallowest among equals.
pub open spec fn closest(rows: Seq<Seq<Seq<char>>>, width: int, v: Seq<EntryV>, n: int) -> Rejection
    decreases n,
{
    if n <= 1 {
        rejection_at(rows, width, v, 1)
    } else {
        let prev = closest(rows, width, v, n - 1);
        let cur = rejection_at(rows, width, v, n);
        if closer(cur, prev) {
            cur
        } else {
            prev
        }
    }
}

/// Whether header depth `i + 1` holds.
pub open spec fn depth_holds(rows: Seq<Seq<Seq<char>>>, width: int, v: Seq<EntryV>) -> spec_fn(int) -> bool {
    |i: int| at_depth(rows, width, v, i + 1) is Ok
}

/// The refusal a rejection reports.
pub open spec fn rejection_error(r: Rejection) -> LabelErrorV {
    match r {
        Rejection::MissingCodes(codes) => LabelErrorV::HeaderDoesNotMatchLegend { unmatched: codes },
        Rejection::RepeatedCode(code, first, second) => LabelErrorV::HeaderSpellsOneCodeTwice {
            code,
            first,
            second,
        },
        Rejection::UnknownColumn(column, header) => LabelErrorV::HeaderColumnNotInLegend {
            column,
            header,
        },
        Rejection::BlankColumn(column) => LabelErrorV::HeaderColumnIsBlank { column },
    }
}

/// The shallowest header depth that holds, with the columns it labels; or,
/// when none does, the refusal of the depth that came closest. A table with no
/// rows offers no depth, so no code finds a column.
pub open spec fn label_spec(table: Grid, v: Seq<EntryV>) -> Result<(LabelledV, int), LabelErrorV> {
    let rows = table@;
    let width = table.width() as int;
    let n = rows.len() as int;
    if n == 0 {
        Err(LabelErrorV::HeaderDoesNotMatchLegend { unmatched: codes_of(v) })
    } else {
        match first_index(n, depth_holds(rows, width, v)) {
            Some(i) => match at_depth(rows, width, v, i + 1) {
                Ok(labelled) => Ok((labelled, i + 1)),
                Err(r) => Err(rejection_error(r)),
            },
            None => Err(rejection_error(closest(rows, width, v, n))),
        }
    }
}

/// Why a candidate depth was rejected.
enum DepthRejection {
    MissingCodes { codes: Vec<String> },
    RepeatedCode { code: String, first: usize, second: usize },
    UnknownColumn { column: usize, header: String },
    BlankColumn { column: usize },
}

impl View for DepthRejection {
    type V = Rejection;

    closed spec fn view(&self) -> Rejection {
        match self {
            DepthRejection::MissingCodes { codes } => Rejection::MissingCodes(strings_view(codes@)),
            DepthRejection::RepeatedCode { code, first, second } => Rejection::RepeatedCode(
                code@,
                *first as int,
                *second as int,
            ),
            DepthRejection::UnknownColumn { column, header } => Rejection::UnknownColumn(
                *column as int,
                header@,
            ),
            DepthRejection::BlankColumn { column } => Rejection::BlankColumn(*column as int),
        }
    }
}

impl DepthRejection {
    /// How far the depth fell short, closest first.
    fn distance(&self) -> (r: (u8, usize))
        ensures
            r.0 == distance(self@).0,
            r.1 == distance(self@).1,
    {
        match self {
            DepthRejection::UnknownColumn { .. } | DepthRejection::BlankColumn { .. } => (0, 0),
            DepthRejection::RepeatedCode { .. } => (1, 0),
            DepthRejection::MissingCodes { codes } => (2, codes.len()),
        }
    }

    /// Whether this rejection came strictly closer than `other`.
    fn is_closer_than(&self, other: &DepthRejection) -> (r: bool)
        ensures
            r == closer(self@, other@),
    {
        let (a, b) = self.distance();
        let (c, d) = other.distance();
        a < c || (a == c && b < d)
    }

    /// The refusal this rejection reports.
    fn into_error(self) -> (r: LabelError)
        ensures
            r@ == rejection_error(self@),
    {
        match self {
            DepthRejection::MissingCodes { codes } => LabelError::HeaderDoesNotMatchLegend {
                unmatched: codes,
            },
            DepthRejection::RepeatedCode { code, first, second } => {
                LabelError::HeaderSpellsOneCodeTwice { code, first, second }
            },
            DepthRejection::UnknownColumn { column, header } => {
                LabelError::HeaderColumnNotInLegend { column, header }
            },
            DepthRejection::BlankColumn { column } => LabelError::HeaderColumnIsBlank { column },
        }
    }
}

/// Join a column's header cells top to bottom, which spells its code.
fn header_text(table: &Grid, column: usize, header_rows: usize) -> (r: String)
    ensures
        r@ == header_spelled(table@, column as int, header_rows as int),
{
    let mut text = String::new();
    let mut row: usize = 0;
    while row < header_rows
        invariant
            row <= header_rows,
            text@ == header_spelled(table@, column as int, row as int),
        decreases header_rows - row,
    {
        let cell = trimmed(table.cell(row, column));
        text.append(cell.as_str());
        row = row + 1;
    }
    text
}

proof fn lemma_labelled_push(v: Seq<(usize, ComponentCode)>, p: (usize, ComponentCode))
    ensures
        labelled_view(v.push(p)) == labelled_view(v).push((p.0 as int, p.1@)),
{
    assert(labelled_view(v.push(p)) =~= labelled_view(v).push((p.0 as int, p.1@)));
}

/// Label the columns treating the top `header_rows` rows as the header.
fn labels_at_depth(table: &Grid, legend: &Legend, header_rows: usize) -> (r: Result<
    Vec<(usize, ComponentCode)>,
    DepthRejection,
>)
    ensures
        match r {
            Ok(l) => at_depth(table@, table.width() as int, legend@, header_rows as int) == Ok::<
                LabelledV,
                Rejection,
            >(labelled_view(l@)) && labelled_ok(labelled_view(l@)),
            Err(e) => at_depth(table@, table.width() as int, legend@, header_rows as int) == Err::<
                LabelledV,
                Rejection,
            >(e@),
        },
{
    let columns = table.column_count();
    let ghost w = columns as int;
    let ghost v = legend@;
    let mut headers: Vec<String> = Vec::new();
    let mut c: usize = 0;
    while c < columns
        invariant
            c <= columns,
            columns == table.width(),
            headers@.len() == c,
            forall|j: int|
                0 <= j < c ==> (#[trigger] headers@[j])@ == header_spelled(
                    table@,
                    j,
                    header_rows as int,
                ),
        decreases columns - c,
    {
        headers.push(header_text(table, c, header_rows));
        c = c + 1;
    }
    let ghost h = headers_at(table@, w, header_rows as int);
    assert(strings_view(headers@) =~= h);

    let entries = legend.entries();
    let nl = entries.len();
    let mut column_of: Vec<Option<usize>> = Vec::new();
    let mut i: usize = 0;
    while i < nl
        invariant
            i <= nl,
            column_of@.len() == i,
            forall|j: int| 0 <= j < i ==> column_of@[j] is None,
        decreases nl - i,
    {
        column_of.push(None);
        i = i + 1;
    }

    let mut labelled: Vec<(usize, ComponentCode)> = Vec::new();
    assert(labelled_view(labelled@) =~= Seq::empty());
    let mut column: usize = 0;
    while column < columns
        invariant
            columns == w,
            column <= columns,
            v == legend@,
            h == headers_at(table@, w, header_rows as int),
            w == table.width(),
            h == strings_view(headers@),
            headers@.len() == columns,
            crate::legend::entries_view(entries@) == v,
            legend_ok(v),
            nl == v.len(),
            column_of@.len() == nl,
            forall|c2: int| 0 <= c2 < column ==> !repeats(h, v, c2),
            forall|j: int|
                0 <= j < nl ==> match #[trigger] column_of@[j] {
                    Some(x) => x < column && h[x as int] == v[j].0 && forall|c2: int|
                        0 <= c2 < x ==> h[c2] != h[x as int],
                    None => forall|c2: int| 0 <= c2 < column ==> h[c2] != v[j].0,
                },
            labelled_view(labelled@) == labelled_upto(h, v, column as int),
            forall|p: int|
                0 <= p < labelled@.len() ==> (#[trigger] labelled_view(labelled@)[p]).0 < column
                    && labelled_view(labelled@)[p].1 == h[labelled_view(labelled@)[p].0],
            labelled_ok(labelled_view(labelled@)),
        decreases columns - column,
    {
        let ghost before = labelled@;
        let ghost lab = labelled_view(labelled@);
        assert(headers@[column as int]@ == h[column as int]);
        match legend.position(headers[column].as_str()) {
            None => {
                assert(!repeats(h, v, column as int));
                assert forall|j: int| 0 <= j < nl implies match #[trigger] column_of@[j] {
                    Some(x) => x < column + 1 && h[x as int] == v[j].0 && forall|c2: int|
                        0 <= c2 < x ==> h[c2] != h[x as int],
                    None => forall|c2: int| 0 <= c2 < column + 1 ==> h[c2] != v[j].0,
                } by {
                    if column_of@[j] is None {
                        assert(v[j].0 != h[column as int]);
                    }
                }
            },
            Some(index) => {
                assert(v[index as int].0 == h[column as int]);
                match column_of[index] {
                    Some(first) => {
                        proof {
                            assert(h[first as int] == h[column as int]);
                            assert(repeats(h, v, column as int));
                            lemma_first_index_is(w, repeat_at(h, v), column as int);
                            lemma_first_index_is(w, spells(h, h[column as int]), first as int);
                        }
                        return Err(
                            DepthRejection::RepeatedCode {
                                code: headers[column].clone(),
                                first,
                                second: column,
                            },
                        );
                    },
                    None => {},
                }
                assert(!repeats(h, v, column as int));
                column_of.set(index, Some(column));
                let code = entries[index].code().clone();
                labelled.push((column, code));
                proof {
                    lemma_labelled_push(before, (column, code));
                    let after = labelled_view(labelled@);
                    assert(after == lab.push((column as int, h[column as int])));
                    assert forall|a: int, b: int| 0 <= a < b < after.len() implies (#[trigger] after[a]).1
                        != (#[trigger] after[b]).1 by {
                        if b == after.len() - 1 {
                            assert(after[a] == lab[a]);
                            assert(lab[a].0 < column);
                        }
                    }
                    assert forall|j: int| 0 <= j < nl implies match #[trigger] column_of@[j] {
                        Some(x) => x < column + 1 && h[x as int] == v[j].0 && forall|c2: int|
                            0 <= c2 < x ==> h[c2] != h[x as int],
                        None => forall|c2: int| 0 <= c2 < column + 1 ==> h[c2] != v[j].0,
                    } by {
                        if j != index {
                            assert(v[j].0 != v[index as int].0);
                        }
                    }
                }
            },
        }
        column = column + 1;
    }
    proof {
        lemma_first_index_none(w, repeat_at(h, v));
    }

    let mut missing: Vec<String> = Vec::new();
    let mut i: usize = 0;
    while i < nl
        invariant
            i <= nl,
            columns == w,
            h == strings_view(headers@),
            headers@.len() == columns,
            crate::legend::entries_view(entries@) == v,
            nl == v.len(),
            column_of@.len() == nl,
            forall|j: int|
                0 <= j < nl ==> match #[trigger] column_of@[j] {
                    Some(x) => x < columns && h[x as int] == v[j].0,
                    None => forall|c2: int| 0 <= c2 < columns ==> h[c2] != v[j].0,
                },
            strings_view(missing@) == unmatched(codes_of(v), h, i as int),
            h == headers_at(table@, w, header_rows as int),
            w == table.width(),
            v == legend@,
            first_index(w, repeat_at(h, v)) is None,
            labelled_view(labelled@) == labelled_upto(h, v, w),
            labelled_ok(labelled_view(labelled@)),
        decreases nl - i,
    {
        assert(codes_of(v)[i as int] == v[i as int].0);
        let ghost prev = missing@;
        match column_of[i] {
            Some(x) => {
                assert(h[x as int] == codes_of(v)[i as int]);
                assert(h.contains(codes_of(v)[i as int]));
            },
            None => {
                assert(!h.contains(codes_of(v)[i as int]));
                missing.push(String::from_str(entries[i].code().as_str()));
                assert(strings_view(missing@) =~= strings_view(prev).push(codes_of(v)[i as int]));
            },
        }
        i = i + 1;
    }
    if missing.len() > 0 {
        return Err(DepthRejection::MissingCodes { codes: missing });
    }
    assert(codes_of(v).len() == nl);

    let mut c: usize = 0;
    while c < columns
        invariant
            c <= columns,
            columns == w,
            h == strings_view(headers@),
            headers@.len() == columns,
            forall|c2: int| 0 <= c2 < c ==> h[c2].len() != 0,
            h == headers_at(table@, w, header_rows as int),
            w == table.width(),
            v == legend@,
            first_index(w, repeat_at(h, v)) is None,
            unmatched(codes_of(v), h, codes_of(v).len() as int).len() == 0,
            labelled_view(labelled@) == labelled_upto(h, v, w),
            labelled_ok(labelled_view(labelled@)),
        decreases columns - c,
    {
        assert(headers@[c as int]@ == h[c as int]);
        if headers[c].as_str().unicode_len() == 0 {
            proof {
                lemma_first_index_is(w, blank_at(h), c as int);
            }
            return Err(DepthRejection::BlankColumn { column: c });
        }
        c = c + 1;
    }
    proof {
        lemma_first_index_none(w, blank_at(h));
    }

    let mut seen = false;
    let mut c: usize = 0;
    while c < columns
        invariant
            c <= columns,
            columns == w,
            v == legend@,
            h == strings_view(headers@),
            headers@.len() == columns,
            seen == exists|c0: int| 0 <= c0 < c && has_code(v, #[trigger] h[c0]),
            forall|c2: int| 0 <= c2 < c ==> !uncovered(h, v, c2),
            first_index(w, blank_at(h)) is None,
            h == headers_at(table@, w, header_rows as int),
            w == table.width(),
            v == legend@,
            first_index(w, repeat_at(h, v)) is None,
            unmatched(codes_of(v), h, codes_of(v).len() as int).len() == 0,
            labelled_view(labelled@) == labelled_upto(h, v, w),
            labelled_ok(labelled_view(labelled@)),
        decreases columns - c,
    {
        assert(headers@[c as int]@ == h[c as int]);
        let carries = legend.position(headers[c].as_str()).is_some();
        if carries {
            seen = true;
        } else if seen {
            proof {
                assert(uncovered(h, v, c as int));
                lemma_first_index_is(w, uncovered_at(h, v), c as int);
            }
            return Err(DepthRejection::UnknownColumn { column: c, header: headers[c].clone() });
        }
        c = c + 1;
    }
    proof {
        lemma_first_index_none(w, uncovered_at(h, v));
    }
    Ok(labelled)
}

/// Map each component column of a snapshot table to its code.
///
/// `table` must cover the table band alone, header rows first, and `legend`
/// must come from the same document, so the codes compared are the same
/// characters.
///
/// The header depth is found, not given: the shallowest depth that accounts
/// for the whole table wins. When none does, the refusal is that of the depth
/// that came closest.
pub fn label_columns(table: &Grid, legend: &Legend) -> (r: Result<ColumnLabels, LabelError>)
    ensures
        match r {
            Ok(labels) => label_spec(*table, legend@) == Ok::<(LabelledV, int), LabelErrorV>(
                labels@,
            ),
            Err(e) => label_spec(*table, legend@) == Err::<(LabelledV, int), LabelErrorV>(e@),
        },
{
    let n = table.row_count();
    let ghost rows = table@;
    let ghost w = table.width() as int;
    let ghost v = legend@;
    let mut closest_so_far: Option<DepthRejection> = None;
    let mut d: usize = 0;
    while d < n
        invariant
            d <= n,
            n == rows.len(),
            rows == table@,
            w == table.width(),
            v == legend@,
            first_index(d as int, depth_holds(rows, w, v)) is None,
            d == 0 ==> closest_so_far is None,
            d > 0 ==> closest_so_far is Some && closest_so_far->0@ == closest(rows, w, v, d as int),
        decreases n - d,
    {
        let header_rows = d + 1;
        match labels_at_depth(table, legend, header_rows) {
            Ok(labelled) => {
                proof {
                    lemma_first_index(d as int, depth_holds(rows, w, v));
                    lemma_first_index_is(n as int, depth_holds(rows, w, v), d as int);
                }
                return Ok(ColumnLabels { labelled, header_rows });
            },
            Err(rejection) => {
                let replace = match &closest_so_far {
                    None => true,
                    Some(current) => rejection.is_closer_than(current),
                };
                if replace {
                    closest_so_far = Some(rejection);
                }
            },
        }
        d = d + 1;
    }
    match closest_so_far {
        Some(rejection) => Err(rejection.into_error()),
        None => {
            let entries = legend.entries();
            let mut codes: Vec<String> = Vec::new();
            let mut i: usize = 0;
            while i < entries.len()
                invariant
                    i <= entries@.len(),
                    crate::legend::entries_view(entries@) == v,
                    strings_view(codes@) == codes_of(v).take(i as int),
                decreases entries@.len() - i,
            {
                let ghost prev = codes@;
                codes.push(String::from_str(entries[i].code().as_str()));
                assert(strings_view(codes@) =~= strings_view(prev).push(codes_of(v)[i as int]));
                assert(codes_of(v).take(i + 1) =~= codes_of(v).take(i as int).push(
                    codes_of(v)[i as int],
                ));
                i = i + 1;
            }
            assert(codes_of(v).take(i as int) =~= codes_of(v));
            Err(LabelError::HeaderDoesNotMatchLegend { unmatched: codes })
        },
    }
}

proof fn lemma_labelled_upto(h: Seq<Seq<char>>, v: Seq<EntryV>, n: int)
    requires
        0 <= n <= h.len(),
    ensures
        forall|p: int|
            0 <= p < labelled_upto(h, v, n).len() ==> 0 <= (#[trigger] labelled_upto(h, v, n)[p]).0 < n
                && labelled_upto(h, v, n)[p].1 == h[labelled_upto(h, v, n)[p].0] && has_code(
                v,
                labelled_upto(h, v, n)[p].1,
            ),
        forall|p: int, q: int|
            0 <= p < q < labelled_upto(h, v, n).len() ==> (#[trigger] labelled_upto(h, v, n)[p]).0 < (
            #[trigger] labelled_upto(h, v, n)[q]).0,
        forall|c: int|
            0 <= c < n && has_code(v, #[trigger] h[c]) ==> exists|p: int|
                0 <= p < labelled_upto(h, v, n).len() && (#[trigger] labelled_upto(h, v, n)[p]).0 == c,
    decreases n,
{
    if n > 0 {
        lemma_labelled_upto(h, v, n - 1);
        let prev = labelled_upto(h, v, n - 1);
        let cur = labelled_upto(h, v, n);
        if has_code(v, h[n - 1]) {
            assert(cur == prev.push((n - 1, h[n - 1])));
            assert(cur[prev.len() as int] == (n - 1, h[n - 1]));
            assert forall|p: int| 0 <= p < prev.len() implies #[trigger] cur[p] == prev[p] by {}
            assert forall|c: int| 0 <= c < n && has_code(v, #[trigger] h[c]) implies exists|p: int|
                0 <= p < cur.len() && (#[trigger] cur[p]).0 == c by {
                if c < n - 1 {
                    let p = choose|p: int| 0 <= p < prev.len() && (#[trigger] prev[p]).0 == c;
                    assert(cur[p] == prev[p]);
                } else {
                    assert(cur[prev.len() as int].0 == c);
                }
            }
        }
    }
}

proof fn lemma_unmatched_empty(k: Seq<Seq<char>>, h: Seq<Seq<char>>, n: int)
    requires
        0 <= n <= k.len(),
        unmatched(k, h, n).len() == 0,
    ensures
        forall|i: int| 0 <= i < n ==> h.contains(#[trigger] k[i]),
    decreases n,
{
    if n > 0 {
        if !h.contains(k[n - 1]) {
            assert(unmatched(k, h, n).len() == unmatched(k, h, n - 1).len() + 1);
        }
        lemma_unmatched_empty(k, h, n - 1);
    }
}

/// Whether every legend code labels exactly one column, and every labelled
/// column carries a legend code.
pub open spec fn covers_legend(labelled: LabelledV, v: Seq<EntryV>) -> bool {
    &&& forall|i: int| 0 <= i < v.len() ==> exists|p: int| 0 <= p < labelled.len() && (#[trigger] labelled[p]).1 == (#[trigger] v[i]).0
    &&& forall|p: int, q: int| 0 <= p < labelled.len() && 0 <= q < labelled.len() && (#[trigger] labelled[p]).1 == (#[trigger] labelled[q]).1 ==> p == q
    &&& forall|p: int| 0 <= p < labelled.len() ==> has_code(v, (#[trigger] labelled[p]).1)
}

/// A labelling that succeeds gives every legend code exactly one column, and
/// labels no column with a code the legend does not declare.
pub proof fn lemma_labels_cover_the_legend(table: Grid, v: Seq<EntryV>)
    requires
        label_spec(table, v) is Ok,
    ensures
        covers_legend(label_spec(table, v)->Ok_0.0, v),
{
    let rows = table@;
    let width = table.width() as int;
    let n = rows.len() as int;
    let d = first_index(n, depth_holds(rows, width, v))->0;
    lemma_first_index(n, depth_holds(rows, width, v));
    let h = headers_at(rows, width, d + 1);
    let k = codes_of(v);
    let labelled = labelled_upto(h, v, width);
    assert(label_spec(table, v)->Ok_0.0 == labelled);
    lemma_first_index(width, repeat_at(h, v));
    lemma_labelled_upto(h, v, width);
    lemma_unmatched_empty(k, h, k.len() as int);
    assert forall|i: int| 0 <= i < v.len() implies exists|p: int|
        0 <= p < labelled.len() && (#[trigger] labelled[p]).1 == (#[trigger] v[i]).0 by {
        assert(k[i] == v[i].0);
        assert(h.contains(k[i]));
        let c = choose|c: int| 0 <= c < h.len() && h[c] == k[i];
        assert(has_code(v, h[c]));
        let p = choose|p: int| 0 <= p < labelled.len() && (#[trigger] labelled[p]).0 == c;
        assert(labelled[p].1 == v[i].0);
    }
    assert forall|p: int, q: int|
        0 <= p < labelled.len() && 0 <= q < labelled.len() && (#[trigger] labelled[p]).1 == (
        #[trigger] labelled[q]).1 implies p == q by {
        if p < q {
            let c1 = labelled[p].0;
            let c2 = labelled[q].0;
            assert(c1 < c2);
            assert(h[c1] == h[c2]);
            assert(repeats(h, v, c2));
            assert(repeat_at(h, v)(c2));
        } else if q < p {
            let c1 = labelled[q].0;
            let c2 = labelled[p].0;
            assert(c1 < c2);
            assert(h[c1] == h[c2]);
            assert(repeats(h, v, c2));
            assert(repeat_at(h, v)(c2));
        }
    }
}

/// The header depth a labelling reports is the shallowest that holds: it holds,
/// and every shallower depth was rejected.
pub proof fn lemma_shallowest_depth_wins(table: Grid, v: Seq<EntryV>)
    requires
        label_spec(table, v) is Ok,
    ensures
        at_depth(table@, table.width() as int, v, label_spec(table, v)->Ok_0.1) is Ok,
        forall|d: int|
            1 <= d < label_spec(table, v)->Ok_0.1 ==> #[trigger] at_depth(table@, table.width() as int, v, d) is Err,
{
    let rows = table@;
    let width = table.width() as int;
    let n = rows.len() as int;
    lemma_first_index(n, depth_holds(rows, width, v));
    assert forall|d: int| 1 <= d < label_spec(table, v)->Ok_0.1 implies #[trigger] at_depth(rows, width, v, d) is Err by {
        assert(!depth_holds(rows, width, v)(d - 1));
    }
}

proof fn lemma_labelled_none(h: Seq<Seq<char>>, v: Seq<EntryV>, n: int)
    requires
        forall|c: int| 0 <= c < n ==> !has_code(v, #[trigger] h[c]),
    ensures
        labelled_upto(h, v, n).len() == 0,
    decreases n,
{
    if n > 0 {
        lemma_labelled_none(h, v, n - 1);
    }
}

proof fn lemma_labelled_run(h: Seq<Seq<char>>, v: Seq<EntryV>, c0: int, n: int)
    requires
        0 <= c0 <= n <= h.len(),
        forall|c: int| 0 <= c < c0 ==> !has_code(v, #[trigger] h[c]),
        forall|c: int| c0 <= c < n ==> has_code(v, #[trigger] h[c]),
    ensures
        labelled_upto(h, v, n).len() == n - c0,
        forall|i: int|
            0 <= i < n - c0 ==> #[trigger] labelled_upto(h, v, n)[i] == (c0 + i, h[c0 + i]),
    decreases n,
{
    if n == c0 {
        lemma_labelled_none(h, v, n);
    } else {
        lemma_labelled_run(h, v, c0, n - 1);
        assert(has_code(v, h[n - 1]));
        let prev = labelled_upto(h, v, n - 1);
        assert(labelled_upto(h, v, n) == prev.push((n - 1, h[n - 1])));
        assert forall|i: int| 0 <= i < n - c0 implies #[trigger] labelled_upto(h, v, n)[i] == (
            c0 + i,
            h[c0 + i],
        ) by {
            if i < n - 1 - c0 {
                assert(labelled_upto(h, v, n)[i] == prev[i]);
            }
        }
    }
}

pub open spec fn has_code_at(h: Seq<Seq<char>>, v: Seq<EntryV>) -> spec_fn(int) -> bool {
    |c: int| has_code(v, h[c])
}

/// A successful labelling of a table with `width` columns under a legend of
/// `n` codes labels exactly `n` columns, and they are the last `n` columns,
/// one after another: every column from the first labelled one to the table's
/// edge carries a code, and none left of it does. The header depth lies
/// between one and the table's row count, and no column's header is blank.
pub proof fn lemma_labels_are_contiguous(table: Grid, v: Seq<EntryV>)
    requires
        label_spec(table, v) is Ok,
        legend_ok(v),
    ensures
        ({
            let (l, depth) = label_spec(table, v)->Ok_0;
            let w = table.width() as int;
            &&& 1 <= depth <= table@.len()
            &&& l.len() == v.len()
            &&& l.len() > 0
            &&& forall|i: int| 0 <= i < l.len() ==> (#[trigger] l[i]).0 == l[0].0 + i
            &&& l[l.len() - 1].0 == w - 1
            &&& forall|i: int| 0 <= i < l.len() ==> 0 <= (#[trigger] l[i]).0 < w
            &&& forall|c: int| 0 <= c < w ==> (#[trigger] headers_at(table@, w, depth)[c]).len() > 0
        }),
{
    broadcast use vstd::seq_lib::group_seq_properties;

    let rows = table@;
    let w = table.width() as int;
    let n = rows.len() as int;
    lemma_first_index(n, depth_holds(rows, w, v));
    let i0 = first_index(n, depth_holds(rows, w, v))->0;
    let d = i0 + 1;
    let h = headers_at(rows, w, d);
    let k = codes_of(v);
    let l = labelled_upto(h, v, w);
    assert(label_spec(table, v)->Ok_0 == (l, d));
    lemma_first_index(w, repeat_at(h, v));
    lemma_first_index(w, blank_at(h));
    lemma_first_index(w, uncovered_at(h, v));
    lemma_unmatched_empty(k, h, k.len() as int);
    assert forall|c: int| 0 <= c < w implies (#[trigger] headers_at(rows, w, d)[c]).len() > 0 by {
        assert(!blank_at(h)(c));
    }
    // Some column carries a code: the legend's first one lands somewhere.
    assert(k[0] == v[0].0);
    assert(h.contains(k[0]));
    let cw = choose|c: int| 0 <= c < h.len() && h[c] == k[0];
    assert(has_code(v, h[cw]));
    assert(has_code_at(h, v)(cw));
    lemma_first_index(w, has_code_at(h, v));
    let c0 = first_index(w, has_code_at(h, v))->0;
    assert forall|c: int| 0 <= c < c0 implies !has_code(v, #[trigger] h[c]) by {
        assert(!has_code_at(h, v)(c));
    }
    assert forall|c: int| c0 <= c < w implies has_code(v, #[trigger] h[c]) by {
        assert(!uncovered_at(h, v)(c));
        assert(has_code(v, h[c0]));
    }
    lemma_labelled_run(h, v, c0, w);
    assert(l[0] == (c0, h[c0]));
    assert(l[l.len() - 1] == (c0 + (w - c0 - 1), h[c0 + (w - c0 - 1)]));
    // As many columns as codes: the labelled codes and the legend's are the
    // same set, and neither repeats.
    lemma_labels_cover_the_legend(table, v);
    let x = l.map_values(|p: (int, Seq<char>)| p.1);
    assert forall|a: int, b: int| 0 <= a < x.len() && 0 <= b < x.len() && a != b implies x[a] != x[b] by {
        assert(x[a] == l[a].1 && x[b] == l[b].1);
    }
    assert(x.no_duplicates());
    assert forall|a: int, b: int| 0 <= a < k.len() && 0 <= b < k.len() && a != b implies k[a] != k[b] by {
        assert(k[a] == v[a].0 && k[b] == v[b].0);
        if a < b {
            assert(v[a].0 != v[b].0);
        } else {
            assert(v[b].0 != v[a].0);
        }
    }
    assert(k.no_duplicates());
    assert forall|c: Seq<char>| x.to_set().contains(c) == k.to_set().contains(c) by {
        if x.contains(c) {
            let a = choose|a: int| 0 <= a < x.len() && x[a] == c;
            assert(x[a] == l[a].1);
            assert(has_code(v, l[a].1));
            let j = choose|j: int| 0 <= j < v.len() && (#[trigger] v[j]).0 == l[a].1;
            assert(k[j] == c);
        }
        if k.contains(c) {
            let j = choose|j: int| 0 <= j < k.len() && k[j] == c;
            assert(k[j] == v[j].0);
            let a = choose|a: int| 0 <= a < l.len() && (#[trigger] l[a]).1 == (#[trigger] v[j]).0;
            assert(x[a] == c);
        }
    }
    assert(x.to_set() =~= k.to_set());
    x.unique_seq_to_set();
    k.unique_seq_to_set();
}

/// No column left of the first component, where the car number, team and
/// driver print, and none past the table's edge carries a code, so
/// `ColumnLabels::code_at` answers `None` there.
pub proof fn lemma_no_code_outside_the_components(table: Grid, v: Seq<EntryV>, c: int)
    requires
        label_spec(table, v) is Ok,
        legend_ok(v),
        c < label_spec(table, v)->Ok_0.0[0].0 || c >= table.width(),
    ensures
        forall|i: int|
            0 <= i < label_spec(table, v)->Ok_0.0.len() ==> (#[trigger] label_spec(table, v)->Ok_0.0[i]).0
                != c,
{
    lemma_labels_are_contiguous(table, v);
}

} // verus!
