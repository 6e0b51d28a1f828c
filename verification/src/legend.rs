//! The legend block of a snapshot document.
//!
//! Every snapshot prints a legend pairing each component code with its
//! description. It is the only complete source of a season's component set:
//! the table header wraps across baselines, and a `New PU elements` document
//! lists only the parts somebody fitted that weekend.
//!
//! Codes are taken verbatim, never normalised. The 2026 documents separate
//! `PU-CE` and `PU-ANC` with U+0002 rather than an ordinary hyphen, and storing
//! what the reader gave keeps the legend and the header in the same alphabet.
use vstd::prelude::*;
use vstd::string::*;

use crate::error::{LabelError, LabelErrorV};
use crate::fact::ComponentCode;
use crate::grid::{cell_of, Grid};
use crate::order::distinct_keys;
use crate::text::{
    lemma_trim_opens_with_ink, char_is_space, first_space, first_space_from, has_space, is_space, lemma_first_space_bounds,
    str_eq, trim, trimmed,
};

verus! {

/// A code and its description, as plain characters.
pub type EntryV = (Seq<char>, Seq<char>);

/// A component code and the description printed beside it.
#[derive(Debug, PartialEq, Eq)]
pub struct LegendEntry {
    code: ComponentCode,
    description: String,
}

impl View for LegendEntry {
    type V = EntryV;

    closed spec fn view(&self) -> EntryV {
        (self.code@, self.description@)
    }
}

impl Clone for LegendEntry {
    fn clone(&self) -> (r: Self)
        ensures
            r@ == self@,
    {
        LegendEntry { code: self.code.clone(), description: self.description.clone() }
    }
}

impl LegendEntry {
    /// The code, exactly as the document printed it.
    pub fn code(&self) -> (r: &ComponentCode)
        ensures
            r@ == self@.0,
    {
        &self.code
    }

    /// The description printed beside the code.
    pub fn description(&self) -> (r: &str)
        ensures
            r@ == self@.1,
    {
        self.description.as_str()
    }
}

/// The entries' codes and descriptions, in order.
pub open spec fn entries_view(v: Seq<LegendEntry>) -> Seq<EntryV> {
    v.map_values(|e: LegendEntry| e@)
}

/// A legend declares at least one code, and no code twice.
pub open spec fn legend_ok(v: Seq<EntryV>) -> bool {
    v.len() > 0 && distinct_keys(v)
}

/// Whether some entry carries exactly `code`.
pub open spec fn has_code(v: Seq<EntryV>, code: Seq<char>) -> bool {
    exists|i: int| 0 <= i < v.len() && (#[trigger] v[i]).0 == code
}

/// The index of the entry carrying `code`, when there is one.
pub open spec fn index_of_code(v: Seq<EntryV>, code: Seq<char>) -> int {
    choose|i: int| 0 <= i < v.len() && (#[trigger] v[i]).0 == code
}

/// With distinct codes, an entry carrying `code` sits at `index_of_code`.
pub proof fn lemma_index_of_code(v: Seq<EntryV>, code: Seq<char>, i: int)
    requires
        distinct_keys(v),
        0 <= i < v.len(),
        v[i].0 == code,
    ensures
        has_code(v, code),
        index_of_code(v, code) == i,
{
    let j = index_of_code(v, code);
    if j != i {
        if j < i {
            assert(v[j].0 != v[i].0);
        } else {
            assert(v[i].0 != v[j].0);
        }
    }
}

/// The component set a snapshot's legend declares, in printed order.
#[derive(Debug, PartialEq, Eq)]
pub struct Legend {
    entries: Vec<LegendEntry>,
}

impl View for Legend {
    type V = Seq<EntryV>;

    closed spec fn view(&self) -> Seq<EntryV> {
        entries_view(self.entries@)
    }
}

impl Clone for Legend {
    fn clone(&self) -> (r: Self)
        ensures
            r@ == self@,
    {
        proof {
            use_type_invariant(self);
        }
        let mut entries: Vec<LegendEntry> = Vec::new();
        let mut i: usize = 0;
        while i < self.entries.len()
            invariant
                i <= self.entries@.len(),
                entries_view(entries@) == entries_view(self.entries@).take(i as int),
            decreases self.entries@.len() - i,
        {
            let ghost prev = entries@;
            let e = self.entries[i].clone();
            entries.push(e);
            proof {
                lemma_entries_push(prev, e);
            }
            assert(entries_view(entries@) =~= entries_view(self.entries@).take(i + 1));
            i = i + 1;
        }
        assert(entries_view(self.entries@).take(i as int) =~= entries_view(self.entries@));
        Legend { entries }
    }
}

proof fn lemma_entries_push(v: Seq<LegendEntry>, e: LegendEntry)
    ensures
        entries_view(v.push(e)) == entries_view(v).push(e@),
{
    assert(entries_view(v.push(e)) =~= entries_view(v).push(e@));
}

/// The index of an entry of `v` carrying `code`, comparing characters.
fn holds_code(v: &Vec<LegendEntry>, code: &str) -> (r: Option<usize>)
    ensures
        match r {
            Some(i) => i < v@.len() && entries_view(v@)[i as int].0 == code@,
            None => !has_code(entries_view(v@), code@),
        },
{
    let mut i: usize = 0;
    while i < v.len()
        invariant
            i <= v@.len(),
            forall|j: int| 0 <= j < i ==> (#[trigger] entries_view(v@)[j]).0 != code@,
        decreases v@.len() - i,
    {
        if str_eq(v[i].code.as_str(), code) {
            return Some(i);
        }
        i = i + 1;
    }
    None
}

impl Legend {
    /// Every legend read from a document declares a code, and none twice.
    #[verifier::type_invariant]
    pub open spec fn wf(self) -> bool {
        legend_ok(self@)
    }

    /// The entries, in the order the document prints them.
    pub fn entries(&self) -> (r: &[LegendEntry])
        ensures
            entries_view(r@) == self@,
            legend_ok(self@),
    {
        proof {
            use_type_invariant(self);
        }
        self.entries.as_slice()
    }

    /// The index of the entry whose code is exactly `code`.
    pub fn position(&self, code: &str) -> (r: Option<usize>)
        ensures
            legend_ok(self@),
            r.is_some() == has_code(self@, code@),
            r.is_some() ==> r.unwrap() == index_of_code(self@, code@),
    {
        proof {
            use_type_invariant(self);
        }
        let r = holds_code(&self.entries, code);
        proof {
            if r.is_some() {
                lemma_index_of_code(self@, code@, r.unwrap() as int);
            }
        }
        r
    }

    /// The entry whose code is exactly `code`.
    pub fn entry(&self, code: &str) -> (r: Option<&LegendEntry>)
        ensures
            r.is_some() == has_code(self@, code@),
            r.is_some() ==> r.unwrap()@ == self@[index_of_code(self@, code@)],
    {
        match self.position(code) {
            Some(i) => Some(&self.entries[i]),
            None => None,
        }
    }

    /// Rename the entry printing `printed` to `meant`, keeping its description.
    ///
    /// A legend that does not print `printed` passes through untouched. One
    /// that also declares `meant` refuses, because the rename would merge two
    /// components into one.
    pub fn rename(&mut self, printed: &str, meant: &str) -> (r: Result<(), LabelError>)
        ensures
            r.is_ok() == (!has_code(old(self)@, printed@) || !has_code(old(self)@, meant@)),
            match r {
                Ok(()) => final(self)@ == rename_spec(old(self)@, printed@, meant@),
                Err(e) => e@ == (LabelErrorV::CorrectionWouldMergeCodes {
                    printed: printed@,
                    meant: meant@,
                }) && final(self)@ == old(self)@,
            },
    {
        proof {
            use_type_invariant(&*self);
        }
        let at = match holds_code(&self.entries, printed) {
            None => return Ok(()),
            Some(at) => at,
        };
        if holds_code(&self.entries, meant).is_some() {
            return Err(
                LabelError::CorrectionWouldMergeCodes {
                    printed: String::from_str(printed),
                    meant: String::from_str(meant),
                },
            );
        }
        let ghost before = self@;
        proof {
            lemma_index_of_code(before, printed@, at as int);
        }
        let mut entries: Vec<LegendEntry> = Vec::new();
        let mut i: usize = 0;
        while i < self.entries.len()
            invariant
                i <= self.entries@.len(),
                at < self.entries@.len(),
                before == entries_view(self.entries@),
                entries_view(entries@) == rename_spec(before, printed@, meant@).take(i as int),
                rename_spec(before, printed@, meant@) == before.update(
                    at as int,
                    (meant@, before[at as int].1),
                ),
            decreases self.entries@.len() - i,
        {
            let ghost prev = entries@;
            let e = if i == at {
                LegendEntry {
                    code: ComponentCode::new(meant),
                    description: self.entries[i].description.clone(),
                }
            } else {
                self.entries[i].clone()
            };
            entries.push(e);
            proof {
                lemma_entries_push(prev, e);
            }
            assert(entries_view(entries@) =~= rename_spec(before, printed@, meant@).take(i + 1));
            i = i + 1;
        }
        proof {
            let after = rename_spec(before, printed@, meant@);
            assert(after.take(i as int) =~= after);
            assert forall|a: int, b: int| 0 <= a < b < after.len() implies (#[trigger] after[a]).0
                != (#[trigger] after[b]).0 by {
                if a == at {
                    assert(before[b].0 == after[b].0);
                    assert(!has_code(before, meant@));
                    assert(before[b].0 != meant@);
                } else if b == at {
                    assert(before[a].0 == after[a].0);
                    assert(before[a].0 != meant@);
                } else {
                    assert(before[a].0 != before[b].0);
                }
            }
        }
        self.entries = entries;
        Ok(())
    }
}

/// The legend after renaming `printed` to `meant`, where the rename applies.
pub open spec fn rename_spec(v: Seq<EntryV>, printed: Seq<char>, meant: Seq<char>) -> Seq<EntryV> {
    if has_code(v, printed) && !has_code(v, meant) {
        let i = index_of_code(v, printed);
        v.update(i, (meant, v[i].1))
    } else {
        v
    }
}

/// What a column of a legend band holds.
///
/// A cut between columns is global to the grid: a pair of columns splits for
/// every entry it holds or for none. So what a cell is belongs to its column.
#[derive(Debug, Clone, Copy, PartialEq, Eq, Structural)]
pub enum ColumnKind {
    /// Codes the boundaries cut away from their descriptions, or an empty
    /// column. Every cell is a lone token.
    Codes,
    /// Whole entries, each padding its own code out to a description.
    Entries,
    /// Descriptions cut from the codes in the column to the left.
    Descriptions,
}

/// Whether the characters at `i` and `i + 1` are both whitespace.
pub open spec fn space_pair(s: Seq<char>, i: int) -> bool {
    0 <= i && i + 1 < s.len() && is_space(s[i]) && is_space(s[i + 1])
}

/// Whether a cell holds a run of whitespace, which is how a document pads a
/// code out to its description's column.
pub open spec fn pads(s: Seq<char>) -> bool {
    exists|i: int| #[trigger] space_pair(s, i)
}

/// A legend cell's text, trimmed.
pub open spec fn legend_cell(rows: Seq<Seq<Seq<char>>>, row: int, col: int) -> Seq<char> {
    trim(cell_of(rows, row, col))
}

/// A column holding a padded cell holds entries; one whose every cell is a lone
/// token holds codes; any other holds descriptions.
pub open spec fn kind_of(rows: Seq<Seq<Seq<char>>>, col: int) -> ColumnKind {
    if exists|r: int| 0 <= r < rows.len() && pads(#[trigger] legend_cell(rows, r, col)) {
        ColumnKind::Entries
    } else if forall|r: int| 0 <= r < rows.len() ==> !has_space(#[trigger] legend_cell(rows, r, col)) {
        ColumnKind::Codes
    } else {
        ColumnKind::Descriptions
    }
}

/// What reading the cell at `row` and `col` yields.
pub enum Opened {
    /// An empty cell.
    Blank,
    /// An entry: its code, its description, and whether it took the
    /// description from the column to the right.
    Entry(Seq<char>, Seq<char>, bool),
    /// A refusal.
    Refused(LabelErrorV),
}

/// A cell holding whitespace is a code up to its first whitespace and a
/// description after it. A bare code takes the column to its right, when that
/// column holds descriptions alone.
pub open spec fn opened_at(rows: Seq<Seq<Seq<char>>>, width: int, row: int, col: int) -> Opened {
    let cell = legend_cell(rows, row, col);
    if cell.len() == 0 {
        Opened::Blank
    } else if has_space(cell) {
        let k = first_space_from(cell, 0);
        let description = trim(cell.skip(k + 1));
        if description.len() == 0 {
            Opened::Refused(LabelErrorV::LegendEntryWithoutDescription { entry: cell })
        } else {
            Opened::Entry(cell.take(k), description, false)
        }
    } else if col + 1 < width && kind_of(rows, col + 1) == ColumnKind::Descriptions {
        let description = legend_cell(rows, row, col + 1);
        if description.len() == 0 {
            Opened::Refused(LabelErrorV::LegendEntryWithoutDescription { entry: cell })
        } else {
            Opened::Entry(cell, description, true)
        }
    } else {
        Opened::Refused(LabelErrorV::LegendEntryWithoutDescription { entry: cell })
    }
}

/// The legend read from `row` and `col` on, rows top to bottom and columns
/// left to right, having read `acc` so far.
pub open spec fn legend_from(
    rows: Seq<Seq<Seq<char>>>,
    width: int,
    row: int,
    col: int,
    acc: Seq<EntryV>,
) -> Result<Seq<EntryV>, LabelErrorV>
    decreases rows.len() - row, width - col,
{
    if row >= rows.len() {
        if acc.len() == 0 {
            Err(LabelErrorV::EmptyLegend)
        } else {
            Ok(acc)
        }
    } else if col >= width {
        legend_from(rows, width, row + 1, 0, acc)
    } else {
        match opened_at(rows, width, row, col) {
            Opened::Blank => legend_from(rows, width, row, col + 1, acc),
            Opened::Refused(e) => Err(e),
            Opened::Entry(code, description, joined) => {
                if has_code(acc, code) {
                    Err(LabelErrorV::DuplicateLegendCode { code })
                } else if joined {
                    legend_from(rows, width, row, col + 2, acc.push((code, description)))
                } else {
                    legend_from(rows, width, row, col + 1, acc.push((code, description)))
                }
            },
        }
    }
}

/// The legend a grid declares: every cell read in turn.
pub open spec fn read_legend_spec(grid: Grid) -> Result<Seq<EntryV>, LabelErrorV> {
    legend_from(grid@, grid.width() as int, 0, 0, Seq::empty())
}

/// Whether a cell holds a run of whitespace.
///
/// The cell must be trimmed, so that only a run between two words counts.
fn pads_a_code(cell: &str) -> (r: bool)
    ensures
        r == pads(cell@),
{
    let n = cell.unicode_len();
    let mut after_whitespace = false;
    let mut i: usize = 0;
    while i < n
        invariant
            n == cell@.len(),
            i <= n,
            after_whitespace == (i > 0 && is_space(cell@[i - 1])),
            forall|j: int| j + 1 < i ==> !#[trigger] space_pair(cell@, j),
        decreases n - i,
    {
        let whitespace = char_is_space(cell.get_char(i));
        if whitespace && after_whitespace {
            assert(space_pair(cell@, i - 1));
            return true;
        }
        after_whitespace = whitespace;
        i = i + 1;
    }
    proof {
        assert forall|j: int| !#[trigger] space_pair(cell@, j) by {
            if j + 1 >= i {
            }
        }
    }
    false
}

/// Read a column's kind off its non-empty cells.
fn column_kind(grid: &Grid, column: usize) -> (r: ColumnKind)
    ensures
        r == kind_of(grid@, column as int),
{
    let rows = grid.row_count();
    let mut all_lone_tokens = true;
    let mut row: usize = 0;
    while row < rows
        invariant
            rows == grid@.len(),
            row <= rows,
            forall|r: int| 0 <= r < row ==> !pads(#[trigger] legend_cell(grid@, r, column as int)),
            all_lone_tokens == forall|r: int|
                0 <= r < row ==> !has_space(#[trigger] legend_cell(grid@, r, column as int)),
        decreases rows - row,
    {
        let cell = trimmed(grid.cell(row, column));
        assert(cell@ == legend_cell(grid@, row as int, column as int));
        if pads_a_code(cell.as_str()) {
            return ColumnKind::Entries;
        }
        if first_space(cell.as_str()) < cell.as_str().unicode_len() {
            all_lone_tokens = false;
        }
        row = row + 1;
    }
    if all_lone_tokens {
        ColumnKind::Codes
    } else {
        ColumnKind::Descriptions
    }
}

/// Read a legend block, pairing each code with its description.
///
/// `grid` must cover the legend band alone. Each non-empty cell is one entry,
/// the code up to the first whitespace and the description after it. A cell
/// holding a bare code is rejoined with the cell to its right, when that
/// column holds descriptions and nothing else; anything else refuses.
pub fn read_legend(grid: &Grid) -> (r: Result<Legend, LabelError>)
    ensures
        match r {
            Ok(legend) => read_legend_spec(*grid) == Ok::<Seq<EntryV>, LabelErrorV>(legend@),
            Err(e) => read_legend_spec(*grid) == Err::<Seq<EntryV>, LabelErrorV>(e@),
        },
{
    let width = grid.column_count();
    let rows = grid.row_count();
    let ghost total = read_legend_spec(*grid);
    let mut kinds: Vec<ColumnKind> = Vec::new();
    let mut c: usize = 0;
    while c < width
        invariant
            c <= width,
            kinds@.len() == c,
            forall|k: int| 0 <= k < c ==> kinds@[k] == kind_of(grid@, k),
        decreases width - c,
    {
        kinds.push(column_kind(grid, c));
        c = c + 1;
    }

    let mut entries: Vec<LegendEntry> = Vec::new();
    assert(entries_view(entries@) =~= Seq::empty());
    let mut row: usize = 0;
    while row < rows
        invariant
            rows == grid@.len(),
            width == grid.width(),
            row <= rows,
            kinds@.len() == width,
            forall|k: int| 0 <= k < width ==> kinds@[k] == kind_of(grid@, k),
            distinct_keys(entries_view(entries@)),
            legend_from(grid@, width as int, row as int, 0, entries_view(entries@)) == total,
            total == read_legend_spec(*grid),
        decreases rows - row,
    {
        let mut column: usize = 0;
        while column < width
            invariant
                rows == grid@.len(),
                width == grid.width(),
                row < rows,
                column <= width + 1,
                kinds@.len() == width,
                forall|k: int| 0 <= k < width ==> kinds@[k] == kind_of(grid@, k),
                distinct_keys(entries_view(entries@)),
                legend_from(grid@, width as int, row as int, column as int, entries_view(entries@))
                    == total,
                total == read_legend_spec(*grid),
            decreases width + 1 - column,
        {
            let ghost acc = entries_view(entries@);
            let ghost old_entries = entries@;
            let cell = trimmed(grid.cell(row, column));
            assert(cell@ == legend_cell(grid@, row as int, column as int));
            let n = cell.as_str().unicode_len();
            if n == 0 {
                column = column + 1;
                continue;
            }
            let k = first_space(cell.as_str());
            proof {
                lemma_first_space_bounds(cell@, 0);
            }
            let code: String;
            let description: String;
            let joined: bool;
            if k < n {
                code = String::from_str(cell.as_str().substring_char(0, k));
                description = trimmed(cell.as_str().substring_char(k + 1, n));
                joined = false;
                assert(code@ =~= cell@.take(k as int));
                assert(cell@.subrange(k + 1, n as int) =~= cell@.skip(k + 1));
            } else {
                if !(column + 1 < width && kinds[column + 1] == ColumnKind::Descriptions) {
                    return Err(LabelError::LegendEntryWithoutDescription { entry: cell });
                }
                code = cell.clone();
                description = trimmed(grid.cell(row, column + 1));
                joined = true;
                assert(description@ == legend_cell(grid@, row as int, column + 1));
            }
            if description.as_str().unicode_len() == 0 {
                return Err(LabelError::LegendEntryWithoutDescription { entry: cell });
            }
            if holds_code(&entries, code.as_str()).is_some() {
                return Err(LabelError::DuplicateLegendCode { code });
            }
            let ghost pair = (code@, description@);
            let e = LegendEntry { code: ComponentCode::from_string(code), description };
            entries.push(e);
            proof {
                lemma_entries_push(entries@.drop_last(), e);
                assert(entries@.drop_last() == old_entries);
                assert(entries_view(entries@) =~= acc.push(pair));
                assert forall|j: int| 0 <= j < acc.len() implies (#[trigger] acc[j]).0 != pair.0 by {
                }
                crate::order::lemma_distinct_push(acc, pair);
            }
            if joined {
                column = column + 2;
            } else {
                column = column + 1;
            }
        }
        row = row + 1;
    }
    if entries.len() == 0 {
        return Err(LabelError::EmptyLegend);
    }
    Ok(Legend { entries })
}

/// An entry as the legend reads it: a code that is not empty, holds no
/// whitespace and opens some cell's trimmed text verbatim, beside a description
/// that is not empty.
pub open spec fn entry_read(rows: Seq<Seq<Seq<char>>>, e: EntryV) -> bool {
    &&& e.0.len() > 0
    &&& e.1.len() > 0
    &&& forall|i: int| 0 <= i < e.0.len() ==> !is_space(#[trigger] e.0[i])
    &&& exists|r: int, c: int|
        0 <= r < rows.len() && e.0.len() <= legend_cell(rows, r, c).len() && (#[trigger] legend_cell(
            rows,
            r,
            c,
        )).take(e.0.len() as int) == e.0
}

/// Every cell from `(row, col)` on, in reading order, is blank.
pub open spec fn blank_from(rows: Seq<Seq<Seq<char>>>, width: int, row: int, col: int) -> bool {
    forall|r: int, c: int|
        0 <= c < width && ((r == row && col <= c) || (row < r < rows.len())) ==> (#[trigger] legend_cell(
            rows,
            r,
            c,
        )).len() == 0
}

proof fn lemma_legend_from(rows: Seq<Seq<Seq<char>>>, width: int, row: int, col: int, acc: Seq<EntryV>)
    requires
        0 <= row,
        0 <= col,
        forall|i: int| 0 <= i < acc.len() ==> entry_read(rows, #[trigger] acc[i]),
    ensures
        legend_from(rows, width, row, col, acc) is Ok ==> legend_from(rows, width, row, col, acc)->Ok_0.len() > 0
            && forall|i: int|
            0 <= i < legend_from(rows, width, row, col, acc)->Ok_0.len() ==> entry_read(
                rows,
                #[trigger] legend_from(rows, width, row, col, acc)->Ok_0[i],
            ),
        (legend_from(rows, width, row, col, acc) == Err::<Seq<EntryV>, LabelErrorV>(LabelErrorV::EmptyLegend))
            == (acc.len() == 0 && blank_from(rows, width, row, col)),
    decreases rows.len() - row, width - col,
{
    let empty: Result<Seq<EntryV>, LabelErrorV> = Err(LabelErrorV::EmptyLegend);
    if row >= rows.len() {
        lemma_trim_opens_with_ink(Seq::empty());
        assert forall|r: int, c: int|
            0 <= c < width && ((r == row && col <= c) || (row < r < rows.len())) implies (
            #[trigger] legend_cell(rows, r, c)).len() == 0 by {
            assert(cell_of(rows, r, c) == Seq::<char>::empty());
        }
    } else if col >= width {
        lemma_legend_from(rows, width, row + 1, 0, acc);
        assert(blank_from(rows, width, row, col) == blank_from(rows, width, row + 1, 0));
    } else {
        let cell = legend_cell(rows, row, col);
        match opened_at(rows, width, row, col) {
            Opened::Blank => {
                lemma_legend_from(rows, width, row, col + 1, acc);
                if blank_from(rows, width, row, col + 1) {
                    assert forall|r: int, c: int|
                        0 <= c < width && ((r == row && col <= c) || (row < r < rows.len())) implies (
                        #[trigger] legend_cell(rows, r, c)).len() == 0 by {
                        if !(r == row && c == col) {
                            assert((r == row && col + 1 <= c) || (row < r < rows.len()));
                        }
                    }
                }
            },
            Opened::Refused(e) => {
                assert(cell.len() > 0);
                assert(!blank_from(rows, width, row, col));
            },
            Opened::Entry(code, description, joined) => {
                assert(cell.len() > 0);
                assert(!blank_from(rows, width, row, col));
                if !has_code(acc, code) {
                    lemma_trim_opens_with_ink(cell_of(rows, row, col));
                    if has_space(cell) {
                        let k = first_space_from(cell, 0);
                        lemma_first_space_bounds(cell, 0);
                        assert(k > 0);
                        assert forall|i: int| 0 <= i < code.len() implies !is_space(#[trigger] code[i]) by {
                            assert(code[i] == cell[i]);
                        }
                    } else {
                        lemma_first_space_bounds(cell, 0);
                        assert(cell.take(cell.len() as int) =~= cell);
                    }
                    let e = (code, description);
                    assert(legend_cell(rows, row, col).take(code.len() as int) == code);
                    assert(entry_read(rows, e));
                    let next = acc.push(e);
                    assert forall|i: int| 0 <= i < next.len() implies entry_read(rows, #[trigger] next[i]) by {
                        if i < acc.len() {
                            assert(next[i] == acc[i]);
                        }
                    }
                    if joined {
                        lemma_legend_from(rows, width, row, col + 2, next);
                    } else {
                        lemma_legend_from(rows, width, row, col + 1, next);
                    }
                }
            },
        }
    }
}

/// Entry `e` is read from the cell at `row` and `col`: its code opens that
/// cell's trimmed text.
pub open spec fn read_at(rows: Seq<Seq<Seq<char>>>, e: EntryV, row: int, col: int) -> bool {
    &&& 0 <= row < rows.len()
    &&& 0 <= col
    &&& e.0.len() <= legend_cell(rows, row, col).len()
    &&& legend_cell(rows, row, col).take(e.0.len() as int) == e.0
}

/// Cell `p` comes before cell `q` in reading order: rows top to bottom, then
/// columns left to right.
pub open spec fn reads_before(p: (int, int), q: (int, int)) -> bool {
    p.0 < q.0 || (p.0 == q.0 && p.1 < q.1)
}

/// Each entry of `v` is read from the cell `at` gives it, and those cells come
/// in reading order.
pub open spec fn in_reading_order(rows: Seq<Seq<Seq<char>>>, v: Seq<EntryV>, at: Seq<(int, int)>) -> bool {
    &&& at.len() == v.len()
    &&& forall|i: int| 0 <= i < v.len() ==> read_at(rows, #[trigger] v[i], at[i].0, at[i].1)
    &&& forall|i: int, j: int| 0 <= i < j < at.len() ==> reads_before(#[trigger] at[i], #[trigger] at[j])
}

proof fn lemma_legend_order(
    rows: Seq<Seq<Seq<char>>>,
    width: int,
    row: int,
    col: int,
    acc: Seq<EntryV>,
    at: Seq<(int, int)>,
) -> (out: Seq<(int, int)>)
    requires
        0 <= row,
        0 <= col,
        in_reading_order(rows, acc, at),
        forall|i: int| 0 <= i < at.len() ==> reads_before(#[trigger] at[i], (row, col)),
    ensures
        legend_from(rows, width, row, col, acc) is Ok ==> in_reading_order(
            rows,
            legend_from(rows, width, row, col, acc)->Ok_0,
            out,
        ),
    decreases rows.len() - row, width - col,
{
    if row >= rows.len() {
        at
    } else if col >= width {
        lemma_legend_order(rows, width, row + 1, 0, acc, at)
    } else {
        let cell = legend_cell(rows, row, col);
        match opened_at(rows, width, row, col) {
            Opened::Blank => lemma_legend_order(rows, width, row, col + 1, acc, at),
            Opened::Refused(e) => at,
            Opened::Entry(code, description, joined) => {
                if has_code(acc, code) {
                    at
                } else {
                    lemma_trim_opens_with_ink(cell_of(rows, row, col));
                    if has_space(cell) {
                        lemma_first_space_bounds(cell, 0);
                    } else {
                        lemma_first_space_bounds(cell, 0);
                        assert(cell.take(cell.len() as int) =~= cell);
                    }
                    let e = (code, description);
                    assert(read_at(rows, e, row, col));
                    let next = acc.push(e);
                    let next_at = at.push((row, col));
                    assert forall|i: int| 0 <= i < next.len() implies read_at(rows, #[trigger] next[i], next_at[i].0, next_at[i].1) by {
                        if i < acc.len() {
                            assert(next[i] == acc[i]);
                            assert(next_at[i] == at[i]);
                        }
                    }
                    assert forall|i: int, j: int| 0 <= i < j < next_at.len() implies reads_before(#[trigger] next_at[i], #[trigger] next_at[j]) by {
                        assert(next_at[i] == at[i]);
                        if j < at.len() {
                            assert(next_at[j] == at[j]);
                        }
                    }
                    if joined {
                        assert forall|i: int| 0 <= i < next_at.len() implies reads_before(#[trigger] next_at[i], (row, col + 2)) by {
                            if i < at.len() {
                                assert(next_at[i] == at[i]);
                            }
                        }
                        lemma_legend_order(rows, width, row, col + 2, next, next_at)
                    } else {
                        assert forall|i: int| 0 <= i < next_at.len() implies reads_before(#[trigger] next_at[i], (row, col + 1)) by {
                            if i < at.len() {
                                assert(next_at[i] == at[i]);
                            }
                        }
                        lemma_legend_order(rows, width, row, col + 1, next, next_at)
                    }
                }
            },
        }
    }
}

/// What a legend read from a grid holds: at least one entry, no code twice,
/// each code not empty, free of whitespace and taken verbatim from the start
/// of a cell's trimmed text, each description not empty, and the entries in
/// the reading order of their cells, rows top to bottom and columns left to
/// right. The grid reads as an empty legend exactly when every cell is blank.
pub proof fn lemma_legend_as_read(grid: Grid)
    ensures
        read_legend_spec(grid) is Ok ==> legend_ok(read_legend_spec(grid)->Ok_0) && forall|i: int|
            0 <= i < read_legend_spec(grid)->Ok_0.len() ==> entry_read(
                grid@,
                #[trigger] read_legend_spec(grid)->Ok_0[i],
            ),
        read_legend_spec(grid) is Ok ==> exists|at: Seq<(int, int)>|
            in_reading_order(grid@, read_legend_spec(grid)->Ok_0, at),
        (read_legend_spec(grid) == Err::<Seq<EntryV>, LabelErrorV>(LabelErrorV::EmptyLegend)) == (forall|
            r: int,
            c: int,
        |
            0 <= r < grid@.len() && 0 <= c < grid.width() ==> (#[trigger] legend_cell(grid@, r, c)).len()
                == 0),
{
    lemma_legend_from(grid@, grid.width() as int, 0, 0, Seq::empty());
    lemma_legend_distinct(grid@, grid.width() as int, 0, 0, Seq::empty());
    let at = lemma_legend_order(grid@, grid.width() as int, 0, 0, Seq::empty(), Seq::empty());
    if read_legend_spec(grid) is Ok {
        assert(in_reading_order(grid@, read_legend_spec(grid)->Ok_0, at));
    }
    assert(blank_from(grid@, grid.width() as int, 0, 0) == (forall|r: int, c: int|
        0 <= r < grid@.len() && 0 <= c < grid.width() ==> (#[trigger] legend_cell(grid@, r, c)).len()
            == 0));
}

proof fn lemma_legend_distinct(rows: Seq<Seq<Seq<char>>>, width: int, row: int, col: int, acc: Seq<EntryV>)
    requires
        distinct_keys(acc),
    ensures
        legend_from(rows, width, row, col, acc) is Ok ==> distinct_keys(
            legend_from(rows, width, row, col, acc)->Ok_0,
        ),
    decreases rows.len() - row, width - col,
{
    if row < rows.len() {
        if col >= width {
            lemma_legend_distinct(rows, width, row + 1, 0, acc);
        } else {
            match opened_at(rows, width, row, col) {
                Opened::Blank => lemma_legend_distinct(rows, width, row, col + 1, acc),
                Opened::Refused(_) => {},
                Opened::Entry(code, description, joined) => {
                    if !has_code(acc, code) {
                        crate::order::lemma_distinct_push(acc, (code, description));
                        if joined {
                            lemma_legend_distinct(rows, width, row, col + 2, acc.push((code, description)));
                        } else {
                            lemma_legend_distinct(rows, width, row, col + 1, acc.push((code, description)));
                        }
                    }
                },
            }
        }
    }
}

} // verus!
