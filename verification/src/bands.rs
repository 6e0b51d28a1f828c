//! The two bands of a snapshot page, and the rule that picks the table band.
//!
//! A legend description runs across the columns beneath it without an
//! internal gap, so the legend and the table have to be clustered apart. Which
//! rows print like a table row is a question of geometry, answered before any
//! grid exists; what is decided here is what those answers mean.
//!
//! The table prints in one block. A page prints one table, so its table rows
//! run consecutively: two blocks mean a rule has already failed, and the page
//! is refused rather than keep the longer one, because a table short of its
//! last drivers looks whole. The block must also reach [`MIN_TABLE_ROWS`], the
//! least a header row and a data row occupy.
use vstd::prelude::*;

use core::ops::Range;

use crate::error::BandError;
use crate::grid::Grid;

verus! {

/// Fewest rows a block can hold and still be a table: a header row and a data
/// row.
pub const MIN_TABLE_ROWS: usize = 2;

/// The two bands of a snapshot page, each clustered on its own.
#[derive(Debug, PartialEq, Eq)]
pub struct Bands {
    legend: Grid,
    table: Grid,
}

impl Bands {
    /// Pair a page's legend band with its table band.
    pub fn new(legend: Grid, table: Grid) -> (r: Bands)
        ensures
            r.legend_spec() == legend,
            r.table_spec() == table,
    {
        Bands { legend, table }
    }

    /// The legend band.
    pub closed spec fn legend_spec(&self) -> Grid {
        self.legend
    }

    /// The table band.
    pub closed spec fn table_spec(&self) -> Grid {
        self.table
    }

    /// The legend band, for [`read_legend`](crate::read_legend).
    pub fn legend(&self) -> (r: &Grid)
        ensures
            *r == self.legend_spec(),
    {
        &self.legend
    }

    /// The table band, header rows first, for
    /// [`label_columns`](crate::label_columns).
    pub fn table(&self) -> (r: &Grid)
        ensures
            *r == self.table_spec(),
    {
        &self.table
    }
}

/// Rows `start..end` are all flagged, and the flags on either side are not.
pub open spec fn is_block(flags: Seq<bool>, start: int, end: int) -> bool {
    &&& 0 <= start < end <= flags.len()
    &&& forall|k: int| start <= k < end ==> #[trigger] flags[k]
    &&& start == 0 || !flags[start - 1]
    &&& end == flags.len() || !flags[end]
}

/// `blocks` lists every block of `flags`, top to bottom.
pub open spec fn blocks_spec(flags: Seq<bool>, blocks: Seq<Range<usize>>) -> bool {
    &&& forall|i: int|
        0 <= i < blocks.len() ==> is_block(
            flags,
            (#[trigger] blocks[i]).start as int,
            blocks[i].end as int,
        )
    &&& forall|i: int, j: int|
        0 <= i < j < blocks.len() ==> (#[trigger] blocks[i]).end < (#[trigger] blocks[j]).start
    &&& forall|k: int|
        0 <= k < flags.len() && #[trigger] flags[k] ==> exists|i: int|
            0 <= i < blocks.len() && (#[trigger] blocks[i]).start <= k < blocks[i].end
}

/// Every block of consecutive `true` flags, top to bottom.
pub fn blocks_of(flags: &[bool]) -> (r: Vec<Range<usize>>)
    ensures
        blocks_spec(flags@, r@),
{
    let n = flags.len();
    let mut blocks: Vec<Range<usize>> = Vec::new();
    let mut start: Option<usize> = None;
    let mut index: usize = 0;
    while index < n
        invariant
            n == flags@.len(),
            index <= n,
            match start {
                Some(s) => s < index && (forall|k: int| s <= k < index ==> #[trigger] flags@[k]) && (s
                    == 0 || !flags@[s - 1]),
                None => index == 0 || !flags@[index - 1],
            },
            forall|i: int|
                0 <= i < blocks@.len() ==> is_block(
                    flags@,
                    (#[trigger] blocks@[i]).start as int,
                    blocks@[i].end as int,
                ) && blocks@[i].end < index,
            forall|i: int, j: int|
                0 <= i < j < blocks@.len() ==> (#[trigger] blocks@[i]).end < (
                #[trigger] blocks@[j]).start,
            forall|i: int|
                0 <= i < blocks@.len() && start is Some ==> (#[trigger] blocks@[i]).end < start->0,
            forall|k: int|
                0 <= k < index && #[trigger] flags@[k] ==> (exists|i: int|
                    0 <= i < blocks@.len() && (#[trigger] blocks@[i]).start <= k < blocks@[i].end)
                    || (start is Some && start->0 <= k),
        decreases n - index,
    {
        let flag = flags[index];
        match start {
            None => {
                if flag {
                    start = Some(index);
                }
            },
            Some(open) => {
                if !flag {
                    let ghost prev = blocks@;
                    blocks.push(open..index);
                    proof {
                        assert(blocks@[prev.len() as int] == (open..index));
                        assert forall|k: int|
                            0 <= k < index + 1 && #[trigger] flags@[k] implies exists|i: int|
                            0 <= i < blocks@.len() && (#[trigger] blocks@[i]).start <= k
                                < blocks@[i].end by {
                            if open <= k {
                                assert(blocks@[prev.len() as int].start <= k);
                            } else {
                                let i = choose|i: int|
                                    0 <= i < prev.len() && (#[trigger] prev[i]).start <= k
                                        < prev[i].end;
                                assert(blocks@[i] == prev[i]);
                            }
                        }
                    }
                    start = None;
                }
            },
        }
        index = index + 1;
    }
    if let Some(open) = start {
        let ghost prev = blocks@;
        blocks.push(open..n);
        proof {
            assert(blocks@[prev.len() as int] == (open..n));
            assert forall|k: int| 0 <= k < n && #[trigger] flags@[k] implies exists|i: int|
                0 <= i < blocks@.len() && (#[trigger] blocks@[i]).start <= k < blocks@[i].end by {
                if open <= k {
                    assert(blocks@[prev.len() as int].start <= k);
                } else {
                    let i = choose|i: int|
                        0 <= i < prev.len() && (#[trigger] prev[i]).start <= k < prev[i].end;
                    assert(blocks@[i] == prev[i]);
                }
            }
        }
    }
    blocks
}

proof fn lemma_same_block(flags: Seq<bool>, s1: int, e1: int, s2: int, e2: int, k: int)
    requires
        is_block(flags, s1, e1),
        is_block(flags, s2, e2),
        s1 <= k < e1,
        s2 <= k < e2,
    ensures
        s1 == s2,
        e1 == e2,
{
    if s1 < s2 {
        assert(flags[s2 - 1]);
    } else if s2 < s1 {
        assert(flags[s1 - 1]);
    }
    if e1 < e2 {
        assert(flags[e1]);
    } else if e2 < e1 {
        assert(flags[e2]);
    }
}

/// The block holding row `k`, among those `blocks` lists.
proof fn lemma_block_of(flags: Seq<bool>, blocks: Seq<Range<usize>>, k: int) -> (i: int)
    requires
        blocks_spec(flags, blocks),
        0 <= k < flags.len(),
        flags[k],
    ensures
        0 <= i < blocks.len(),
        blocks[i].start <= k < blocks[i].end,
{
    choose|i: int| 0 <= i < blocks.len() && (#[trigger] blocks[i]).start <= k < blocks[i].end
}

/// A page's flags determine its blocks: any two lists that each name every
/// block, top to bottom, are the same list.
pub proof fn lemma_blocks_unique(flags: Seq<bool>, b1: Seq<Range<usize>>, b2: Seq<Range<usize>>)
    requires
        blocks_spec(flags, b1),
        blocks_spec(flags, b2),
    ensures
        b1 == b2,
{
    lemma_blocks_prefix(flags, b1, b2, b1.len() as int);
    lemma_blocks_prefix(flags, b2, b1, b2.len() as int);
    assert(b1 =~= b2);
}

proof fn lemma_blocks_prefix(flags: Seq<bool>, b1: Seq<Range<usize>>, b2: Seq<Range<usize>>, n: int)
    requires
        blocks_spec(flags, b1),
        blocks_spec(flags, b2),
        0 <= n <= b1.len(),
    ensures
        n <= b2.len(),
        forall|j: int| 0 <= j < n ==> b1[j] == b2[j],
    decreases n,
{
    if n > 0 {
        let i = n - 1;
        lemma_blocks_prefix(flags, b1, b2, i);
        assert(is_block(flags, b1[i].start as int, b1[i].end as int));
        let k = b1[i].start as int;
        assert(flags[k]);
        let j = lemma_block_of(flags, b2, k);
        assert(is_block(flags, b2[j].start as int, b2[j].end as int));
        lemma_same_block(flags, b1[i].start as int, b1[i].end as int, b2[j].start as int, b2[j].end as int, k);
        if j < i {
            assert(b1[j] == b2[j]);
            assert(b1[j].end < b1[i].start);
        } else if j > i {
            assert(is_block(flags, b2[i].start as int, b2[i].end as int));
            let k2 = b2[i].start as int;
            assert(flags[k2]);
            let j2 = lemma_block_of(flags, b1, k2);
            assert(is_block(flags, b1[j2].start as int, b1[j2].end as int));
            lemma_same_block(flags, b1[j2].start as int, b1[j2].end as int, b2[i].start as int, b2[i].end as int, k2);
            if j2 < i {
                assert(b1[j2] == b2[j2]);
                assert(b2[j2].end < b2[i].start);
            } else if j2 == i {
                assert(b2[i].end < b2[j].start);
            } else {
                assert(b1[i].end < b1[j2].start);
                assert(b2[i].end < b2[j].start);
            }
        }
        assert(b1[i] == b2[i]);
    }
}

/// The page's one block of table rows: the only block there is, and at least
/// [`MIN_TABLE_ROWS`] long.
pub open spec fn table_band_spec(flags: Seq<bool>, blocks: Seq<Range<usize>>) -> Result<
    Range<usize>,
    BandError,
> {
    if blocks.len() == 0 {
        Err(BandError::NoTableBand)
    } else if blocks.len() > 1 {
        Err(BandError::SplitTable { blocks: blocks.len() as usize })
    } else if blocks[0].end - blocks[0].start < MIN_TABLE_ROWS {
        Err(BandError::ShortTableBand { rows: (blocks[0].end - blocks[0].start) as usize })
    } else {
        Ok(blocks[0])
    }
}

/// The page's one block of table rows.
///
/// Refuses every page that does not print exactly one block of at least
/// [`MIN_TABLE_ROWS`] rows. Keeping the longest of several would return a
/// table short of the rows in the blocks dropped, and a short table reads as
/// whole.
pub fn table_band(table_row: &[bool]) -> (r: Result<Range<usize>, BandError>)
    ensures
        exists|blocks: Seq<Range<usize>>| blocks_spec(table_row@, blocks),
        forall|blocks: Seq<Range<usize>>|
            blocks_spec(table_row@, blocks) ==> r == table_band_spec(table_row@, blocks),
{
    let blocks = blocks_of(table_row);
    let r = if blocks.len() == 0 {
        Err(BandError::NoTableBand)
    } else if blocks.len() > 1 {
        Err(BandError::SplitTable { blocks: blocks.len() })
    } else {
        let block = blocks[0].start..blocks[0].end;
        if block.end - block.start < MIN_TABLE_ROWS {
            Err(BandError::ShortTableBand { rows: block.end - block.start })
        } else {
            Ok(block)
        }
    };
    assert(blocks_spec(table_row@, blocks@) && r == table_band_spec(table_row@, blocks@));
    proof {
        assert forall|other: Seq<Range<usize>>| blocks_spec(table_row@, other) implies r
            == table_band_spec(table_row@, other) by {
            lemma_blocks_unique(table_row@, blocks@, other);
        }
    }
    r
}

} // verus!
