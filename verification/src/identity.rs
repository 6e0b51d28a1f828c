//! The identity columns a PU document prints left of its component columns.
//!
//! Every PU document opens its table with the same three columns in the same
//! order: the car number, the team, and the driver. Only the first one's
//! header text drifts: the snapshot heads it `N°`, the `New PU elements`
//! document `Number`. So the columns are found by position, not by header
//! text, and the count is what is checked: anything other than three columns
//! left of the first component means the roles cannot be assigned by position.
use vstd::prelude::*;

use crate::error::IdentityError;
use crate::labels::ColumnLabels;

verus! {

/// How many identity columns a PU document prints: the car number, the team,
/// and the driver.
pub const IDENTITY_COLUMNS: usize = 3;

/// Where a PU document's table prints its identity columns.
#[derive(Debug, Clone, Copy, PartialEq, Eq, Structural)]
pub struct IdentityColumns {
    car: usize,
    team: usize,
    driver: usize,
}

impl View for IdentityColumns {
    type V = (int, int, int);

    closed spec fn view(&self) -> (int, int, int) {
        (self.car as int, self.team as int, self.driver as int)
    }
}

impl IdentityColumns {
    /// The column holding the car number.
    pub fn car(&self) -> (r: usize)
        ensures
            r == self@.0,
    {
        self.car
    }

    /// The column holding the team, which the documents head `Car`. It is the
    /// source of a fact's printed team, taken verbatim.
    pub fn team(&self) -> (r: usize)
        ensures
            r == self@.1,
    {
        self.team
    }

    /// The column holding the driver's name.
    pub fn driver(&self) -> (r: usize)
        ensures
            r == self@.2,
    {
        self.driver
    }
}

/// How many columns the table prints left of its first component column.
pub open spec fn identity_count(labels: (Seq<(int, Seq<char>)>, int)) -> int {
    if labels.0.len() > 0 {
        labels.0[0].0
    } else {
        0
    }
}

/// Locate the identity columns of a PU document's table.
///
/// `labels` must come from [`label_columns`](crate::label_columns) over the
/// same table, which has already refused any unlabelled column right of the
/// first code, so the columns left of the first component are exactly the
/// identity ones.
pub fn identity_columns(labels: &ColumnLabels) -> (r: Result<IdentityColumns, IdentityError>)
    ensures
        r.is_ok() == (identity_count(labels@) == IDENTITY_COLUMNS),
        match r {
            Ok(identity) => identity@ == (0int, 1int, 2int),
            Err(e) => e == IdentityError::UnexpectedIdentityColumns {
                found: identity_count(labels@) as usize,
            },
        },
{
    let components = labels.components();
    let found = if components.len() > 0 {
        components[0].0
    } else {
        0
    };
    if found != IDENTITY_COLUMNS {
        return Err(IdentityError::UnexpectedIdentityColumns { found });
    }
    Ok(IdentityColumns { car: 0, team: 1, driver: 2 })
}

} // verus!
