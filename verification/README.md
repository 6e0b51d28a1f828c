# pu_tracker

Tracks the power unit components each Formula 1 seat uses over a season, and
cross-checks what independent FIA documents state about them.

- `src/` is the library, verified with Verus: the facts and allowances, seat
  resolution across roster diffs, the invariant sweep, and the snapshot
  document reader (legend, column labels, identity columns, season
  corrections, table band choice, document number, rows to facts). Every
  public function states what it returns in its `ensures`; the laws the
  library keeps stand as public proof functions beside the code they speak of.
- `app/` is the program around it: reading glyphs out of a PDF with
  `pdf_oxide`, the floating-point geometry that clusters glyphs into grids and
  slices a page into bands, the synthetic PDF fixtures drawn with `printpdf`,
  and the error types with their printed messages.
- `tests/` drives the library with hand-built grids and rosters.
