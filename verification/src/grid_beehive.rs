use vstd::prelude::*;

use simple_matrix::Matrix;

use crate::dictionary::Dictionary;
use crate::lines::{
    column_of, count_char, count_char_in, dotify, dotify_string, filter_words, good_runs,
    contains_string, is_prefix, keep_unresolved, lemma_count_char_pair, lemma_prefix_concat_left,
    lemma_prefix_extend, lemma_prefix_refl, lemma_prefix_trans, replace_unset, split_gaps,
};
use crate::matrix::{mat_cells, mat_clone, mat_cols, mat_get, mat_get_col, mat_get_row, mat_new,
    mat_rows, mat_set, mat_width};
use crate::pattern::{has_forbidden, has_repeat, lowercase_words, views_of};
use crate::rng::{random_below, shuffle_strings};
use crate::text::{chars_of, string_of};

verus! {

/// Whether a line runs across, down, or along an anti-diagonal.
#[derive(Clone, Copy, Debug, PartialEq, Eq, Structural)]
pub enum Kind {
    Row,
    Col,
    Diag,
}

/// One cell position of the board.
#[derive(Clone, Copy, Debug, PartialEq, Eq, Hash, Structural)]
pub struct Cell {
    pub row: usize,
    pub col: usize,
}

/// One word slot of the board, named by its direction and its index.
#[derive(Clone, Copy, Debug, PartialEq, Eq, Structural)]
pub struct Line {
    pub index: usize,
    pub kind: Kind,
}

/// A hexagonal letter board on a rectangular matrix: rows, columns, and
/// anti-diagonals all read as word slots. A cell is `\0` while unset, `_`
/// when blocked, or a letter.
#[derive(Debug)]
pub struct GridBeehive {
    layout: Matrix<char>,
    resolved_lines: Vec<Line>,
}

impl GridBeehive {
    /// The board's cells, row by row.
    pub closed spec fn cells(&self) -> Seq<Seq<char>> {
        mat_cells(&self.layout)
    }

    /// The board's column count.
    pub closed spec fn width(&self) -> nat {
        mat_width(&self.layout)
    }

    /// The lines already resolved, in the order they were flagged.
    pub closed spec fn resolved(&self) -> Seq<Line> {
        self.resolved_lines@
    }

    /// How many anti-diagonals the board has.
    pub open spec fn diags_count(&self) -> int {
        self.cells().len() + self.width() - 1
    }

    /// A board is well formed when it has at least one row and one
    /// column, every row has the board's width, and the cell count fits
    /// the machine.
    pub open spec fn wf(&self) -> bool {
        &&& self.cells().len() >= 1
        &&& self.width() >= 1
        &&& self.cells().len() * self.width() <= usize::MAX
        &&& forall|r: int|
            0 <= r < self.cells().len() ==> (#[trigger] self.cells()[r]).len() == self.width()
    }

    /// The first column that anti-diagonal `d` touches inside the board.
    pub open spec fn diag_lo(&self, d: int) -> int {
        if d - self.cells().len() + 1 > 0 {
            d - self.cells().len() + 1
        } else {
            0
        }
    }

    /// The last column that anti-diagonal `d` touches inside the board.
    pub open spec fn diag_hi(&self, d: int) -> int {
        if d < self.width() - 1 {
            d
        } else {
            self.width() - 1
        }
    }

    /// The text of anti-diagonal `d`: the cells `(d - c, c)` that lie on
    /// the board, read in order of growing column.
    pub open spec fn diag_text(&self, d: int) -> Seq<char> {
        Seq::new(
            (self.diag_hi(d) - self.diag_lo(d) + 1) as nat,
            |k: int| self.cells()[d - self.diag_lo(d) - k][self.diag_lo(d) + k],
        )
    }

    /// Whether a line names an existing row, column, or anti-diagonal.
    pub open spec fn line_ok(&self, line: Line) -> bool {
        match line.kind {
            Kind::Row => line.index < self.cells().len(),
            Kind::Col => line.index < self.width(),
            Kind::Diag => line.index < self.diags_count(),
        }
    }

    /// The raw text of a line, unset cells still shown as `\0`.
    pub open spec fn line_text(&self, line: Line) -> Seq<char> {
        match line.kind {
            Kind::Row => self.cells()[line.index as int],
            Kind::Col => column_of(self.cells(), line.index as int),
            Kind::Diag => self.diag_text(line.index as int),
        }
    }

    /// An empty board of the given dimensions, no cell set and no line
    /// resolved.
    pub fn new(rows: usize, cols: usize) -> (r: GridBeehive)
        requires
            rows >= 1,
            cols >= 1,
            rows * cols <= usize::MAX,
        ensures
            r.wf(),
            r.cells().len() == rows,
            r.width() == cols,
            forall|i: int, j: int|
                0 <= i < rows && 0 <= j < cols ==> #[trigger] r.cells()[i][j] == '\0',
            r.resolved() == Seq::<Line>::empty(),
    {
        GridBeehive { layout: mat_new(rows, cols), resolved_lines: Vec::new() }
    }

    /// The board's row count.
    pub fn rows(&self) -> (r: usize)
        ensures
            r == self.cells().len(),
    {
        mat_rows(&self.layout)
    }

    /// The board's column count.
    pub fn cols(&self) -> (r: usize)
        ensures
            r == self.width(),
    {
        mat_cols(&self.layout)
    }

    /// How many anti-diagonals the board has.
    pub fn diags(&self) -> (r: usize)
        requires
            self.wf(),
        ensures
            r == self.diags_count(),
    {
        proof {
            self.lemma_dims_fit();
        }
        let rows = mat_rows(&self.layout);
        let cols = mat_cols(&self.layout);
        rows + (cols - 1)
    }

    /// The sum of the dimensions fits the machine.
    proof fn lemma_dims_fit(&self)
        requires
            self.wf(),
        ensures
            self.cells().len() + self.width() - 1 <= usize::MAX,
    {
        let r = self.cells().len() as int;
        let c = self.width() as int;
        assert(r + c - 1 <= r * c) by (nonlinear_arith)
            requires
                r >= 1,
                c >= 1,
        ;
    }

    /// The text of a row, when it exists.
    pub fn get_row(&self, row: usize) -> (r: Option<String>)
        ensures
            (match r {
                Some(s) => row < self.cells().len() && s@ == self.cells()[row as int],
                None => row >= self.cells().len(),
            }),
    {
        mat_get_row(&self.layout, row)
    }

    /// The text of a column, when it exists.
    pub fn get_col(&self, col: usize) -> (r: Option<String>)
        ensures
            (match r {
                Some(s) => col < self.width() && s@ == column_of(self.cells(), col as int),
                None => col >= self.width(),
            }),
    {
        mat_get_col(&self.layout, col)
    }

    /// One cell, when it exists.
    pub fn get_cell(&self, row: usize, col: usize) -> (r: Option<char>)
        ensures
            (match r {
                Some(c) => row < self.cells().len() && col < self.width() && c == self.cells(
                )[row as int][col as int],
                None => row >= self.cells().len() || col >= self.width(),
            }),
    {
        mat_get(&self.layout, row, col)
    }

    /// The text of an anti-diagonal, when it exists.
    pub fn get_diag(&self, diag: usize) -> (r: Option<String>)
        requires
            self.wf(),
        ensures
            (match r {
                Some(s) => diag < self.diags_count() && s@ == self.diag_text(diag as int),
                None => diag >= self.diags_count(),
            }),
    {
        proof {
            self.lemma_dims_fit();
        }
        let rows = self.rows();
        let cols = self.cols();
        if diag >= rows + (cols - 1) {
            return None;
        }
        let ghost d = diag as int;
        let ghost lo = self.diag_lo(d);
        let ghost hi = self.diag_hi(d);
        let mut out: Vec<char> = Vec::new();
        let mut i: usize = 0;
        while i <= diag
            invariant
                self.wf(),
                rows == self.cells().len(),
                cols == self.width(),
                d == diag,
                diag < self.diags_count(),
                lo == self.diag_lo(d),
                hi == self.diag_hi(d),
                0 <= i <= diag + 1,
                out@.len() == (if i <= lo {
                    0int
                } else if i <= hi + 1 {
                    i - lo
                } else {
                    hi - lo + 1
                }),
                self.diags_count() <= usize::MAX,
                forall|k: int| 0 <= k < out@.len() ==> out@[k] == self.diag_text(d)[k],
            decreases diag + 1 - i,
        {
            match self.get_cell(diag - i, i) {
                Some(c) => {
                    proof {
                        assert(lo <= i <= hi);
                        assert(c == self.diag_text(d)[i - lo]);
                    }
                    out.push(c);
                },
                None => {
                    proof {
                        assert(i < lo || i > hi);
                    }
                },
            }
            i += 1;
        }
        let s = string_of(&out);
        proof {
            assert(s@ =~= self.diag_text(d));
        }
        Some(s)
    }

    /// The text of a line, when it exists.
    pub fn get_line(&self, line: &Line) -> (r: Option<String>)
        requires
            self.wf(),
        ensures
            self.line_ok(*line) ==> r is Some && r->0@ == self.line_text(*line),
            !self.line_ok(*line) ==> r is None,
    {
        match line.kind {
            Kind::Row => self.get_row(line.index),
            Kind::Col => self.get_col(line.index),
            Kind::Diag => self.get_diag(line.index),
        }
    }

    /// Writes one cell when it exists; out of bounds, nothing changes.
    pub fn set_cell(&mut self, row: usize, col: usize, val: char)
        ensures
            final(self).width() == old(self).width(),
            final(self).cells().len() == old(self).cells().len(),
            final(self).resolved() == old(self).resolved(),
            old(self).wf() ==> final(self).wf(),
            row < old(self).cells().len() && col < old(self).width() ==> final(self).cells()
                == old(self).cells().update(
                row as int,
                old(self).cells()[row as int].update(col as int, val),
            ),
            !(row < old(self).cells().len() && col < old(self).width()) ==> final(self).cells()
                == old(self).cells(),
    {
        mat_set(&mut self.layout, row, col, val);
    }

    /// Writes a line of text across a row, cell by cell, starting at the
    /// left edge; characters past the board's edge are dropped.
    pub fn set_row(&mut self, row: usize, val: String)
        requires
            old(self).wf(),
        ensures
            final(self).wf(),
            final(self).width() == old(self).width(),
            final(self).cells().len() == old(self).cells().len(),
            final(self).resolved() == old(self).resolved(),
            forall|r: int, c: int|
                0 <= r < old(self).cells().len() && 0 <= c < old(self).width()
                    ==> #[trigger] final(self).cells()[r][c] == (if r == row && c < val@.len() {
                    val@[c]
                } else {
                    old(self).cells()[r][c]
                }),
    {
        let cv = chars_of(val.as_str());
        let ghost orig = *self;
        let mut i: usize = 0;
        while i < cv.len()
            invariant
                cv@ == val@,
                orig.wf(),
                self.wf(),
                self.width() == orig.width(),
                self.cells().len() == orig.cells().len(),
                self.resolved() == orig.resolved(),
                0 <= i <= cv@.len(),
                forall|r: int, c: int|
                    0 <= r < orig.cells().len() && 0 <= c < orig.width()
                        ==> #[trigger] self.cells()[r][c] == (if r == row && c < i {
                        val@[c]
                    } else {
                        orig.cells()[r][c]
                    }),
            decreases cv@.len() - i,
        {
            self.set_cell(row, i, cv[i]);
            i += 1;
        }
    }

    /// Writes a line of text down a column, cell by cell, starting at the
    /// top edge; characters past the board's edge are dropped.
    pub fn set_col(&mut self, col: usize, val: String)
        requires
            old(self).wf(),
        ensures
            final(self).wf(),
            final(self).width() == old(self).width(),
            final(self).cells().len() == old(self).cells().len(),
            final(self).resolved() == old(self).resolved(),
            forall|r: int, c: int|
                0 <= r < old(self).cells().len() && 0 <= c < old(self).width()
                    ==> #[trigger] final(self).cells()[r][c] == (if c == col && r < val@.len() {
                    val@[r]
                } else {
                    old(self).cells()[r][c]
                }),
    {
        let cv = chars_of(val.as_str());
        let ghost orig = *self;
        let mut i: usize = 0;
        while i < cv.len()
            invariant
                cv@ == val@,
                orig.wf(),
                self.wf(),
                self.width() == orig.width(),
                self.cells().len() == orig.cells().len(),
                self.resolved() == orig.resolved(),
                0 <= i <= cv@.len(),
                forall|r: int, c: int|
                    0 <= r < orig.cells().len() && 0 <= c < orig.width()
                        ==> #[trigger] self.cells()[r][c] == (if c == col && r < i {
                        val@[r]
                    } else {
                        orig.cells()[r][c]
                    }),
            decreases cv@.len() - i,
        {
            self.set_cell(i, col, cv[i]);
            i += 1;
        }
    }

    /// Writes a line of text along an anti-diagonal, starting at its
    /// first cell on the board; characters past the board's edge are
    /// dropped. The text must not run past the diagonal's top end.
    pub fn set_diag(&mut self, diag: usize, val: String)
        requires
            old(self).wf(),
            diag < old(self).diags_count(),
            val@.len() + old(self).diag_lo(diag as int) <= diag + 1,
        ensures
            final(self).wf(),
            final(self).width() == old(self).width(),
            final(self).cells().len() == old(self).cells().len(),
            final(self).resolved() == old(self).resolved(),
            forall|r: int, c: int|
                0 <= r < old(self).cells().len() && 0 <= c < old(self).width()
                    ==> #[trigger] final(self).cells()[r][c] == (if r + c == diag && old(
                    self,
                ).diag_lo(diag as int) <= c && c - old(self).diag_lo(diag as int) < val@.len() {
                    val@[c - old(self).diag_lo(diag as int)]
                } else {
                    old(self).cells()[r][c]
                }),
    {
        proof {
            self.lemma_dims_fit();
        }
        let rows = self.rows();
        let offset: usize = if diag + 1 > rows {
            diag + 1 - rows
        } else {
            0
        };
        proof {
            assert(offset == self.diag_lo(diag as int));
        }
        let cv = chars_of(val.as_str());
        let ghost orig = *self;
        let ghost lo = offset as int;
        let mut i: usize = 0;
        while i < cv.len()
            invariant
                cv@ == val@,
                orig.wf(),
                self.wf(),
                self.width() == orig.width(),
                self.cells().len() == orig.cells().len(),
                self.resolved() == orig.resolved(),
                rows == orig.cells().len(),
                lo == offset,
                lo == orig.diag_lo(diag as int),
                diag < orig.diags_count(),
                val@.len() + lo <= diag + 1,
                0 <= i <= cv@.len(),
                forall|r: int, c: int|
                    0 <= r < orig.cells().len() && 0 <= c < orig.width()
                        ==> #[trigger] self.cells()[r][c] == (if r + c == diag && lo <= c && c - lo
                        < i {
                        val@[c - lo]
                    } else {
                        orig.cells()[r][c]
                    }),
            decreases cv@.len() - i,
        {
            proof {
                assert(i + offset <= diag);
            }
            self.set_cell(diag - i - offset, i + offset, cv[i]);
            proof {
                let wr = diag - lo - i;
                let wc = lo + i;
                assert(wr + wc == diag);
                assert(0 <= wr < orig.cells().len());
            }
            i += 1;
        }
    }

    /// Writes a line of text along a row, a column, or an anti-diagonal.
    pub fn set_line(&mut self, line: &Line, val: String)
        requires
            old(self).wf(),
            line.kind == Kind::Diag ==> line.index < old(self).diags_count() && val@.len() + old(
                self,
            ).diag_lo(line.index as int) <= line.index + 1,
        ensures
            final(self).wf(),
            final(self).width() == old(self).width(),
            final(self).cells().len() == old(self).cells().len(),
            final(self).resolved() == old(self).resolved(),
            forall|r: int, c: int|
                0 <= r < old(self).cells().len() && 0 <= c < old(self).width()
                    ==> #[trigger] final(self).cells()[r][c] == (if line.kind == Kind::Row && r
                    == line.index && c < val@.len() {
                    val@[c]
                } else if line.kind == Kind::Col && c == line.index && r < val@.len() {
                    val@[r]
                } else if line.kind == Kind::Diag && r + c == line.index && old(self).diag_lo(
                    line.index as int,
                ) <= c && c - old(self).diag_lo(line.index as int) < val@.len() {
                    val@[c - old(self).diag_lo(line.index as int)]
                } else {
                    old(self).cells()[r][c]
                }),
    {
        let i = line.index;
        match line.kind {
            Kind::Row => self.set_row(i, val),
            Kind::Col => self.set_col(i, val),
            Kind::Diag => self.set_diag(i, val),
        }
    }

    /// Records a line as resolved for this search branch.
    pub fn flag_resolved(&mut self, line: &Line)
        ensures
            final(self).cells() == old(self).cells(),
            final(self).width() == old(self).width(),
            final(self).resolved() == old(self).resolved().push(*line),
    {
        self.resolved_lines.push(*line);
    }

    /// The search pattern of a line: its text with unset cells as dots.
    pub fn pattern(&self, line: &Line) -> (r: Option<String>)
        requires
            self.wf(),
        ensures
            self.line_ok(*line) ==> r is Some && r->0@ == dotify(self.line_text(*line)),
            !self.line_ok(*line) ==> r is None,
    {
        match self.get_line(line) {
            Some(s) => Some(dotify_string(&s)),
            None => None,
        }
    }

    /// Blocks the unset cells of the outermost corner diagonals, carving
    /// the rectangular matrix toward a honeycomb silhouette.
    pub fn champfer_layout(&mut self)
        requires
            old(self).wf(),
        ensures
            final(self).wf(),
            final(self).width() == old(self).width(),
            final(self).cells().len() == old(self).cells().len(),
            final(self).resolved() == old(self).resolved(),
            forall|r: int, c: int|
                0 <= r < old(self).cells().len() && 0 <= c < old(self).width()
                    ==> #[trigger] final(self).cells()[r][c] == (if (r + c < old(self).champfer_cnt()
                    || r + c >= old(self).diags_count() - old(self).champfer_cnt()) && old(
                    self,
                ).cells()[r][c] == '\0' {
                    '_'
                } else {
                    old(self).cells()[r][c]
                }),
    {
        proof {
            self.lemma_dims_fit();
        }
        let rows = self.rows();
        let cols = self.cols();
        let m = if rows < cols {
            rows
        } else {
            cols
        };
        let cnt = (m - 1) / 2;
        let diags = rows + (cols - 1);
        let ghost orig = *self;
        proof {
            assert(cnt == orig.champfer_cnt());
            assert(2 * cnt < rows + cols - 1);
        }
        let mut d: usize = 0;
        while d < cnt
            invariant
                orig.wf(),
                self.wf(),
                self.width() == orig.width(),
                self.cells().len() == orig.cells().len(),
                self.resolved() == orig.resolved(),
                rows == orig.cells().len(),
                cols == orig.width(),
                diags == orig.diags_count(),
                cnt == orig.champfer_cnt(),
                2 * cnt < diags,
                0 <= d <= cnt,
                forall|r: int, c: int|
                    0 <= r < orig.cells().len() && 0 <= c < orig.width()
                        ==> #[trigger] self.cells()[r][c] == (if r + c < d && orig.cells()[r][c]
                        == '\0' {
                        '_'
                    } else {
                        orig.cells()[r][c]
                    }),
            decreases cnt - d,
        {
            self.champfer_one(d);
            d += 1;
        }
        let mut d2: usize = diags - cnt;
        while d2 < diags
            invariant
                orig.wf(),
                self.wf(),
                self.width() == orig.width(),
                self.cells().len() == orig.cells().len(),
                self.resolved() == orig.resolved(),
                rows == orig.cells().len(),
                cols == orig.width(),
                diags == orig.diags_count(),
                cnt == orig.champfer_cnt(),
                2 * cnt < diags,
                diags - cnt <= d2 <= diags,
                forall|r: int, c: int|
                    0 <= r < orig.cells().len() && 0 <= c < orig.width()
                        ==> #[trigger] self.cells()[r][c] == (if (r + c < cnt || (diags - cnt <= r
                        + c < d2)) && orig.cells()[r][c] == '\0' {
                        '_'
                    } else {
                        orig.cells()[r][c]
                    }),
            decreases diags - d2,
        {
            self.champfer_one(d2);
            d2 += 1;
        }
    }

    /// How many corner diagonals the champfer blocks at each corner.
    pub open spec fn champfer_cnt(&self) -> int {
        (((if self.cells().len() < self.width() {
            self.cells().len() as int
        } else {
            self.width() as int
        }) - 1) / 2)
    }

    /// Blocks the unset cells of one anti-diagonal.
    fn champfer_one(&mut self, d: usize)
        requires
            old(self).wf(),
            d < old(self).diags_count(),
        ensures
            final(self).wf(),
            final(self).width() == old(self).width(),
            final(self).cells().len() == old(self).cells().len(),
            final(self).resolved() == old(self).resolved(),
            forall|r: int, c: int|
                0 <= r < old(self).cells().len() && 0 <= c < old(self).width()
                    ==> #[trigger] final(self).cells()[r][c] == (if r + c == d && old(
                    self,
                ).cells()[r][c] == '\0' {
                    '_'
                } else {
                    old(self).cells()[r][c]
                }),
    {
        let t = self.get_diag(d).unwrap();
        let replaced = replace_unset(&t, '_');
        let ghost lo = self.diag_lo(d as int);
        let ghost hi = self.diag_hi(d as int);
        proof {
            assert(replaced@.len() + lo == hi + 1);
            assert(hi <= d);
        }
        self.set_diag(d, replaced);
        proof {
            let prior = *old(self);
            assert forall|r: int, c: int|
                0 <= r < prior.cells().len() && 0 <= c < prior.width() implies #[trigger] self.cells()[r][c] == (if r + c == d && prior.cells()[r][c] == '\0' {
                '_'
            } else {
                prior.cells()[r][c]
            }) by {
                if r + c == d && lo <= c && c - lo < replaced@.len() {
                    assert(replaced@[c - lo] == (if t@[c - lo] == '\0' {
                        '_'
                    } else {
                        t@[c - lo]
                    }));
                    assert(t@[c - lo] == prior.cells()[d - lo - (c - lo)][lo + (c - lo)]);
                    assert(t@[c - lo] == prior.cells()[r][c]);
                } else if r + c == d {
                    assert(c <= hi);
                    assert(c >= lo);
                }
            }
        }
    }

    /// The stamped starting layout of the board that `new_7x7_honeycomb`
    /// builds: its cells row by row, blocked or unset.
    pub open spec fn layout_7x7() -> Seq<Seq<char>> {
        seq![
            seq!['_', '_', '_', '\0', '\0', '\0', '\0'],
            seq!['_', '_', '\0', '_', '_', '_', '\0'],
            seq!['_', '\0', '\0', '\0', '\0', '\0', '\0'],
            seq!['\0', '_', '\0', '_', '\0', '_', '\0'],
            seq!['\0', '_', '\0', '\0', '_', '\0', '_'],
            seq!['\0', '_', '\0', '_', '\0', '_', '_'],
            seq!['\0', '\0', '\0', '\0', '_', '_', '_'],
        ]
    }

    /// The stamped starting layout of the board that `new_6x6_honeycomb`
    /// builds: its cells row by row, blocked or unset.
    pub open spec fn layout_6x6() -> Seq<Seq<char>> {
        seq![
            seq!['_', '_', '\0', '\0', '\0', '\0'],
            seq!['_', '_', '\0', '_', '\0', '\0'],
            seq!['\0', '_', '\0', '\0', '_', '\0'],
            seq!['\0', '_', '\0', '\0', '_', '\0'],
            seq!['\0', '\0', '_', '\0', '_', '_'],
            seq!['\0', '\0', '\0', '\0', '_', '_'],
        ]
    }

    /// The stamped starting layout of the board that `new_5x5_honeycomb`
    /// builds: its cells row by row, blocked or unset.
    pub open spec fn layout_5x5() -> Seq<Seq<char>> {
        seq![
            seq!['_', '_', '\0', '\0', '\0'],
            seq!['_', '\0', '_', '\0', '_'],
            seq!['\0', '\0', '\0', '\0', '\0'],
            seq!['_', '\0', '_', '\0', '_'],
            seq!['\0', '\0', '\0', '_', '_'],
        ]
    }

    /// The stamped starting layout of the board that `new_5x6_honeycomb`
    /// builds: its cells row by row, blocked or unset.
    pub open spec fn layout_5x6() -> Seq<Seq<char>> {
        seq![
            seq!['_', '\0', '\0', '\0', '\0', '\0'],
            seq!['\0', '_', '\0', '_', '_', '\0'],
            seq!['\0', '\0', '\0', '\0', '\0', '\0'],
            seq!['\0', '_', '_', '\0', '_', '\0'],
            seq!['\0', '\0', '\0', '\0', '\0', '_'],
        ]
    }

    /// The stamped starting layout of the board that `new_6444_honeycomb`
    /// builds: its cells row by row, blocked or unset.
    pub open spec fn layout_6444() -> Seq<Seq<char>> {
        seq![
            seq!['_', '\0', '\0', '\0', '\0', '\0', '\0'],
            seq!['\0', '_', '\0', '_', '\0', '_', '\0'],
            seq!['\0', '\0', '\0', '\0', '\0', '\0', '_'],
            seq!['\0', '_', '\0', '_', '\0', '_', '_'],
            seq!['\0', '\0', '\0', '\0', '_', '_', '_'],
        ]
    }

    /// The stamped starting layout of the board that `new_444_honeycomb`
    /// builds: its cells row by row, blocked or unset.
    pub open spec fn layout_444() -> Seq<Seq<char>> {
        seq![
            seq!['_', '\0', '\0', '\0', '\0'],
            seq!['\0', '_', '\0', '_', '\0'],
            seq!['\0', '\0', '\0', '\0', '_'],
            seq!['\0', '_', '\0', '_', '_'],
            seq!['\0', '\0', '_', '_', '_'],
        ]
    }

    /// Whether every cell is still only part of the shape template: unset
    /// or blocked, no letter placed yet.
    pub open spec fn template_only(&self) -> bool {
        forall|r: int, c: int|
            0 <= r < self.cells().len() && 0 <= c < self.width() ==> (#[trigger] self.cells()[r][c]
                == '\0' || self.cells()[r][c] == '_')
    }

    /// An empty board with its corner diagonals blocked.
    pub fn new_champfered(rows: usize, cols: usize) -> (r: GridBeehive)
        requires
            rows >= 1,
            cols >= 1,
            rows * cols <= usize::MAX,
        ensures
            r.wf(),
            r.cells().len() == rows,
            r.width() == cols,
            r.resolved() == Seq::<Line>::empty(),
            r.template_only(),
            forall|i: int, j: int|
                0 <= i < rows && 0 <= j < cols ==> #[trigger] r.cells()[i][j] == (if i + j
                    < r.champfer_cnt() || i + j >= r.diags_count() - r.champfer_cnt() {
                    '_'
                } else {
                    '\0'
                }),
    {
        let mut empty = GridBeehive::new(rows, cols);
        empty.champfer_layout();
        empty
    }

    /// A fixed 7x7 honeycomb template, blocked cells pre-stamped.
    pub fn new_7x7_honeycomb() -> (r: GridBeehive)
        ensures
            r.wf(),
            r.cells().len() == 7,
            r.width() == 7,
            r.resolved() == Seq::<Line>::empty(),
            r.template_only(),
            r.cells() == GridBeehive::layout_7x7(),
    {
        let mut empty = GridBeehive::new_champfered(7, 7);
        empty.set_row(1, String::from_str("__\0___\0"));
        proof {
            reveal_strlit("__\0___\0");
            assert(forall|k: int|
                0 <= k < "__\0___\0"@.len() ==> "__\0___\0"@[k] == '\0' || #[trigger] "__\0___\0"@[k] == '_');
            assert(empty.template_only());
        }
        empty.set_row(3, String::from_str("\0_\0_\0_\0"));
        proof {
            reveal_strlit("\0_\0_\0_\0");
            assert(forall|k: int|
                0 <= k < "\0_\0_\0_\0"@.len() ==> "\0_\0_\0_\0"@[k] == '\0' || #[trigger] "\0_\0_\0_\0"@[k] == '_');
            assert(empty.template_only());
        }
        empty.set_row(4, String::from_str("\0_\0\0_\0_"));
        proof {
            reveal_strlit("\0_\0\0_\0_");
            assert(forall|k: int|
                0 <= k < "\0_\0\0_\0_"@.len() ==> "\0_\0\0_\0_"@[k] == '\0' || #[trigger] "\0_\0\0_\0_"@[k] == '_');
            assert(empty.template_only());
        }
        empty.set_row(5, String::from_str("\0_\0_\0__"));
        proof {
            reveal_strlit("\0_\0_\0__");
            assert(forall|k: int|
                0 <= k < "\0_\0_\0__"@.len() ==> "\0_\0_\0__"@[k] == '\0' || #[trigger] "\0_\0_\0__"@[k] == '_');
            assert(empty.template_only());
        }
        proof {
            assert(empty.cells() =~~= GridBeehive::layout_7x7());
        }
        empty
    }

    /// A fixed 6x6 honeycomb template, blocked cells pre-stamped.
    pub fn new_6x6_honeycomb() -> (r: GridBeehive)
        ensures
            r.wf(),
            r.cells().len() == 6,
            r.width() == 6,
            r.resolved() == Seq::<Line>::empty(),
            r.template_only(),
            r.cells() == GridBeehive::layout_6x6(),
    {
        let mut empty = GridBeehive::new_champfered(6, 6);
        empty.set_row(1, String::from_str("__\0_\0\0"));
        proof {
            reveal_strlit("__\0_\0\0");
            assert(forall|k: int|
                0 <= k < "__\0_\0\0"@.len() ==> "__\0_\0\0"@[k] == '\0' || #[trigger] "__\0_\0\0"@[k] == '_');
            assert(empty.template_only());
        }
        empty.set_row(2, String::from_str("\0_\0\0_\0"));
        proof {
            reveal_strlit("\0_\0\0_\0");
            assert(forall|k: int|
                0 <= k < "\0_\0\0_\0"@.len() ==> "\0_\0\0_\0"@[k] == '\0' || #[trigger] "\0_\0\0_\0"@[k] == '_');
            assert(empty.template_only());
        }
        empty.set_row(3, String::from_str("\0_\0\0_\0"));
        proof {
            reveal_strlit("\0_\0\0_\0");
            assert(forall|k: int|
                0 <= k < "\0_\0\0_\0"@.len() ==> "\0_\0\0_\0"@[k] == '\0' || #[trigger] "\0_\0\0_\0"@[k] == '_');
            assert(empty.template_only());
        }
        empty.set_row(4, String::from_str("\0\0_\0__"));
        proof {
            reveal_strlit("\0\0_\0__");
            assert(forall|k: int|
                0 <= k < "\0\0_\0__"@.len() ==> "\0\0_\0__"@[k] == '\0' || #[trigger] "\0\0_\0__"@[k] == '_');
            assert(empty.template_only());
        }
        proof {
            assert(empty.cells() =~~= GridBeehive::layout_6x6());
        }
        empty
    }

    /// A fixed 5x5 honeycomb template, blocked cells pre-stamped.
    pub fn new_5x5_honeycomb() -> (r: GridBeehive)
        ensures
            r.wf(),
            r.cells().len() == 5,
            r.width() == 5,
            r.resolved() == Seq::<Line>::empty(),
            r.template_only(),
            r.cells() == GridBeehive::layout_5x5(),
    {
        let mut empty = GridBeehive::new_champfered(5, 5);
        empty.set_row(1, String::from_str("_\0_\0_"));
        proof {
            reveal_strlit("_\0_\0_");
            assert(forall|k: int|
                0 <= k < "_\0_\0_"@.len() ==> "_\0_\0_"@[k] == '\0' || #[trigger] "_\0_\0_"@[k] == '_');
            assert(empty.template_only());
        }
        empty.set_row(3, String::from_str("_\0_\0_"));
        proof {
            reveal_strlit("_\0_\0_");
            assert(forall|k: int|
                0 <= k < "_\0_\0_"@.len() ==> "_\0_\0_"@[k] == '\0' || #[trigger] "_\0_\0_"@[k] == '_');
            assert(empty.template_only());
        }
        proof {
            assert(empty.cells() =~~= GridBeehive::layout_5x5());
        }
        empty
    }

    /// A fixed 5x6 honeycomb template, blocked cells pre-stamped.
    pub fn new_5x6_honeycomb() -> (r: GridBeehive)
        ensures
            r.wf(),
            r.cells().len() == 5,
            r.width() == 6,
            r.resolved() == Seq::<Line>::empty(),
            r.template_only(),
            r.cells() == GridBeehive::layout_5x6(),
    {
        let mut empty = GridBeehive::new(5, 6);
        proof {
            assert(empty.template_only());
        }
        empty.set_row(0, String::from_str("_\0\0\0\0\0"));
        proof {
            reveal_strlit("_\0\0\0\0\0");
            assert(forall|k: int|
                0 <= k < "_\0\0\0\0\0"@.len() ==> "_\0\0\0\0\0"@[k] == '\0' || #[trigger] "_\0\0\0\0\0"@[k] == '_');
            assert(empty.template_only());
        }
        empty.set_row(1, String::from_str("\0_\0__\0"));
        proof {
            reveal_strlit("\0_\0__\0");
            assert(forall|k: int|
                0 <= k < "\0_\0__\0"@.len() ==> "\0_\0__\0"@[k] == '\0' || #[trigger] "\0_\0__\0"@[k] == '_');
            assert(empty.template_only());
        }
        empty.set_row(2, String::from_str("\0\0\0\0\0\0"));
        proof {
            reveal_strlit("\0\0\0\0\0\0");
            assert(forall|k: int|
                0 <= k < "\0\0\0\0\0\0"@.len() ==> "\0\0\0\0\0\0"@[k] == '\0' || #[trigger] "\0\0\0\0\0\0"@[k] == '_');
            assert(empty.template_only());
        }
        empty.set_row(3, String::from_str("\0__\0_\0"));
        proof {
            reveal_strlit("\0__\0_\0");
            assert(forall|k: int|
                0 <= k < "\0__\0_\0"@.len() ==> "\0__\0_\0"@[k] == '\0' || #[trigger] "\0__\0_\0"@[k] == '_');
            assert(empty.template_only());
        }
        empty.set_row(4, String::from_str("\0\0\0\0\0_"));
        proof {
            reveal_strlit("\0\0\0\0\0_");
            assert(forall|k: int|
                0 <= k < "\0\0\0\0\0_"@.len() ==> "\0\0\0\0\0_"@[k] == '\0' || #[trigger] "\0\0\0\0\0_"@[k] == '_');
            assert(empty.template_only());
        }
        proof {
            assert(empty.cells() =~~= GridBeehive::layout_5x6());
        }
        empty
    }

    /// A fixed 5x7 honeycomb template, blocked cells pre-stamped.
    pub fn new_6444_honeycomb() -> (r: GridBeehive)
        ensures
            r.wf(),
            r.cells().len() == 5,
            r.width() == 7,
            r.resolved() == Seq::<Line>::empty(),
            r.template_only(),
            r.cells() == GridBeehive::layout_6444(),
    {
        let mut empty = GridBeehive::new(5, 7);
        proof {
            assert(empty.template_only());
        }
        empty.set_row(0, String::from_str("_\0\0\0\0\0\0"));
        proof {
            reveal_strlit("_\0\0\0\0\0\0");
            assert(forall|k: int|
                0 <= k < "_\0\0\0\0\0\0"@.len() ==> "_\0\0\0\0\0\0"@[k] == '\0' || #[trigger] "_\0\0\0\0\0\0"@[k] == '_');
            assert(empty.template_only());
        }
        empty.set_row(1, String::from_str("\0_\0_\0_\0"));
        proof {
            reveal_strlit("\0_\0_\0_\0");
            assert(forall|k: int|
                0 <= k < "\0_\0_\0_\0"@.len() ==> "\0_\0_\0_\0"@[k] == '\0' || #[trigger] "\0_\0_\0_\0"@[k] == '_');
            assert(empty.template_only());
        }
        empty.set_row(2, String::from_str("\0\0\0\0\0\0_"));
        proof {
            reveal_strlit("\0\0\0\0\0\0_");
            assert(forall|k: int|
                0 <= k < "\0\0\0\0\0\0_"@.len() ==> "\0\0\0\0\0\0_"@[k] == '\0' || #[trigger] "\0\0\0\0\0\0_"@[k] == '_');
            assert(empty.template_only());
        }
        empty.set_row(3, String::from_str("\0_\0_\0__"));
        proof {
            reveal_strlit("\0_\0_\0__");
            assert(forall|k: int|
                0 <= k < "\0_\0_\0__"@.len() ==> "\0_\0_\0__"@[k] == '\0' || #[trigger] "\0_\0_\0__"@[k] == '_');
            assert(empty.template_only());
        }
        empty.set_row(4, String::from_str("\0\0\0\0___"));
        proof {
            reveal_strlit("\0\0\0\0___");
            assert(forall|k: int|
                0 <= k < "\0\0\0\0___"@.len() ==> "\0\0\0\0___"@[k] == '\0' || #[trigger] "\0\0\0\0___"@[k] == '_');
            assert(empty.template_only());
        }
        proof {
            assert(empty.cells() =~~= GridBeehive::layout_6444());
        }
        empty
    }

    /// A fixed 5x5 honeycomb template, blocked cells pre-stamped.
    pub fn new_444_honeycomb() -> (r: GridBeehive)
        ensures
            r.wf(),
            r.cells().len() == 5,
            r.width() == 5,
            r.resolved() == Seq::<Line>::empty(),
            r.template_only(),
            r.cells() == GridBeehive::layout_444(),
    {
        let mut empty = GridBeehive::new(5, 5);
        proof {
            assert(empty.template_only());
        }
        empty.set_row(0, String::from_str("_\0\0\0\0"));
        proof {
            reveal_strlit("_\0\0\0\0");
            assert(forall|k: int|
                0 <= k < "_\0\0\0\0"@.len() ==> "_\0\0\0\0"@[k] == '\0' || #[trigger] "_\0\0\0\0"@[k] == '_');
            assert(empty.template_only());
        }
        empty.set_row(1, String::from_str("\0_\0_\0"));
        proof {
            reveal_strlit("\0_\0_\0");
            assert(forall|k: int|
                0 <= k < "\0_\0_\0"@.len() ==> "\0_\0_\0"@[k] == '\0' || #[trigger] "\0_\0_\0"@[k] == '_');
            assert(empty.template_only());
        }
        empty.set_row(2, String::from_str("\0\0\0\0_"));
        proof {
            reveal_strlit("\0\0\0\0_");
            assert(forall|k: int|
                0 <= k < "\0\0\0\0_"@.len() ==> "\0\0\0\0_"@[k] == '\0' || #[trigger] "\0\0\0\0_"@[k] == '_');
            assert(empty.template_only());
        }
        empty.set_row(3, String::from_str("\0_\0__"));
        proof {
            reveal_strlit("\0_\0__");
            assert(forall|k: int|
                0 <= k < "\0_\0__"@.len() ==> "\0_\0__"@[k] == '\0' || #[trigger] "\0_\0__"@[k] == '_');
            assert(empty.template_only());
        }
        empty.set_row(4, String::from_str("\0\0____"));
        proof {
            reveal_strlit("\0\0____");
            assert(forall|k: int|
                0 <= k < "\0\0____"@.len() ==> "\0\0____"@[k] == '\0' || #[trigger] "\0\0____"@[k] == '_');
            assert(empty.template_only());
        }
        proof {
            assert(empty.cells() =~~= GridBeehive::layout_444());
        }
        empty
    }

    /// Every line of the board: rows, then columns, then anti-diagonals,
    /// each in index order.
    pub open spec fn all_lines(&self) -> Seq<Line> {
        Seq::new(self.cells().len(), |i: int| Line { index: i as usize, kind: Kind::Row })
            + Seq::new(self.width(), |i: int| Line { index: i as usize, kind: Kind::Col })
            + Seq::new(
            self.diags_count() as nat,
            |i: int| Line { index: i as usize, kind: Kind::Diag },
        )
    }

    /// The lines not yet flagged resolved, in enumeration order.
    pub open spec fn unresolved_lines(&self) -> Seq<Line> {
        keep_unresolved(self.all_lines(), self.resolved())
    }

    /// How many cells of the line are still undecided.
    pub open spec fn liberties(&self, line: Line) -> int {
        count_char(dotify(self.line_text(line)), '.')
    }

    /// How many cells of the line are blocked.
    pub open spec fn blocked_count(&self, line: Line) -> int {
        count_char(dotify(self.line_text(line)), '_')
    }

    /// How many cells of the line already hold a letter.
    pub open spec fn constrained(&self, line: Line) -> int {
        self.line_text(line).len() - self.liberties(line) - self.blocked_count(line)
    }

    /// The most-constrained-first order: more resolved letters wins, and
    /// on a tie more blocked cells wins.
    pub open spec fn better_line(&self, a: Line, b: Line) -> bool {
        ||| self.constrained(a) > self.constrained(b)
        ||| (self.constrained(a) == self.constrained(b) && self.blocked_count(a)
            > self.blocked_count(b))
    }

    /// The first line of the list that no later line strictly beats.
    pub open spec fn best_of(&self, s: Seq<Line>) -> Option<Line>
        decreases s.len(),
    {
        if s.len() == 0 {
            None
        } else {
            match self.best_of(s.drop_last()) {
                None => Some(s.last()),
                Some(b) => if self.better_line(s.last(), b) {
                    Some(s.last())
                } else {
                    Some(b)
                },
            }
        }
    }

    /// A best line exists exactly when the list is not empty, and it is
    /// drawn from the list.
    pub proof fn lemma_best_of_some(&self, s: Seq<Line>)
        ensures
            (self.best_of(s) is Some) <==> s.len() > 0,
            self.best_of(s) is Some ==> s.contains(self.best_of(s)->0),
        decreases s.len(),
    {
        if s.len() > 0 {
            self.lemma_best_of_some(s.drop_last());
            assert(s.contains(s.last()));
            if self.best_of(s.drop_last()) is Some {
                let b = self.best_of(s.drop_last())->0;
                if !self.better_line(s.last(), b) {
                    let k = choose|k: int| 0 <= k < s.drop_last().len() && s.drop_last()[k] == b;
                    assert(s[k] == b);
                }
            }
        }
    }

    /// The next line to fill: the unresolved line with the most resolved
    /// letters, ties broken toward more blocked cells, then toward the
    /// enumeration order; or nothing when every line is resolved.
    pub fn next_line(&self) -> (r: Option<Line>)
        requires
            self.wf(),
        ensures
            r == self.best_of(self.unresolved_lines()),
            r is Some ==> self.line_ok(r->0) && !self.resolved().contains(r->0),
            (r is Some) <==> self.unresolved_lines().len() > 0,
    {
        let rows = self.rows();
        let cols = self.cols();
        let diags = self.diags();
        let mut lines: Vec<Line> = Vec::new();
        let mut i: usize = 0;
        while i < rows
            invariant
                rows == self.cells().len(),
                0 <= i <= rows,
                lines@.len() == i,
                forall|j: int|
                    0 <= j < i ==> lines@[j] == (Line { index: j as usize, kind: Kind::Row }),
            decreases rows - i,
        {
            lines.push(Line { index: i, kind: Kind::Row });
            i += 1;
        }
        let mut j: usize = 0;
        while j < cols
            invariant
                rows == self.cells().len(),
                cols == self.width(),
                0 <= j <= cols,
                lines@.len() == rows + j,
                forall|k: int|
                    0 <= k < rows ==> lines@[k] == (Line { index: k as usize, kind: Kind::Row }),
                forall|k: int|
                    rows <= k < rows + j ==> #[trigger] lines@[k] == (Line {
                        index: (k - rows) as usize,
                        kind: Kind::Col,
                    }),
            decreases cols - j,
        {
            lines.push(Line { index: j, kind: Kind::Col });
            j += 1;
        }
        let mut dd: usize = 0;
        while dd < diags
            invariant
                rows == self.cells().len(),
                cols == self.width(),
                diags == self.diags_count(),
                0 <= dd <= diags,
                lines@.len() == rows + cols + dd,
                forall|k: int|
                    0 <= k < rows ==> lines@[k] == (Line { index: k as usize, kind: Kind::Row }),
                forall|k: int|
                    rows <= k < rows + cols ==> #[trigger] lines@[k] == (Line {
                        index: (k - rows) as usize,
                        kind: Kind::Col,
                    }),
                forall|k: int|
                    rows + cols <= k < rows + cols + dd ==> #[trigger] lines@[k] == (Line {
                        index: (k - rows - cols) as usize,
                        kind: Kind::Diag,
                    }),
            decreases diags - dd,
        {
            lines.push(Line { index: dd, kind: Kind::Diag });
            dd += 1;
        }
        proof {
            assert(lines@ =~= self.all_lines());
        }
        let mut unresolved: Vec<Line> = Vec::new();
        let mut k: usize = 0;
        while k < lines.len()
            invariant
                lines@ == self.all_lines(),
                0 <= k <= lines@.len(),
                unresolved@ == keep_unresolved(lines@.take(k as int), self.resolved()),
            decreases lines@.len() - k,
        {
            proof {
                assert(lines@.take(k + 1).drop_last() =~= lines@.take(k as int));
                assert(lines@.take(k + 1).last() == lines@[k as int]);
            }
            if !contains_line(&self.resolved_lines, &lines[k]) {
                proof {
                    assert(self.resolved_lines@ == self.resolved());
                }
                unresolved.push(lines[k]);
            }
            k += 1;
        }
        proof {
            assert(lines@.take(lines@.len() as int) =~= lines@);
            crate::lines::lemma_keep_unresolved_sound(self.all_lines(), self.resolved());
            assert forall|m: int| 0 <= m < self.unresolved_lines().len() implies self.line_ok(
                #[trigger] self.unresolved_lines()[m],
            ) by {
                let l = self.unresolved_lines()[m];
                assert(self.all_lines().contains(l));
                let w = choose|w: int| 0 <= w < self.all_lines().len() && self.all_lines()[w] == l;
                if w < self.cells().len() {
                    assert(self.all_lines()[w] == (Line { index: w as usize, kind: Kind::Row }));
                } else if w < self.cells().len() + self.width() {
                    assert(self.all_lines()[w] == (Line {
                        index: (w - self.cells().len()) as usize,
                        kind: Kind::Col,
                    }));
                } else {
                    assert(self.all_lines()[w] == (Line {
                        index: (w - self.cells().len() - self.width()) as usize,
                        kind: Kind::Diag,
                    }));
                }
            }
        }
        let mut best: Option<Line> = None;
        let mut m: usize = 0;
        while m < unresolved.len()
            invariant
                self.wf(),
                unresolved@ == self.unresolved_lines(),
                forall|t: int|
                    0 <= t < unresolved@.len() ==> self.line_ok(#[trigger] unresolved@[t]),
                0 <= m <= unresolved@.len(),
                best == self.best_of(unresolved@.take(m as int)),
            decreases unresolved@.len() - m,
        {
            proof {
                assert(unresolved@.take(m + 1).drop_last() =~= unresolved@.take(m as int));
                assert(unresolved@.take(m + 1).last() == unresolved@[m as int]);
            }
            let l = unresolved[m];
            match best {
                None => {
                    best = Some(l);
                },
                Some(b) => {
                    proof {
                        self.lemma_best_of_some(unresolved@.take(m as int));
                        let kb = choose|kb: int|
                            0 <= kb < unresolved@.take(m as int).len() && unresolved@.take(
                                m as int,
                            )[kb] == b;
                        assert(unresolved@[kb] == b);
                        assert(self.line_ok(b));
                    }
                    let ls = self.pattern(&l).unwrap();
                    let bs = self.pattern(&b).unwrap();
                    proof {
                        lemma_count_char_pair(ls@, '.', '_');
                        lemma_count_char_pair(bs@, '.', '_');
                        crate::lines::lemma_count_char_bounds(ls@, '.');
                        crate::lines::lemma_count_char_bounds(ls@, '_');
                        crate::lines::lemma_count_char_bounds(bs@, '.');
                        crate::lines::lemma_count_char_bounds(bs@, '_');
                    }
                    let l_lib = count_char_in(&ls, '.');
                    let l_blk = count_char_in(&ls, '_');
                    let l_len = ls.as_str().unicode_len();
                    let b_lib = count_char_in(&bs, '.');
                    let b_blk = count_char_in(&bs, '_');
                    let b_len = bs.as_str().unicode_len();
                    let l_cons = l_len - l_lib - l_blk;
                    let b_cons = b_len - b_lib - b_blk;
                    if l_cons > b_cons || (l_cons == b_cons && l_blk > b_blk) {
                        best = Some(l);
                    }
                },
            }
            m += 1;
        }
        proof {
            assert(unresolved@.take(unresolved@.len() as int) =~= unresolved@);
            self.lemma_best_of_some(self.unresolved_lines());
            crate::lines::lemma_keep_unresolved_sound(self.all_lines(), self.resolved());
        }
        best
    }
}

/// Whether the list holds this very line.
fn contains_line(v: &Vec<Line>, l: &Line) -> (r: bool)
    ensures
        r == v@.contains(*l),
{
    let mut i: usize = 0;
    while i < v.len()
        invariant
            0 <= i <= v@.len(),
            forall|j: int| 0 <= j < i ==> v@[j] != *l,
        decreases v@.len() - i,
    {
        if v[i] == *l {
            return true;
        }
        i += 1;
    }
    proof {
        if v@.contains(*l) {
            let k = choose|k: int| 0 <= k < v@.len() && v@[k] == *l;
            assert(false);
        }
    }
    false
}

impl Clone for GridBeehive {
    /// An owned copy with the same cells, dimensions and resolved lines.
    fn clone(&self) -> (r: Self)
        ensures
            r.cells() == self.cells(),
            r.width() == self.width(),
            r.resolved() == self.resolved(),
    {
        let mut resolved_lines: Vec<Line> = Vec::new();
        let mut i: usize = 0;
        while i < self.resolved_lines.len()
            invariant
                0 <= i <= self.resolved_lines@.len(),
                resolved_lines@ == self.resolved_lines@.take(i as int),
            decreases self.resolved_lines@.len() - i,
        {
            resolved_lines.push(self.resolved_lines[i]);
            proof {
                assert(resolved_lines@ =~= self.resolved_lines@.take(i + 1));
            }
            i += 1;
        }
        proof {
            assert(self.resolved_lines@.take(self.resolved_lines@.len() as int)
                =~= self.resolved_lines@);
        }
        GridBeehive { layout: mat_clone(&self.layout), resolved_lines }
    }
}

/// Whether two cell positions are neighbours under the six-direction
/// hexagonal adjacency: up, up-right, left, down-left, down, right.
pub open spec fn adjacent(r1: int, c1: int, r2: int, c2: int) -> bool {
    ||| (r2 == r1 - 1 && c2 == c1)
    ||| (r2 == r1 - 1 && c2 == c1 + 1)
    ||| (r2 == r1 && c2 == c1 - 1)
    ||| (r2 == r1 + 1 && c2 == c1 - 1)
    ||| (r2 == r1 + 1 && c2 == c1)
    ||| (r2 == r1 && c2 == c1 + 1)
}

/// How many cells of one visit row are still unvisited.
pub open spec fn row_false_count(s: Seq<bool>) -> int
    decreases s.len(),
{
    if s.len() == 0 {
        0
    } else {
        row_false_count(s.drop_last()) + (if s.last() {
            0int
        } else {
            1int
        })
    }
}

/// How many cells of the visit matrix are still unvisited.
pub open spec fn false_count(v: Seq<Vec<bool>>) -> int
    decreases v.len(),
{
    if v.len() == 0 {
        0
    } else {
        false_count(v.drop_last()) + row_false_count(v.last()@)
    }
}

proof fn lemma_row_false_count_nonneg(s: Seq<bool>)
    ensures
        row_false_count(s) >= 0,
    decreases s.len(),
{
    if s.len() > 0 {
        lemma_row_false_count_nonneg(s.drop_last());
    }
}

proof fn lemma_false_count_nonneg(v: Seq<Vec<bool>>)
    ensures
        false_count(v) >= 0,
    decreases v.len(),
{
    if v.len() > 0 {
        lemma_false_count_nonneg(v.drop_last());
        lemma_row_false_count_nonneg(v.last()@);
    }
}

proof fn lemma_row_false_count_update(s: Seq<bool>, c: int)
    requires
        0 <= c < s.len(),
        !s[c],
    ensures
        row_false_count(s.update(c, true)) == row_false_count(s) - 1,
    decreases s.len(),
{
    if c == s.len() - 1 {
        assert(s.update(c, true).drop_last() =~= s.drop_last());
        assert(s.update(c, true).last());
    } else {
        lemma_row_false_count_update(s.drop_last(), c);
        assert(s.update(c, true).drop_last() =~= s.drop_last().update(c, true));
        assert(s.update(c, true).last() == s.last());
    }
}

proof fn lemma_false_count_update(v: Seq<Vec<bool>>, r: int, w: Vec<bool>, c: int)
    requires
        0 <= r < v.len(),
        0 <= c < v[r]@.len(),
        !v[r]@[c],
        w@ == v[r]@.update(c, true),
    ensures
        false_count(v.update(r, w)) == false_count(v) - 1,
    decreases v.len(),
{
    if r == v.len() - 1 {
        assert(v.update(r, w).drop_last() =~= v.drop_last());
        assert(v.update(r, w).last() == w);
        lemma_row_false_count_update(v[r]@, c);
    } else {
        lemma_false_count_update(v.drop_last(), r, w, c);
        assert(v.update(r, w).drop_last() =~= v.drop_last().update(r, w));
        assert(v.update(r, w).last() == v.last());
    }
}

impl GridBeehive {
    /// Whether the cell at `(r, c)` lies on the board and is not blocked.
    pub open spec fn open_cell(&self, r: int, c: int) -> bool {
        0 <= r < self.cells().len() && 0 <= c < self.width() && self.cells()[r][c] != '_'
    }

    /// Whether `(r2, c2)` can be reached from `(r1, c1)` in at most `n`
    /// steps, each step moving onto an adjacent open cell.
    pub open spec fn reaches_n(&self, r1: int, c1: int, r2: int, c2: int, n: nat) -> bool
        decreases n,
    {
        if n == 0 {
            r1 == r2 && c1 == c2
        } else {
            self.reaches_n(r1, c1, r2, c2, (n - 1) as nat) || (self.open_cell(r2, c2) && (
            self.reaches_n(r1, c1, r2 + 1, c2, (n - 1) as nat) || self.reaches_n(
                r1,
                c1,
                r2 + 1,
                c2 - 1,
                (n - 1) as nat,
            ) || self.reaches_n(r1, c1, r2, c2 + 1, (n - 1) as nat) || self.reaches_n(
                r1,
                c1,
                r2 - 1,
                c2 + 1,
                (n - 1) as nat,
            ) || self.reaches_n(r1, c1, r2 - 1, c2, (n - 1) as nat) || self.reaches_n(
                r1,
                c1,
                r2,
                c2 - 1,
                (n - 1) as nat,
            )))
        }
    }

    /// A walk of positive length that is not shorter steps in from some
    /// adjacent open predecessor; this names one such predecessor.
    proof fn lemma_reach_pred(&self, r1: int, c1: int, r2: int, c2: int, n: nat) -> (p: (int, int))
        requires
            n > 0,
            self.reaches_n(r1, c1, r2, c2, n),
            !self.reaches_n(r1, c1, r2, c2, (n - 1) as nat),
        ensures
            self.reaches_n(r1, c1, p.0, p.1, (n - 1) as nat),
            adjacent(p.0, p.1, r2, c2),
            self.open_cell(r2, c2),
    {
        if self.reaches_n(r1, c1, r2 + 1, c2, (n - 1) as nat) {
            (r2 + 1, c2)
        } else if self.reaches_n(r1, c1, r2 + 1, c2 - 1, (n - 1) as nat) {
            (r2 + 1, c2 - 1)
        } else if self.reaches_n(r1, c1, r2, c2 + 1, (n - 1) as nat) {
            (r2, c2 + 1)
        } else if self.reaches_n(r1, c1, r2 - 1, c2 + 1, (n - 1) as nat) {
            (r2 - 1, c2 + 1)
        } else if self.reaches_n(r1, c1, r2 - 1, c2, (n - 1) as nat) {
            (r2 - 1, c2)
        } else {
            (r2, c2 - 1)
        }
    }

    /// Whether `(r2, c2)` can be reached from `(r1, c1)` by a walk over
    /// adjacent open cells.
    pub open spec fn reaches(&self, r1: int, c1: int, r2: int, c2: int) -> bool {
        exists|n: nat| self.reaches_n(r1, c1, r2, c2, n)
    }

    /// Whether the playable area forms a single connected component.
    pub open spec fn spec_connected(&self) -> bool {
        forall|r1: int, c1: int, r2: int, c2: int|
            #![trigger self.open_cell(r1, c1), self.open_cell(r2, c2)]
            self.open_cell(r1, c1) && self.open_cell(r2, c2) ==> self.reaches(r1, c1, r2, c2)
    }

    /// Every cell on a walk is open, except possibly its start.
    proof fn lemma_reaches_open(&self, r1: int, c1: int, r2: int, c2: int, n: nat)
        requires
            self.reaches_n(r1, c1, r2, c2, n),
        ensures
            (r1 == r2 && c1 == c2) || self.open_cell(r2, c2),
        decreases n,
    {
        if n > 0 {
            if self.reaches_n(r1, c1, r2, c2, (n - 1) as nat) {
                self.lemma_reaches_open(r1, c1, r2, c2, (n - 1) as nat);
            }
        }
    }

    /// Every cell reaches itself.
    proof fn lemma_reach_refl(&self, r1: int, c1: int)
        ensures
            self.reaches(r1, c1, r1, c1),
    {
        assert(self.reaches_n(r1, c1, r1, c1, 0));
    }

    /// A walk extends by one step onto an adjacent open cell.
    proof fn lemma_reach_step(&self, r1: int, c1: int, pr: int, pc: int, r2: int, c2: int)
        requires
            self.reaches(r1, c1, pr, pc),
            adjacent(pr, pc, r2, c2),
            self.open_cell(r2, c2),
        ensures
            self.reaches(r1, c1, r2, c2),
    {
        let n = choose|n: nat| self.reaches_n(r1, c1, pr, pc, n);
        assert(self.reaches_n(r1, c1, pr, pc, ((n + 1) - 1) as nat));
        assert(self.reaches_n(r1, c1, r2, c2, n + 1));
    }

    proof fn lemma_reach_trans_n(
        &self,
        r1: int,
        c1: int,
        r2: int,
        c2: int,
        r3: int,
        c3: int,
        n: nat,
    )
        requires
            self.reaches(r1, c1, r2, c2),
            self.reaches_n(r2, c2, r3, c3, n),
        ensures
            self.reaches(r1, c1, r3, c3),
        decreases n,
    {
        if n == 0 {
        } else if self.reaches_n(r2, c2, r3, c3, (n - 1) as nat) {
            self.lemma_reach_trans_n(r1, c1, r2, c2, r3, c3, (n - 1) as nat);
        } else {
            let (pr, pc) = self.lemma_reach_pred(r2, c2, r3, c3, n);
            self.lemma_reach_trans_n(r1, c1, r2, c2, pr, pc, (n - 1) as nat);
            self.lemma_reach_step(r1, c1, pr, pc, r3, c3);
        }
    }

    /// Walks concatenate.
    proof fn lemma_reach_trans(&self, r1: int, c1: int, r2: int, c2: int, r3: int, c3: int)
        requires
            self.reaches(r1, c1, r2, c2),
            self.reaches(r2, c2, r3, c3),
        ensures
            self.reaches(r1, c1, r3, c3),
    {
        let n = choose|n: nat| self.reaches_n(r2, c2, r3, c3, n);
        self.lemma_reach_trans_n(r1, c1, r2, c2, r3, c3, n);
    }

    proof fn lemma_reach_symm_n(&self, r1: int, c1: int, r2: int, c2: int, n: nat)
        requires
            self.open_cell(r1, c1),
            self.reaches_n(r1, c1, r2, c2, n),
        ensures
            self.reaches(r2, c2, r1, c1),
        decreases n,
    {
        if n == 0 {
            self.lemma_reach_refl(r1, c1);
        } else if self.reaches_n(r1, c1, r2, c2, (n - 1) as nat) {
            self.lemma_reach_symm_n(r1, c1, r2, c2, (n - 1) as nat);
        } else {
            let (pr, pc) = self.lemma_reach_pred(r1, c1, r2, c2, n);
            self.lemma_reach_symm_n(r1, c1, pr, pc, (n - 1) as nat);
            self.lemma_reaches_open(r1, c1, pr, pc, (n - 1) as nat);
            self.lemma_reach_refl(r2, c2);
            assert(adjacent(r2, c2, pr, pc));
            self.lemma_reach_step(r2, c2, r2, c2, pr, pc);
            self.lemma_reach_trans(r2, c2, pr, pc, r1, c1);
        }
    }

    /// Walks reverse between open cells.
    proof fn lemma_reach_symm(&self, r1: int, c1: int, r2: int, c2: int)
        requires
            self.open_cell(r1, c1),
            self.reaches(r1, c1, r2, c2),
        ensures
            self.reaches(r2, c2, r1, c1),
    {
        let n = choose|n: nat| self.reaches_n(r1, c1, r2, c2, n);
        self.lemma_reach_symm_n(r1, c1, r2, c2, n);
    }

    /// The visit matrix has one entry per cell.
    pub open spec fn vdims(&self, v: Seq<Vec<bool>>) -> bool {
        v.len() == self.cells().len() && forall|r: int|
            0 <= r < v.len() ==> (#[trigger] v[r])@.len() == self.width()
    }

    /// Every blocked cell counts as visited.
    pub open spec fn vblocked(&self, v: Seq<Vec<bool>>) -> bool {
        forall|r: int, c: int|
            0 <= r < self.cells().len() && 0 <= c < self.width() && self.cells()[r][c] == '_'
                ==> #[trigger] v[r]@[c]
    }

    /// Every visited cell is blocked or reached from the anchor.
    pub open spec fn vreached(&self, v: Seq<Vec<bool>>, ar: int, ac: int) -> bool {
        forall|r: int, c: int|
            0 <= r < self.cells().len() && 0 <= c < self.width() && #[trigger] v[r]@[c]
                ==> self.cells()[r][c] == '_' || self.reaches(ar, ac, r, c)
    }

    /// Every cell waiting on the stack is open and already visited.
    pub open spec fn vstack(&self, v: Seq<Vec<bool>>, stack: Seq<Cell>) -> bool {
        forall|k: int|
            0 <= k < stack.len() ==> self.open_cell(
                (#[trigger] stack[k]).row as int,
                stack[k].col as int,
            ) && v[stack[k].row as int]@[stack[k].col as int]
    }

    /// Every visited open cell that is done waiting has all its open
    /// neighbours visited, except possibly the one cell being processed.
    pub open spec fn vclosed_except(
        &self,
        v: Seq<Vec<bool>>,
        stack: Seq<Cell>,
        er: int,
        ec: int,
    ) -> bool {
        forall|r: int, c: int, r2: int, c2: int|
            #![trigger v[r]@[c], adjacent(r, c, r2, c2)]
            0 <= r < self.cells().len() && 0 <= c < self.width() && v[r]@[c] && self.cells()[r][c]
                != '_' && !stack.contains(Cell { row: r as usize, col: c as usize }) && !(r == er
                && c == ec) && adjacent(r, c, r2, c2) && self.open_cell(r2, c2) ==> v[r2]@[c2]
    }

    /// With nothing waiting and no exception, every reached cell has been
    /// visited.
    proof fn lemma_closed_reaches(
        &self,
        v: Seq<Vec<bool>>,
        ar: int,
        ac: int,
        r2: int,
        c2: int,
        n: nat,
    )
        requires
            self.wf(),
            self.vdims(v),
            self.open_cell(ar, ac),
            v[ar]@[ac],
            self.vclosed_except(v, Seq::empty(), -1, -1),
            self.reaches_n(ar, ac, r2, c2, n),
        ensures
            0 <= r2 < self.cells().len() && 0 <= c2 < self.width() ==> v[r2]@[c2],
        decreases n,
    {
        if n == 0 {
        } else if self.reaches_n(ar, ac, r2, c2, (n - 1) as nat) {
            self.lemma_closed_reaches(v, ar, ac, r2, c2, (n - 1) as nat);
        } else {
            let (pr, pc) = self.lemma_reach_pred(ar, ac, r2, c2, n);
            self.lemma_closed_reaches(v, ar, ac, pr, pc, (n - 1) as nat);
            self.lemma_reaches_open(ar, ac, pr, pc, (n - 1) as nat);
            assert(self.open_cell(pr, pc));
            assert(!Seq::<Cell>::empty().contains(Cell { row: pr as usize, col: pc as usize }));
        }
    }

    /// Marks one cell of the visit matrix.
    fn mark_cell(visited: &mut Vec<Vec<bool>>, r: usize, c: usize)
        requires
            r < old(visited)@.len(),
            c < old(visited)@[r as int]@.len(),
        ensures
            final(visited)@.len() == old(visited)@.len(),
            forall|i: int|
                0 <= i < old(visited)@.len() ==> (#[trigger] final(visited)@[i])@.len() == old(
                    visited,
                )@[i]@.len(),
            forall|i: int, j: int|
                0 <= i < old(visited)@.len() && 0 <= j < old(visited)@[i]@.len()
                    ==> #[trigger] final(visited)@[i]@[j] == (if i == r && j == c {
                    true
                } else {
                    old(visited)@[i]@[j]
                }),
            final(visited)@ == old(visited)@.update(r as int, final(visited)@[r as int]),
            final(visited)@[r as int]@ == old(visited)@[r as int]@.update(c as int, true),
    {
        let mut row: Vec<bool> = Vec::new();
        let n = visited[r].len();
        let mut j: usize = 0;
        while j < n
            invariant
                r < visited@.len(),
                n == visited@[r as int]@.len(),
                c < n,
                0 <= j <= n,
                row@.len() == j,
                forall|k: int|
                    0 <= k < j ==> row@[k] == (if k == c {
                        true
                    } else {
                        visited@[r as int]@[k]
                    }),
            decreases n - j,
        {
            if j == c {
                row.push(true);
            } else {
                row.push(visited[r][j]);
            }
            j += 1;
        }
        proof {
            assert(row@ =~= visited@[r as int]@.update(c as int, true));
        }
        visited.set(r, row);
    }

    /// Visits one neighbour candidate: when it lies on the board and is
    /// not visited yet, it is marked and queued.
    #[verifier::rlimit(30)]
    fn visit_neighbor(
        &self,
        visited: &mut Vec<Vec<bool>>,
        stack: &mut Vec<Cell>,
        cell: Cell,
        nr: usize,
        nc: usize,
        Ghost(ar): Ghost<int>,
        Ghost(ac): Ghost<int>,
    )
        requires
            self.wf(),
            self.vdims(old(visited)@),
            self.vblocked(old(visited)@),
            self.vreached(old(visited)@, ar, ac),
            self.vstack(old(visited)@, old(stack)@),
            self.vclosed_except(old(visited)@, old(stack)@, cell.row as int, cell.col as int),
            self.open_cell(cell.row as int, cell.col as int),
            old(visited)@[cell.row as int]@[cell.col as int],
            self.reaches(ar, ac, cell.row as int, cell.col as int),
            adjacent(cell.row as int, cell.col as int, nr as int, nc as int),
        ensures
            self.vdims(final(visited)@),
            self.vblocked(final(visited)@),
            self.vreached(final(visited)@, ar, ac),
            self.vstack(final(visited)@, final(stack)@),
            self.vclosed_except(final(visited)@, final(stack)@, cell.row as int, cell.col as int),
            forall|i: int, j: int|
                0 <= i < self.cells().len() && 0 <= j < self.width() && old(visited)@[i]@[j]
                    ==> #[trigger] final(visited)@[i]@[j],
            self.open_cell(nr as int, nc as int) ==> final(visited)@[nr as int]@[nc as int],
            (final(visited)@ == old(visited)@ && final(stack)@ == old(stack)@) || (false_count(
                final(visited)@,
            ) == false_count(old(visited)@) - 1 && final(stack)@ == old(stack)@.push(
                Cell { row: nr, col: nc },
            )),
    {
        let on_board = match self.get_cell(nr, nc) {
            Some(_) => true,
            None => false,
        };
        if !on_board {
            return ;
        }
        if visited[nr][nc] {
            return ;
        }
        proof {
            assert(self.cells()[nr as int][nc as int] != '_') by {
                if self.cells()[nr as int][nc as int] == '_' {
                    assert(old(visited)@[nr as int]@[nc as int]);
                }
            }
            assert(self.open_cell(nr as int, nc as int));
        }
        Self::mark_cell(visited, nr, nc);
        stack.push(Cell { row: nr, col: nc });
        proof {
            lemma_false_count_update(old(visited)@, nr as int, visited@[nr as int], nc as int);
            self.lemma_reach_step(ar, ac, cell.row as int, cell.col as int, nr as int, nc as int);
            assert(final(stack)@.contains(Cell { row: nr, col: nc })) by {
                assert(final(stack)@.last() == Cell { row: nr, col: nc });
            }
            assert forall|k: int| 0 <= k < final(stack)@.len() implies self.open_cell(
                (#[trigger] final(stack)@[k]).row as int,
                final(stack)@[k].col as int,
            ) && final(visited)@[final(stack)@[k].row as int]@[final(stack)@[k].col as int] by {
                if k < old(stack)@.len() {
                    assert(final(stack)@[k] == old(stack)@[k]);
                }
            }
            assert forall|r: int, c: int, r2: int, c2: int|
                #![trigger final(visited)@[r]@[c], adjacent(r, c, r2, c2)]
                0 <= r < self.cells().len() && 0 <= c < self.width() && final(visited)@[r]@[c]
                    && self.cells()[r][c] != '_' && !final(stack)@.contains(
                    Cell { row: r as usize, col: c as usize },
                ) && !(r == cell.row as int && c == cell.col as int) && adjacent(r, c, r2, c2)
                    && self.open_cell(r2, c2) implies final(visited)@[r2]@[c2] by {
                if r == nr && c == nc {
                    assert(final(stack)@.contains(Cell { row: r as usize, col: c as usize }));
                } else {
                    assert(old(visited)@[r]@[c]);
                    assert(!old(stack)@.contains(Cell { row: r as usize, col: c as usize })) by {
                        if old(stack)@.contains(Cell { row: r as usize, col: c as usize }) {
                            let k = choose|k: int|
                                0 <= k < old(stack)@.len() && old(stack)@[k] == (Cell {
                                    row: r as usize,
                                    col: c as usize,
                                });
                            assert(final(stack)@[k] == old(stack)@[k]);
                        }
                    }
                    assert(old(visited)@[r2]@[c2]);
                }
            }
        }
    }

    /// Whether the playable area breaks into more than one island: a
    /// traversal over adjacent open cells, started anywhere open, fails
    /// to visit some open cell. A fully blocked board has no island.
    pub fn has_isles(&self) -> (res: bool)
        requires
            self.wf(),
        ensures
            res == !self.spec_connected(),
    {
        let rows = self.rows();
        let cols = self.cols();
        let mut visited: Vec<Vec<bool>> = Vec::new();
        let mut br: usize = 0;
        while br < rows
            invariant
                self.wf(),
                rows == self.cells().len(),
                cols == self.width(),
                0 <= br <= rows,
                visited@.len() == br,
                forall|i: int| 0 <= i < br ==> (#[trigger] visited@[i])@.len() == cols,
                forall|i: int, j: int|
                    0 <= i < br && 0 <= j < cols ==> #[trigger] visited@[i]@[j] == (self.cells(
                    )[i][j] == '_'),
            decreases rows - br,
        {
            let mut row: Vec<bool> = Vec::new();
            let mut bc: usize = 0;
            while bc < cols
                invariant
                    self.wf(),
                    rows == self.cells().len(),
                    cols == self.width(),
                    0 <= br < rows,
                    0 <= bc <= cols,
                    row@.len() == bc,
                    forall|j: int|
                        0 <= j < bc ==> #[trigger] row@[j] == (self.cells()[br as int][j] == '_'),
                decreases cols - bc,
            {
                let ch = match self.get_cell(br, bc) {
                    Some(x) => x,
                    None => '_',
                };
                row.push(ch == '_');
                bc += 1;
            }
            visited.push(row);
            br += 1;
        }
        let mut open_cells: Vec<Cell> = Vec::new();
        let mut sr: usize = 0;
        while sr < rows
            invariant
                self.wf(),
                rows == self.cells().len(),
                cols == self.width(),
                0 <= sr <= rows,
                forall|k: int|
                    0 <= k < open_cells@.len() ==> self.open_cell(
                        (#[trigger] open_cells@[k]).row as int,
                        open_cells@[k].col as int,
                    ),
                open_cells@.len() == 0 ==> forall|i: int, j: int|
                    0 <= i < sr && 0 <= j < cols ==> #[trigger] self.cells()[i][j] == '_',
            decreases rows - sr,
        {
            let mut sc: usize = 0;
            while sc < cols
                invariant
                    self.wf(),
                    rows == self.cells().len(),
                    cols == self.width(),
                    0 <= sr < rows,
                    0 <= sc <= cols,
                    forall|k: int|
                        0 <= k < open_cells@.len() ==> self.open_cell(
                            (#[trigger] open_cells@[k]).row as int,
                            open_cells@[k].col as int,
                        ),
                    open_cells@.len() == 0 ==> forall|i: int, j: int|
                        0 <= i < sr && 0 <= j < cols ==> #[trigger] self.cells()[i][j] == '_',
                    open_cells@.len() == 0 ==> forall|j: int|
                        0 <= j < sc ==> #[trigger] self.cells()[sr as int][j] == '_',
                decreases cols - sc,
            {
                let ch = match self.get_cell(sr, sc) {
                    Some(x) => x,
                    None => '_',
                };
                if ch != '_' {
                    open_cells.push(Cell { row: sr, col: sc });
                }
                sc += 1;
            }
            sr += 1;
        }
        if open_cells.len() == 0 {
            proof {
                assert(self.spec_connected()) by {
                    assert(forall|r1: int, c1: int| !(#[trigger] self.open_cell(r1, c1)));
                }
            }
            return false;
        }
        let ai = random_below(open_cells.len());
        let anchor = open_cells[ai];
        let ghost ar = anchor.row as int;
        let ghost ac = anchor.col as int;
        Self::mark_cell(&mut visited, anchor.row, anchor.col);
        let mut stack: Vec<Cell> = Vec::new();
        stack.push(anchor);
        proof {
            self.lemma_reach_refl(ar, ac);
            assert(stack@.contains(anchor)) by {
                assert(stack@[0] == anchor);
            }
        }
        while stack.len() > 0
            invariant
                self.wf(),
                rows == self.cells().len(),
                cols == self.width(),
                self.vdims(visited@),
                self.vblocked(visited@),
                self.vreached(visited@, ar, ac),
                self.vstack(visited@, stack@),
                self.vclosed_except(visited@, stack@, -1, -1),
                self.open_cell(ar, ac),
                visited@[ar]@[ac],
            decreases false_count(visited@), stack@.len(),
        {
            proof {
                lemma_false_count_nonneg(visited@);
            }
            let ghost pre_pop_stack = stack@;
            let cell = stack.pop().unwrap();
            let ghost popped_stack = stack@;
            proof {
                assert(pre_pop_stack[pre_pop_stack.len() - 1] == cell);
                assert(self.open_cell(cell.row as int, cell.col as int));
                assert(visited@[cell.row as int]@[cell.col as int]);
                assert(self.reaches(ar, ac, cell.row as int, cell.col as int));
                assert(self.vclosed_except(visited@, stack@, cell.row as int, cell.col as int))
                    by {
                    assert forall|r: int, c: int, r2: int, c2: int|
                        #![trigger visited@[r]@[c], adjacent(r, c, r2, c2)]
                        0 <= r < self.cells().len() && 0 <= c < self.width() && visited@[r]@[c]
                            && self.cells()[r][c] != '_' && !popped_stack.contains(
                            Cell { row: r as usize, col: c as usize },
                        ) && !(r == cell.row as int && c == cell.col as int) && adjacent(
                            r,
                            c,
                            r2,
                            c2,
                        ) && self.open_cell(r2, c2) implies visited@[r2]@[c2] by {
                        assert(!pre_pop_stack.contains(Cell { row: r as usize, col: c as usize }))
                            by {
                            if pre_pop_stack.contains(Cell { row: r as usize, col: c as usize }) {
                                let k = choose|k: int|
                                    0 <= k < pre_pop_stack.len() && pre_pop_stack[k] == (Cell {
                                        row: r as usize,
                                        col: c as usize,
                                    });
                                if k < popped_stack.len() {
                                    assert(popped_stack[k] == pre_pop_stack[k]);
                                }
                            }
                        }
                    }
                }
            }
            let cr = cell.row;
            let cc = cell.col;
            if cr > 0 {
                self.visit_neighbor(&mut visited, &mut stack, cell, cr - 1, cc, Ghost(ar), Ghost(ac));
                self.visit_neighbor(
                    &mut visited,
                    &mut stack,
                    cell,
                    cr - 1,
                    cc + 1,
                    Ghost(ar),
                    Ghost(ac),
                );
            }
            if cc > 0 {
                self.visit_neighbor(&mut visited, &mut stack, cell, cr, cc - 1, Ghost(ar), Ghost(ac));
                self.visit_neighbor(
                    &mut visited,
                    &mut stack,
                    cell,
                    cr + 1,
                    cc - 1,
                    Ghost(ar),
                    Ghost(ac),
                );
            }
            self.visit_neighbor(&mut visited, &mut stack, cell, cr + 1, cc, Ghost(ar), Ghost(ac));
            self.visit_neighbor(&mut visited, &mut stack, cell, cr, cc + 1, Ghost(ar), Ghost(ac));
            proof {
                assert(self.vclosed_except(visited@, stack@, -1, -1)) by {
                    assert forall|r: int, c: int, r2: int, c2: int|
                        #![trigger visited@[r]@[c], adjacent(r, c, r2, c2)]
                        0 <= r < self.cells().len() && 0 <= c < self.width() && visited@[r]@[c]
                            && self.cells()[r][c] != '_' && !stack@.contains(
                            Cell { row: r as usize, col: c as usize },
                        ) && !(r == -1 && c == -1) && adjacent(r, c, r2, c2) && self.open_cell(
                            r2,
                            c2,
                        ) implies visited@[r2]@[c2] by {
                        if r == cell.row as int && c == cell.col as int {
                            if r2 == r - 1 && c2 == c {
                                assert(cr > 0);
                            } else if r2 == r - 1 && c2 == c + 1 {
                                assert(cr > 0);
                            } else if r2 == r && c2 == c - 1 {
                                assert(cc > 0);
                            } else if r2 == r + 1 && c2 == c - 1 {
                                assert(cc > 0);
                            } else if r2 == r + 1 && c2 == c {
                            } else {
                                assert(r2 == r && c2 == c + 1);
                            }
                        }
                    }
                }
                lemma_false_count_nonneg(visited@);
            }
        }
        proof {
            assert(stack@ =~= Seq::<Cell>::empty());
        }
        let mut fr: usize = 0;
        while fr < rows
            invariant
                self.wf(),
                rows == self.cells().len(),
                cols == self.width(),
                self.vdims(visited@),
                self.vblocked(visited@),
                self.vreached(visited@, ar, ac),
                self.vclosed_except(visited@, Seq::empty(), -1, -1),
                self.open_cell(ar, ac),
                visited@[ar]@[ac],
                0 <= fr <= rows,
                forall|i: int, j: int| 0 <= i < fr && 0 <= j < cols ==> #[trigger] visited@[i]@[j],
            decreases rows - fr,
        {
            let mut fcx: usize = 0;
            while fcx < cols
                invariant
                    self.wf(),
                    rows == self.cells().len(),
                    cols == self.width(),
                    self.vdims(visited@),
                    self.vblocked(visited@),
                    self.vreached(visited@, ar, ac),
                    self.vclosed_except(visited@, Seq::empty(), -1, -1),
                    self.open_cell(ar, ac),
                    visited@[ar]@[ac],
                    0 <= fr < rows,
                    0 <= fcx <= cols,
                    forall|i: int, j: int|
                        0 <= i < fr && 0 <= j < cols ==> #[trigger] visited@[i]@[j],
                    forall|j: int| 0 <= j < fcx ==> #[trigger] visited@[fr as int]@[j],
                decreases cols - fcx,
            {
                if !visited[fr][fcx] {
                    proof {
                        let xr = fr as int;
                        let xc = fcx as int;
                        assert(self.cells()[xr][xc] != '_');
                        assert(self.open_cell(xr, xc));
                        assert(!self.reaches(ar, ac, xr, xc)) by {
                            if self.reaches(ar, ac, xr, xc) {
                                let n = choose|n: nat| self.reaches_n(ar, ac, xr, xc, n);
                                self.lemma_closed_reaches(visited@, ar, ac, xr, xc, n);
                            }
                        }
                        assert(!self.spec_connected());
                    }
                    return true;
                }
                fcx += 1;
            }
            fr += 1;
        }
        proof {
            assert(self.spec_connected()) by {
                assert forall|r1: int, c1: int, r2: int, c2: int|
                    #![trigger self.open_cell(r1, c1), self.open_cell(r2, c2)]
                    self.open_cell(r1, c1) && self.open_cell(r2, c2) implies self.reaches(
                    r1,
                    c1,
                    r2,
                    c2,
                ) by {
                    assert(visited@[r1]@[c1]);
                    assert(visited@[r2]@[c2]);
                    assert(self.reaches(ar, ac, r1, c1));
                    assert(self.reaches(ar, ac, r2, c2));
                    self.lemma_reach_symm(ar, ac, r1, c1);
                    self.lemma_reach_trans(r1, c1, ar, ac, r2, c2);
                }
            }
        }
        false
    }

    /// The words contributed by the first `r` rows, in order.
    pub open spec fn rows_runs(&self, r: int) -> Seq<Seq<char>>
        decreases r,
    {
        if r <= 0 {
            Seq::empty()
        } else {
            self.rows_runs(r - 1) + good_runs(self.cells()[r - 1])
        }
    }

    /// The words contributed by the first `c` columns, in order.
    pub open spec fn cols_runs(&self, c: int) -> Seq<Seq<char>>
        decreases c,
    {
        if c <= 0 {
            Seq::empty()
        } else {
            self.cols_runs(c - 1) + good_runs(column_of(self.cells(), c - 1))
        }
    }

    /// The words contributed by the first `d` anti-diagonals, in order.
    pub open spec fn diags_runs(&self, d: int) -> Seq<Seq<char>>
        decreases d,
    {
        if d <= 0 {
            Seq::empty()
        } else {
            self.diags_runs(d - 1) + good_runs(self.diag_text(d - 1))
        }
    }

    /// Every word the whole board holds: the bounded, fully resolved runs
    /// of all rows, then of all columns, then of all anti-diagonals.
    pub open spec fn board_runs(&self) -> Seq<Seq<char>> {
        self.rows_runs(self.cells().len() as int) + self.cols_runs(self.width() as int)
            + self.diags_runs(self.diags_count())
    }

    /// Whether some word occurs twice among the board's runs.
    pub open spec fn spec_has_duplicates(&self) -> bool {
        has_repeat(self.board_runs())
    }

    proof fn lemma_rows_runs_mono(&self, r1: int, r2: int)
        requires
            0 <= r1 <= r2,
        ensures
            is_prefix(self.rows_runs(r1), self.rows_runs(r2)),
        decreases r2,
    {
        if r1 == r2 {
            lemma_prefix_refl(self.rows_runs(r1));
        } else {
            self.lemma_rows_runs_mono(r1, r2 - 1);
            lemma_prefix_extend(
                self.rows_runs(r1),
                self.rows_runs(r2 - 1),
                good_runs(self.cells()[r2 - 1]),
            );
        }
    }

    proof fn lemma_cols_runs_mono(&self, c1: int, c2: int)
        requires
            0 <= c1 <= c2,
        ensures
            is_prefix(self.cols_runs(c1), self.cols_runs(c2)),
        decreases c2,
    {
        if c1 == c2 {
            lemma_prefix_refl(self.cols_runs(c1));
        } else {
            self.lemma_cols_runs_mono(c1, c2 - 1);
            lemma_prefix_extend(
                self.cols_runs(c1),
                self.cols_runs(c2 - 1),
                good_runs(column_of(self.cells(), c2 - 1)),
            );
        }
    }

    proof fn lemma_diags_runs_mono(&self, d1: int, d2: int)
        requires
            0 <= d1 <= d2,
        ensures
            is_prefix(self.diags_runs(d1), self.diags_runs(d2)),
        decreases d2,
    {
        if d1 == d2 {
            lemma_prefix_refl(self.diags_runs(d1));
        } else {
            self.lemma_diags_runs_mono(d1, d2 - 1);
            lemma_prefix_extend(
                self.diags_runs(d1),
                self.diags_runs(d2 - 1),
                good_runs(self.diag_text(d2 - 1)),
            );
        }
    }

    /// A prefix of the words seen while scanning row `ri` is a prefix of
    /// the whole board's words.
    proof fn lemma_row_scan_prefix(&self, ri: int, part: Seq<Seq<char>>)
        requires
            0 <= ri < self.cells().len(),
            is_prefix(part, good_runs(self.cells()[ri])),
        ensures
            is_prefix(self.rows_runs(ri) + part, self.board_runs()),
    {
        lemma_prefix_concat_left(self.rows_runs(ri), part, good_runs(self.cells()[ri]));
        self.lemma_rows_runs_mono(ri + 1, self.cells().len() as int);
        lemma_prefix_trans(
            self.rows_runs(ri) + part,
            self.rows_runs(ri + 1),
            self.rows_runs(self.cells().len() as int),
        );
        lemma_prefix_extend(
            self.rows_runs(ri) + part,
            self.rows_runs(self.cells().len() as int),
            self.cols_runs(self.width() as int),
        );
        lemma_prefix_extend(
            self.rows_runs(ri) + part,
            self.rows_runs(self.cells().len() as int) + self.cols_runs(self.width() as int),
            self.diags_runs(self.diags_count()),
        );
    }

    /// A prefix of the words seen while scanning column `ci`, after all
    /// rows, is a prefix of the whole board's words.
    proof fn lemma_col_scan_prefix(&self, ci: int, part: Seq<Seq<char>>)
        requires
            0 <= ci < self.width(),
            is_prefix(part, good_runs(column_of(self.cells(), ci))),
        ensures
            is_prefix(
                self.rows_runs(self.cells().len() as int) + (self.cols_runs(ci) + part),
                self.board_runs(),
            ),
    {
        lemma_prefix_concat_left(self.cols_runs(ci), part, good_runs(column_of(self.cells(), ci)));
        self.lemma_cols_runs_mono(ci + 1, self.width() as int);
        lemma_prefix_trans(
            self.cols_runs(ci) + part,
            self.cols_runs(ci + 1),
            self.cols_runs(self.width() as int),
        );
        lemma_prefix_concat_left(
            self.rows_runs(self.cells().len() as int),
            self.cols_runs(ci) + part,
            self.cols_runs(self.width() as int),
        );
        lemma_prefix_extend(
            self.rows_runs(self.cells().len() as int) + (self.cols_runs(ci) + part),
            self.rows_runs(self.cells().len() as int) + self.cols_runs(self.width() as int),
            self.diags_runs(self.diags_count()),
        );
    }

    /// A prefix of the words seen while scanning anti-diagonal `di`,
    /// after all rows and columns, is a prefix of the whole board's words.
    proof fn lemma_diag_scan_prefix(&self, di: int, part: Seq<Seq<char>>)
        requires
            0 <= di < self.diags_count(),
            is_prefix(part, good_runs(self.diag_text(di))),
        ensures
            is_prefix(
                (self.rows_runs(self.cells().len() as int) + self.cols_runs(self.width() as int))
                    + (self.diags_runs(di) + part),
                self.board_runs(),
            ),
    {
        lemma_prefix_concat_left(self.diags_runs(di), part, good_runs(self.diag_text(di)));
        self.lemma_diags_runs_mono(di + 1, self.diags_count());
        lemma_prefix_trans(
            self.diags_runs(di) + part,
            self.diags_runs(di + 1),
            self.diags_runs(self.diags_count()),
        );
        lemma_prefix_concat_left(
            self.rows_runs(self.cells().len() as int) + self.cols_runs(self.width() as int),
            self.diags_runs(di) + part,
            self.diags_runs(self.diags_count()),
        );
    }

    /// Whether some bounded, fully resolved run of a row, column, or
    /// anti-diagonal occurs twice on the board.
    pub fn has_duplicates(&self) -> (r: bool)
        requires
            self.wf(),
        ensures
            r == self.spec_has_duplicates(),
    {
        let rows = self.rows();
        let cols = self.cols();
        let diags = self.diags();
        let mut seen: Vec<String> = Vec::new();
        let mut ri: usize = 0;
        while ri < rows
            invariant
                self.wf(),
                rows == self.cells().len(),
                cols == self.width(),
                0 <= ri <= rows,
                views_of(seen@) == self.rows_runs(ri as int),
                !has_repeat(views_of(seen@)),
            decreases rows - ri,
        {
            let t = self.get_row(ri).unwrap();
            let runs = filter_words(split_gaps(&t));
            let ghost line_runs = good_runs(self.cells()[ri as int]);
            let mut k: usize = 0;
            while k < runs.len()
                invariant
                    self.wf(),
                    rows == self.cells().len(),
                    cols == self.width(),
                    0 <= ri < rows,
                    views_of(runs@) == line_runs,
                    line_runs == good_runs(self.cells()[ri as int]),
                    0 <= k <= runs@.len(),
                    views_of(seen@) == self.rows_runs(ri as int) + line_runs.take(k as int),
                    !has_repeat(views_of(seen@)),
                decreases runs@.len() - k,
            {
                let ghost prev = views_of(seen@);
                let ghost x = runs@[k as int]@;
                if contains_string(&seen, &runs[k]) {
                    proof {
                        let i = choose|i: int| 0 <= i < prev.len() && prev[i] == x;
                        assert(has_repeat(prev.push(x))) by {
                            assert(prev.push(x)[i] == x);
                            assert(prev.push(x)[prev.len() as int] == x);
                        }
                        assert(prev.push(x) =~= self.rows_runs(ri as int) + line_runs.take(k + 1));
                        crate::lines::lemma_take_prefix(line_runs, k + 1);
                        self.lemma_row_scan_prefix(ri as int, line_runs.take(k + 1));
                        crate::lines::lemma_prefix_has_repeat(prev.push(x), self.board_runs());
                    }
                    return true;
                }
                seen.push(runs[k].clone());
                proof {
                    crate::lines::lemma_push_no_repeat(prev, x);
                    assert(views_of(seen@) =~= prev.push(x));
                    assert(views_of(seen@) =~= self.rows_runs(ri as int) + line_runs.take(k + 1));
                }
                k += 1;
            }
            proof {
                assert(line_runs.take(runs@.len() as int) =~= line_runs);
                assert(views_of(seen@) == self.rows_runs(ri + 1));
            }
            ri += 1;
        }
        let mut ci: usize = 0;
        while ci < cols
            invariant
                self.wf(),
                rows == self.cells().len(),
                cols == self.width(),
                0 <= ci <= cols,
                views_of(seen@) == self.rows_runs(rows as int) + self.cols_runs(ci as int),
                !has_repeat(views_of(seen@)),
            decreases cols - ci,
        {
            let t = self.get_col(ci).unwrap();
            let runs = filter_words(split_gaps(&t));
            let ghost line_runs = good_runs(column_of(self.cells(), ci as int));
            let mut k: usize = 0;
            while k < runs.len()
                invariant
                    self.wf(),
                    rows == self.cells().len(),
                    cols == self.width(),
                    0 <= ci < cols,
                    views_of(runs@) == line_runs,
                    line_runs == good_runs(column_of(self.cells(), ci as int)),
                    0 <= k <= runs@.len(),
                    views_of(seen@) == self.rows_runs(rows as int) + (self.cols_runs(ci as int)
                        + line_runs.take(k as int)),
                    !has_repeat(views_of(seen@)),
                decreases runs@.len() - k,
            {
                let ghost prev = views_of(seen@);
                let ghost x = runs@[k as int]@;
                if contains_string(&seen, &runs[k]) {
                    proof {
                        let i = choose|i: int| 0 <= i < prev.len() && prev[i] == x;
                        assert(has_repeat(prev.push(x))) by {
                            assert(prev.push(x)[i] == x);
                            assert(prev.push(x)[prev.len() as int] == x);
                        }
                        assert(prev.push(x) =~= self.rows_runs(rows as int) + (self.cols_runs(
                            ci as int,
                        ) + line_runs.take(k + 1)));
                        crate::lines::lemma_take_prefix(line_runs, k + 1);
                        self.lemma_col_scan_prefix(ci as int, line_runs.take(k + 1));
                        crate::lines::lemma_prefix_has_repeat(prev.push(x), self.board_runs());
                    }
                    return true;
                }
                seen.push(runs[k].clone());
                proof {
                    crate::lines::lemma_push_no_repeat(prev, x);
                    assert(views_of(seen@) =~= prev.push(x));
                    assert(views_of(seen@) =~= self.rows_runs(rows as int) + (self.cols_runs(
                        ci as int,
                    ) + line_runs.take(k + 1)));
                }
                k += 1;
            }
            proof {
                assert(line_runs.take(runs@.len() as int) =~= line_runs);
                assert(views_of(seen@) =~= self.rows_runs(rows as int) + self.cols_runs(ci + 1));
            }
            ci += 1;
        }
        let mut di: usize = 0;
        while di < diags
            invariant
                self.wf(),
                rows == self.cells().len(),
                cols == self.width(),
                diags == self.diags_count(),
                0 <= di <= diags,
                views_of(seen@) == (self.rows_runs(rows as int) + self.cols_runs(cols as int))
                    + self.diags_runs(di as int),
                !has_repeat(views_of(seen@)),
            decreases diags - di,
        {
            let t = self.get_diag(di).unwrap();
            let runs = filter_words(split_gaps(&t));
            let ghost line_runs = good_runs(self.diag_text(di as int));
            let mut k: usize = 0;
            while k < runs.len()
                invariant
                    self.wf(),
                    rows == self.cells().len(),
                    cols == self.width(),
                    diags == self.diags_count(),
                    0 <= di < diags,
                    views_of(runs@) == line_runs,
                    line_runs == good_runs(self.diag_text(di as int)),
                    0 <= k <= runs@.len(),
                    views_of(seen@) == (self.rows_runs(rows as int) + self.cols_runs(cols as int))
                        + (self.diags_runs(di as int) + line_runs.take(k as int)),
                    !has_repeat(views_of(seen@)),
                decreases runs@.len() - k,
            {
                let ghost prev = views_of(seen@);
                let ghost x = runs@[k as int]@;
                if contains_string(&seen, &runs[k]) {
                    proof {
                        let i = choose|i: int| 0 <= i < prev.len() && prev[i] == x;
                        assert(has_repeat(prev.push(x))) by {
                            assert(prev.push(x)[i] == x);
                            assert(prev.push(x)[prev.len() as int] == x);
                        }
                        assert(prev.push(x) =~= (self.rows_runs(rows as int) + self.cols_runs(
                            cols as int,
                        )) + (self.diags_runs(di as int) + line_runs.take(k + 1)));
                        crate::lines::lemma_take_prefix(line_runs, k + 1);
                        self.lemma_diag_scan_prefix(di as int, line_runs.take(k + 1));
                        crate::lines::lemma_prefix_has_repeat(prev.push(x), self.board_runs());
                    }
                    return true;
                }
                seen.push(runs[k].clone());
                proof {
                    crate::lines::lemma_push_no_repeat(prev, x);
                    assert(views_of(seen@) =~= prev.push(x));
                    assert(views_of(seen@) =~= (self.rows_runs(rows as int) + self.cols_runs(
                        cols as int,
                    )) + (self.diags_runs(di as int) + line_runs.take(k + 1)));
                }
                k += 1;
            }
            proof {
                assert(line_runs.take(runs@.len() as int) =~= line_runs);
                assert(views_of(seen@) =~= (self.rows_runs(rows as int) + self.cols_runs(
                    cols as int,
                )) + self.diags_runs(di + 1));
            }
            di += 1;
        }
        proof {
            assert(views_of(seen@) == self.board_runs());
        }
        false
    }

    /// Whether some row, column, or anti-diagonal holds a forbidden
    /// tuple.
    pub open spec fn spec_has_forbidden(&self, tuples: Seq<Seq<char>>) -> bool {
        ||| exists|r: int|
            0 <= r < self.cells().len() && has_forbidden(tuples, #[trigger] self.cells()[r])
        ||| exists|c: int|
            0 <= c < self.width() && has_forbidden(tuples, #[trigger] column_of(self.cells(), c))
        ||| exists|d: int|
            0 <= d < self.diags_count() && has_forbidden(tuples, #[trigger] self.diag_text(d))
    }

    /// Whether some line of the board holds a forbidden tuple of the
    /// dictionary.
    pub fn has_forbidden_tupples(&self, dictionary: &Dictionary) -> (r: bool)
        requires
            self.wf(),
        ensures
            r == self.spec_has_forbidden(views_of(dictionary.forbidden_tuples@)),
    {
        let ghost tuples = views_of(dictionary.forbidden_tuples@);
        let rows = self.rows();
        let cols = self.cols();
        let diags = self.diags();
        let mut ri: usize = 0;
        while ri < rows
            invariant
                self.wf(),
                rows == self.cells().len(),
                cols == self.width(),
                tuples == views_of(dictionary.forbidden_tuples@),
                0 <= ri <= rows,
                forall|a: int| 0 <= a < ri ==> !has_forbidden(tuples, #[trigger] self.cells()[a]),
            decreases rows - ri,
        {
            let t = self.get_row(ri).unwrap();
            let hit = match dictionary.has_forbidden_tuples(t) {
                Ok(b) => b,
                Err(_) => false,
            };
            if hit {
                return true;
            }
            ri += 1;
        }
        let mut ci: usize = 0;
        while ci < cols
            invariant
                self.wf(),
                rows == self.cells().len(),
                cols == self.width(),
                tuples == views_of(dictionary.forbidden_tuples@),
                0 <= ci <= cols,
                forall|a: int| 0 <= a < rows ==> !has_forbidden(tuples, #[trigger] self.cells()[a]),
                forall|b: int|
                    0 <= b < ci ==> !has_forbidden(tuples, #[trigger] column_of(self.cells(), b)),
            decreases cols - ci,
        {
            let t = self.get_col(ci).unwrap();
            let hit = match dictionary.has_forbidden_tuples(t) {
                Ok(b) => b,
                Err(_) => false,
            };
            if hit {
                return true;
            }
            ci += 1;
        }
        let mut di: usize = 0;
        while di < diags
            invariant
                self.wf(),
                rows == self.cells().len(),
                cols == self.width(),
                diags == self.diags_count(),
                tuples == views_of(dictionary.forbidden_tuples@),
                0 <= di <= diags,
                forall|a: int| 0 <= a < rows ==> !has_forbidden(tuples, #[trigger] self.cells()[a]),
                forall|b: int|
                    0 <= b < cols ==> !has_forbidden(tuples, #[trigger] column_of(self.cells(), b)),
                forall|e: int|
                    0 <= e < di ==> !has_forbidden(tuples, #[trigger] self.diag_text(e)),
            decreases diags - di,
        {
            let t = self.get_diag(di).unwrap();
            let hit = match dictionary.has_forbidden_tuples(t) {
                Ok(b) => b,
                Err(_) => false,
            };
            if hit {
                return true;
            }
            di += 1;
        }
        proof {
            if self.spec_has_forbidden(tuples) {
                if exists|r: int|
                    0 <= r < self.cells().len() && has_forbidden(tuples, #[trigger] self.cells()[r]) {
                    let a = choose|r: int|
                        0 <= r < self.cells().len() && has_forbidden(
                            tuples,
                            #[trigger] self.cells()[r],
                        );
                    assert(false);
                } else if exists|c: int|
                    0 <= c < self.width() && has_forbidden(
                        tuples,
                        #[trigger] column_of(self.cells(), c),
                    ) {
                    let b = choose|c: int|
                        0 <= c < self.width() && has_forbidden(
                            tuples,
                            #[trigger] column_of(self.cells(), c),
                        );
                    assert(false);
                } else {
                    let e = choose|d: int|
                        0 <= d < self.diags_count() && has_forbidden(
                            tuples,
                            #[trigger] self.diag_text(d),
                        );
                    assert(false);
                }
            }
        }
        false
    }

    /// Whether the validator rejects the board: a repeated run, a
    /// forbidden tuple, or an isolated island of open cells.
    pub open spec fn spec_is_invalid(&self, tuples: Seq<Seq<char>>) -> bool {
        self.spec_has_duplicates() || self.spec_has_forbidden(tuples) || !self.spec_connected()
    }

    /// Runs every validity check against the board.
    pub fn is_invalid(&self, dictionary: &Dictionary) -> (r: bool)
        requires
            self.wf(),
        ensures
            r == self.spec_is_invalid(views_of(dictionary.forbidden_tuples@)),
    {
        self.has_duplicates() || self.has_forbidden_tupples(dictionary) || self.has_isles()
    }

    /// Fills the board line by line by depth-first search: the most
    /// constrained line first, its candidates in a random order, invalid
    /// boards pruned. When `allow_adding_blacks` is set the candidate
    /// lookup may also introduce new blocked cells, though never over a
    /// cell already decided; without it, no new blocked cell appears at
    /// all. A returned board has the same dimensions, no unresolved line
    /// left, passes every validity check, and keeps every blocked cell
    /// and every letter the starting board already held.
    pub fn recursive_generate(&self, dictionary: &Dictionary, allow_adding_blacks: bool) -> (res:
        Option<GridBeehive>)
        requires
            self.wf(),
            lowercase_words(views_of(dictionary.common_words@)),
        ensures
            self.unresolved_lines().len() == 0 && !self.spec_is_invalid(
                views_of(dictionary.forbidden_tuples@),
            ) ==> res is Some,
            (match res {
                Some(g) => {
                    &&& g.wf()
                    &&& g.cells().len() == self.cells().len()
                    &&& g.width() == self.width()
                    &&& g.unresolved_lines().len() == 0
                    &&& !g.spec_is_invalid(views_of(dictionary.forbidden_tuples@))
                    &&& forall|r: int, c: int|
                        0 <= r < self.cells().len() && 0 <= c < self.width() && self.cells()[r][c]
                            != '\0' && self.cells()[r][c] != '.' ==> #[trigger] g.cells()[r][c]
                            == self.cells()[r][c]
                    &&& (self.unresolved_lines().len() == 0 ==> g.cells() == self.cells())
                    &&& (self.resolved_filled() ==> forall|r: int, c: int|
                        0 <= r < g.cells().len() && 0 <= c < g.width()
                            ==> #[trigger] g.cells()[r][c] != '\0')
                    &&& (!allow_adding_blacks ==> forall|r: int, c: int|
                        0 <= r < self.cells().len() && 0 <= c < self.width()
                            && #[trigger] g.cells()[r][c] == '_' ==> self.cells()[r][c] == '_')
                },
                None => true,
            }),
        decreases self.unresolved_lines().len(),
    {
        let ghost tuples = views_of(dictionary.forbidden_tuples@);
        let opt_next_line = self.next_line();
        if opt_next_line.is_none() {
            if self.is_invalid(dictionary) {
                return None;
            }
            let out = self.clone();
            proof {
                assert(out.unresolved_lines() == self.unresolved_lines());
                GridBeehive::lemma_search_step_deterministic(self, &out, tuples);
                if self.resolved_filled() {
                    crate::lines::lemma_keep_unresolved_empty(self.all_lines(), self.resolved());
                    assert(self.cells().len() <= usize::MAX) by (nonlinear_arith)
                        requires
                            self.cells().len() * self.width() <= usize::MAX,
                            self.width() >= 1,
                    ;
                    assert forall|r: int, c: int|
                        0 <= r < self.cells().len() && 0 <= c < self.width() implies self.cells(
                    )[r][c] != '\0' by {
                        let l = Line { index: r as usize, kind: Kind::Row };
                        assert(l.index as int == r);
                        assert(self.all_lines()[r] == l);
                        assert(self.resolved().contains(l));
                        assert(self.line_ok(l));
                        let k = choose|k: int|
                            0 <= k < self.resolved().len() && self.resolved()[k] == l;
                        assert(self.line_filled(l));
                        assert(self.line_text(l)[c] == self.cells()[r][c]);
                    }
                }
            }
            return Some(out);
        }
        if self.is_invalid(dictionary) {
            return None;
        }
        let next_line = opt_next_line.unwrap();
        proof {
            self.lemma_best_of_some(self.unresolved_lines());
        }
        let next_pattern = self.pattern(&next_line);
        if let Some(pattern) = next_pattern {
            let ghost p = pattern@;
            let ghost words = views_of(dictionary.common_words@);
            let mut candidates = if allow_adding_blacks {
                match dictionary.find_candidates_allow_split(pattern) {
                    Ok(v) => v,
                    Err(_) => Vec::new(),
                }
            } else {
                match dictionary.recursive_find_candidates(pattern) {
                    Ok(v) => v,
                    Err(_) => Vec::new(),
                }
            };
            let ghost pre = candidates@;
            proof {
                crate::pattern::lemma_split_candidates_len(words, p);
                crate::pattern::lemma_gap_candidates_len(words, p);
                crate::pattern::lemma_split_candidates_compat(words, p);
                crate::pattern::lemma_gap_candidates_compat(words, p);
                crate::pattern::lemma_split_candidates_chars(words, p);
                crate::pattern::lemma_gap_candidates_chars(words, p);
                assert forall|k: int| 0 <= k < pre.len() implies (#[trigger] pre[k])@.len()
                    == p.len() && crate::pattern::pattern_compat(pre[k]@, p) && (forall|t: int|
                    0 <= t < pre[k]@.len() ==> #[trigger] pre[k]@[t] != '\0') && (
                !allow_adding_blacks ==> forall|t: int|
                    0 <= t < pre[k]@.len() && #[trigger] pre[k]@[t] == '_' ==> p[t] == '_') by {
                    assert(views_of(pre)[k] == pre[k]@);
                    if allow_adding_blacks {
                        assert(views_of(pre) == crate::pattern::split_candidates(words, p));
                    } else {
                        assert(views_of(pre) == crate::pattern::gap_candidates(words, p));
                    }
                }
            }
            shuffle_strings(&mut candidates);
            proof {
                broadcast use vstd::seq_lib::group_to_multiset_ensures;

                assert forall|k: int| 0 <= k < candidates@.len() implies (
                #[trigger] candidates@[k])@.len() == p.len() && crate::pattern::pattern_compat(
                    candidates@[k]@,
                    p,
                ) && (forall|t: int|
                    0 <= t < candidates@[k]@.len() ==> #[trigger] candidates@[k]@[t] != '\0') && (
                !allow_adding_blacks ==> forall|t: int|
                    0 <= t < candidates@[k]@.len() && #[trigger] candidates@[k]@[t] == '_' ==> p[t]
                        == '_') by {
                    assert(candidates@.contains(candidates@[k]));
                    assert(candidates@.to_multiset().count(candidates@[k]) > 0);
                    assert(pre.contains(candidates@[k]));
                    let w = choose|w: int| 0 <= w < pre.len() && pre[w] == candidates@[k];
                    assert(pre[w]@.len() == p.len());
                    assert(crate::pattern::pattern_compat(pre[w]@, p));
                    assert(forall|t: int| 0 <= t < pre[w]@.len() ==> #[trigger] pre[w]@[t] != '\0');
                    assert(!allow_adding_blacks ==> forall|t: int|
                        0 <= t < pre[w]@.len() && #[trigger] pre[w]@[t] == '_' ==> p[t] == '_');
                }
            }
            let mut i: usize = 0;
            while i < candidates.len()
                invariant
                    self.wf(),
                    lowercase_words(views_of(dictionary.common_words@)),
                    tuples == views_of(dictionary.forbidden_tuples@),
                    0 <= i <= candidates@.len(),
                    p == dotify(self.line_text(next_line)),
                    self.line_ok(next_line),
                    forall|k: int|
                        0 <= k < candidates@.len() ==> (#[trigger] candidates@[k])@.len()
                            == p.len(),
                    forall|k: int|
                        0 <= k < candidates@.len() ==> crate::pattern::pattern_compat(
                            (#[trigger] candidates@[k])@,
                            p,
                        ),
                    forall|k: int, t: int|
                        0 <= k < candidates@.len() && 0 <= t < candidates@[k]@.len()
                            ==> #[trigger] candidates@[k]@[t] != '\0',
                    !allow_adding_blacks ==> forall|k: int, t: int|
                        0 <= k < candidates@.len() && 0 <= t < candidates@[k]@.len()
                            && #[trigger] candidates@[k]@[t] == '_' ==> p[t] == '_',
                    self.unresolved_lines().contains(next_line),
                decreases candidates@.len() - i,
            {
                let mut incr_grid = self.clone();
                proof {
                    if next_line.kind == Kind::Diag {
                        assert(candidates@[i as int]@.len() == self.diag_text(
                            next_line.index as int,
                        ).len());
                        assert(self.diag_hi(next_line.index as int) <= next_line.index);
                    }
                }
                incr_grid.set_line(&next_line, candidates[i].clone());
                incr_grid.flag_resolved(&next_line);
                proof {
                    assert(incr_grid.all_lines() == self.all_lines());
                    crate::lines::lemma_keep_unresolved_push(
                        self.all_lines(),
                        self.resolved(),
                        next_line,
                    );
                    crate::lines::lemma_keep_strike_len(self.unresolved_lines(), next_line);
                    assert(incr_grid.unresolved_lines().len() < self.unresolved_lines().len());
                    let val = candidates@[i as int]@;
                    let lo = self.diag_lo(next_line.index as int);
                    assert forall|r: int, c: int|
                        0 <= r < self.cells().len() && 0 <= c < self.width() && self.cells(
                        )[r][c] != '\0' && self.cells()[r][c] != '.' implies
                        #[trigger] incr_grid.cells()[r][c] == self.cells()[r][c] by {
                        let x = self.cells()[r][c];
                        if next_line.kind == Kind::Row && r == next_line.index && c < val.len() {
                            assert(p[c] == dotify(self.line_text(next_line))[c]);
                            assert(p[c] == (if x == '\0' {
                                '.'
                            } else {
                                x
                            }));
                        } else if next_line.kind == Kind::Col && c == next_line.index && r
                            < val.len() {
                            assert(self.line_text(next_line)[r] == x);
                            assert(p[r] == (if x == '\0' {
                                '.'
                            } else {
                                x
                            }));
                        } else if next_line.kind == Kind::Diag && r + c == next_line.index && lo
                            <= c && c - lo < val.len() {
                            assert(self.line_text(next_line)[c - lo] == x);
                            assert(p[c - lo] == (if x == '\0' {
                                '.'
                            } else {
                                x
                            }));
                        }
                    }
                    if !allow_adding_blacks {
                        assert forall|r: int, c: int|
                            0 <= r < self.cells().len() && 0 <= c < self.width()
                                && #[trigger] incr_grid.cells()[r][c] == '_' implies self.cells(
                        )[r][c] == '_' by {
                            if next_line.kind == Kind::Row && r == next_line.index && c
                                < val.len() {
                                assert(incr_grid.cells()[r][c] == val[c]);
                                assert(p[c] == '_');
                                assert(dotify(self.line_text(next_line))[c] == '_');
                                assert(self.line_text(next_line)[c] == self.cells()[r][c]);
                            } else if next_line.kind == Kind::Col && c == next_line.index && r
                                < val.len() {
                                assert(incr_grid.cells()[r][c] == val[r]);
                                assert(p[r] == '_');
                                assert(self.line_text(next_line)[r] == self.cells()[r][c]);
                            } else if next_line.kind == Kind::Diag && r + c == next_line.index
                                && lo <= c && c - lo < val.len() {
                                assert(incr_grid.cells()[r][c] == val[c - lo]);
                                assert(p[c - lo] == '_');
                                assert(self.line_text(next_line)[c - lo] == self.cells()[r][c]);
                            }
                        }
                    }
                    if self.resolved_filled() {
                        assert forall|k: int| 0 <= k < incr_grid.resolved().len() implies (
                        incr_grid.line_ok(#[trigger] incr_grid.resolved()[k])
                            ==> incr_grid.line_filled(incr_grid.resolved()[k])) by {
                            let l = incr_grid.resolved()[k];
                            if incr_grid.line_ok(l) {
                                assert(self.line_ok(l));
                                let lol = self.diag_lo(l.index as int);
                                if k < self.resolved().len() {
                                    assert(l == self.resolved()[k]);
                                    assert(self.line_filled(l));
                                    assert forall|t: int|
                                        0 <= t < incr_grid.line_text(l).len() implies
                                        #[trigger] incr_grid.line_text(l)[t] != '\0' by {
                                        assert(self.line_text(l)[t] != '\0');
                                        if l.kind == Kind::Row {
                                            assert(incr_grid.line_text(l)[t] == incr_grid.cells(
                                            )[l.index as int][t]);
                                            assert(self.line_text(l)[t] == self.cells(
                                            )[l.index as int][t]);
                                        } else if l.kind == Kind::Col {
                                            assert(incr_grid.line_text(l)[t] == incr_grid.cells(
                                            )[t][l.index as int]);
                                            assert(self.line_text(l)[t] == self.cells(
                                            )[t][l.index as int]);
                                        } else {
                                            assert(incr_grid.line_text(l)[t] == incr_grid.cells(
                                            )[l.index - lol - t][lol + t]);
                                            assert(self.line_text(l)[t] == self.cells(
                                            )[l.index - lol - t][lol + t]);
                                        }
                                    }
                                } else {
                                    assert(l == next_line);
                                    assert(val.len() == p.len());
                                    assert forall|t: int|
                                        0 <= t < incr_grid.line_text(l).len() implies
                                        #[trigger] incr_grid.line_text(l)[t] != '\0' by {
                                        assert(val[t] != '\0');
                                        if l.kind == Kind::Row {
                                            assert(incr_grid.line_text(l)[t] == incr_grid.cells(
                                            )[l.index as int][t]);
                                            assert(incr_grid.cells()[l.index as int][t] == val[t]);
                                        } else if l.kind == Kind::Col {
                                            assert(incr_grid.line_text(l)[t] == incr_grid.cells(
                                            )[t][l.index as int]);
                                            assert(incr_grid.cells()[t][l.index as int] == val[t]);
                                        } else {
                                            assert(incr_grid.line_text(l)[t] == incr_grid.cells(
                                            )[l.index - lol - t][lol + t]);
                                            assert(incr_grid.cells()[l.index - lol - t][lol + t]
                                                == val[t]);
                                        }
                                    }
                                }
                            }
                        }
                        assert(incr_grid.resolved_filled());
                    }
                }
                if let Some(complete_grid) = incr_grid.recursive_generate(
                    dictionary,
                    allow_adding_blacks,
                ) {
                    proof {
                        assert forall|r: int, c: int|
                            0 <= r < self.cells().len() && 0 <= c < self.width() && self.cells(
                            )[r][c] != '\0' && self.cells()[r][c] != '.' implies
                            #[trigger] complete_grid.cells()[r][c] == self.cells()[r][c] by {
                            assert(incr_grid.cells()[r][c] == self.cells()[r][c]);
                        }
                        if !allow_adding_blacks {
                            assert forall|r: int, c: int|
                                0 <= r < self.cells().len() && 0 <= c < self.width()
                                    && #[trigger] complete_grid.cells()[r][c] == '_' implies
                                self.cells()[r][c] == '_' by {
                                assert(incr_grid.cells()[r][c] == '_' ==> self.cells()[r][c]
                                    == '_');
                            }
                        }
                    }
                    return Some(complete_grid);
                }
                i += 1;
            }
        } else {
            let out = self.clone();
            proof {
                assert(out.unresolved_lines() == self.unresolved_lines());
            }
            return Some(out);
        }
        None
    }

    /// Every cell of this line holds a decided value, never the unset
    /// marker.
    pub open spec fn line_filled(&self, l: Line) -> bool {
        forall|i: int|
            0 <= i < self.line_text(l).len() ==> #[trigger] self.line_text(l)[i] != '\0'
    }

    /// Every resolved line that names a real line is fully written: the
    /// search never flags a line without filling it.
    pub open spec fn resolved_filled(&self) -> bool {
        forall|k: int|
            0 <= k < self.resolved().len() ==> (self.line_ok(#[trigger] self.resolved()[k])
                ==> self.line_filled(self.resolved()[k]))
    }

    proof fn lemma_rows_runs_blocked(&self, r: int)
        requires
            self.wf(),
            0 <= r <= self.cells().len(),
            forall|i: int, j: int|
                0 <= i < self.cells().len() && 0 <= j < self.width()
                    ==> #[trigger] self.cells()[i][j] == '_',
        ensures
            self.rows_runs(r).len() == 0,
        decreases r,
    {
        if r > 0 {
            self.lemma_rows_runs_blocked(r - 1);
            crate::lines::lemma_good_runs_blocked(self.cells()[r - 1]);
        }
    }

    proof fn lemma_cols_runs_blocked(&self, c: int)
        requires
            self.wf(),
            0 <= c <= self.width(),
            forall|i: int, j: int|
                0 <= i < self.cells().len() && 0 <= j < self.width()
                    ==> #[trigger] self.cells()[i][j] == '_',
        ensures
            self.cols_runs(c).len() == 0,
        decreases c,
    {
        if c > 0 {
            self.lemma_cols_runs_blocked(c - 1);
            crate::lines::lemma_good_runs_blocked(column_of(self.cells(), c - 1));
        }
    }

    proof fn lemma_diags_runs_blocked(&self, d: int)
        requires
            self.wf(),
            0 <= d <= self.diags_count(),
            forall|i: int, j: int|
                0 <= i < self.cells().len() && 0 <= j < self.width()
                    ==> #[trigger] self.cells()[i][j] == '_',
        ensures
            self.diags_runs(d).len() == 0,
        decreases d,
    {
        if d > 0 {
            self.lemma_diags_runs_blocked(d - 1);
            assert(forall|k: int|
                0 <= k < self.diag_text(d - 1).len() ==> #[trigger] self.diag_text(d - 1)[k]
                    == '_');
            crate::lines::lemma_good_runs_blocked(self.diag_text(d - 1));
        }
    }

    proof fn lemma_no_forbidden_in_blocked(&self, tuples: Seq<Seq<char>>, t: Seq<char>)
        requires
            forall|i: int| 0 <= i < t.len() ==> t[i] == '_',
        ensures
            !has_forbidden(tuples, t),
    {
        if has_forbidden(tuples, t) {
            if exists|i: int|
                0 <= i && i + 2 <= t.len() && crate::pattern::clean_window(
                    #[trigger] t.subrange(i, i + 2),
                ) && tuples.contains(t.subrange(i, i + 2)) {
                let i = choose|i: int|
                    0 <= i && i + 2 <= t.len() && crate::pattern::clean_window(
                        #[trigger] t.subrange(i, i + 2),
                    ) && tuples.contains(t.subrange(i, i + 2));
                assert(t.subrange(i, i + 2)[0] == '_');
                assert(t.subrange(i, i + 2).contains('_'));
            } else {
                let i = choose|i: int|
                    0 <= i && i + 3 <= t.len() && crate::pattern::clean_window(
                        #[trigger] t.subrange(i, i + 3),
                    ) && tuples.contains(t.subrange(i, i + 3));
                assert(t.subrange(i, i + 3)[0] == '_');
                assert(t.subrange(i, i + 3).contains('_'));
            }
        }
    }

    /// A fully blocked board is always valid, whatever its shape: it
    /// holds no word and no open cell, so no check can reject it.
    pub proof fn lemma_blocked_board_valid(&self, tuples: Seq<Seq<char>>)
        requires
            self.wf(),
            forall|i: int, j: int|
                0 <= i < self.cells().len() && 0 <= j < self.width()
                    ==> #[trigger] self.cells()[i][j] == '_',
        ensures
            !self.spec_is_invalid(tuples),
    {
        self.lemma_rows_runs_blocked(self.cells().len() as int);
        self.lemma_cols_runs_blocked(self.width() as int);
        self.lemma_diags_runs_blocked(self.diags_count());
        assert(self.board_runs().len() == 0);
        assert(!self.spec_has_forbidden(tuples)) by {
            assert forall|r: int| 0 <= r < self.cells().len() implies !has_forbidden(
                tuples,
                #[trigger] self.cells()[r],
            ) by {
                self.lemma_no_forbidden_in_blocked(tuples, self.cells()[r]);
            }
            assert forall|c: int| 0 <= c < self.width() implies !has_forbidden(
                tuples,
                #[trigger] column_of(self.cells(), c),
            ) by {
                self.lemma_no_forbidden_in_blocked(tuples, column_of(self.cells(), c));
            }
            assert forall|d: int| 0 <= d < self.diags_count() implies !has_forbidden(
                tuples,
                #[trigger] self.diag_text(d),
            ) by {
                assert(forall|k: int|
                    0 <= k < self.diag_text(d).len() ==> #[trigger] self.diag_text(d)[k] == '_');
                self.lemma_no_forbidden_in_blocked(tuples, self.diag_text(d));
            }
        }
        assert(self.spec_connected()) by {
            assert(forall|r1: int, c1: int| !(#[trigger] self.open_cell(r1, c1)));
        }
    }

    proof fn lemma_best_of_same(a: &GridBeehive, b: &GridBeehive, s: Seq<Line>)
        requires
            a.cells() == b.cells(),
            a.width() == b.width(),
        ensures
            a.best_of(s) == b.best_of(s),
        decreases s.len(),
    {
        if s.len() > 0 {
            Self::lemma_best_of_same(a, b, s.drop_last());
            if a.best_of(s.drop_last()) is Some {
                let bb = a.best_of(s.drop_last())->0;
                assert(a.line_text(s.last()) == b.line_text(s.last())) by {
                    assert(a.diag_text(s.last().index as int) =~= b.diag_text(
                        s.last().index as int,
                    ));
                }
                assert(a.line_text(bb) == b.line_text(bb)) by {
                    assert(a.diag_text(bb.index as int) =~= b.diag_text(bb.index as int));
                }
                assert(a.better_line(s.last(), bb) == b.better_line(s.last(), bb));
            }
        }
    }

    proof fn lemma_runs_same(a: &GridBeehive, b: &GridBeehive, r: int, c: int, d: int)
        requires
            a.cells() == b.cells(),
            a.width() == b.width(),
            r >= 0,
            c >= 0,
            d >= 0,
        ensures
            a.rows_runs(r) == b.rows_runs(r),
            a.cols_runs(c) == b.cols_runs(c),
            a.diags_runs(d) == b.diags_runs(d),
        decreases r + c + d,
    {
        if r > 0 {
            Self::lemma_runs_same(a, b, r - 1, c, d);
        }
        if c > 0 {
            Self::lemma_runs_same(a, b, r, c - 1, d);
        }
        if d > 0 {
            Self::lemma_runs_same(a, b, r, c, d - 1);
            assert(a.diag_text(d - 1) =~= b.diag_text(d - 1));
        }
    }

    proof fn lemma_reaches_same(
        a: &GridBeehive,
        b: &GridBeehive,
        r1: int,
        c1: int,
        r2: int,
        c2: int,
        n: nat,
    )
        requires
            a.cells() == b.cells(),
            a.width() == b.width(),
        ensures
            a.reaches_n(r1, c1, r2, c2, n) == b.reaches_n(r1, c1, r2, c2, n),
        decreases n,
    {
        if n > 0 {
            let m = (n - 1) as nat;
            Self::lemma_reaches_same(a, b, r1, c1, r2, c2, m);
            Self::lemma_reaches_same(a, b, r1, c1, r2 + 1, c2, m);
            Self::lemma_reaches_same(a, b, r1, c1, r2 + 1, c2 - 1, m);
            Self::lemma_reaches_same(a, b, r1, c1, r2, c2 + 1, m);
            Self::lemma_reaches_same(a, b, r1, c1, r2 - 1, c2 + 1, m);
            Self::lemma_reaches_same(a, b, r1, c1, r2 - 1, c2, m);
            Self::lemma_reaches_same(a, b, r1, c1, r2, c2 - 1, m);
        }
    }

    /// The search is deterministic apart from candidate shuffling: two
    /// boards holding the same cells and the same resolved lines select
    /// the same next line, see the same line texts, and get the same
    /// validity verdict.
    pub proof fn lemma_search_step_deterministic(
        a: &GridBeehive,
        b: &GridBeehive,
        tuples: Seq<Seq<char>>,
    )
        requires
            a.wf(),
            a.cells() == b.cells(),
            a.width() == b.width(),
            a.resolved() == b.resolved(),
        ensures
            a.unresolved_lines() == b.unresolved_lines(),
            a.best_of(a.unresolved_lines()) == b.best_of(b.unresolved_lines()),
            a.spec_is_invalid(tuples) == b.spec_is_invalid(tuples),
    {
        assert(a.all_lines() =~= b.all_lines());
        Self::lemma_best_of_same(a, b, a.unresolved_lines());
        Self::lemma_runs_same(
            a,
            b,
            a.cells().len() as int,
            a.width() as int,
            a.diags_count(),
        );
        assert(a.board_runs() == b.board_runs());
        assert(a.spec_has_forbidden(tuples) == b.spec_has_forbidden(tuples)) by {
            assert(forall|r: int| #[trigger] a.cells()[r] == b.cells()[r]);
            assert(forall|c: int|
                #[trigger] column_of(a.cells(), c) == column_of(b.cells(), c));
            assert(forall|d: int| #[trigger] a.diag_text(d) =~= b.diag_text(d));
            if a.spec_has_forbidden(tuples) {
                if exists|r: int|
                    0 <= r < a.cells().len() && has_forbidden(tuples, #[trigger] a.cells()[r]) {
                    let r = choose|r: int|
                        0 <= r < a.cells().len() && has_forbidden(tuples, #[trigger] a.cells()[r]);
                    assert(has_forbidden(tuples, b.cells()[r]));
                } else if exists|c: int|
                    0 <= c < a.width() && has_forbidden(
                        tuples,
                        #[trigger] column_of(a.cells(), c),
                    ) {
                    let c = choose|c: int|
                        0 <= c < a.width() && has_forbidden(
                            tuples,
                            #[trigger] column_of(a.cells(), c),
                        );
                    assert(has_forbidden(tuples, column_of(b.cells(), c)));
                } else {
                    let d = choose|d: int|
                        0 <= d < a.diags_count() && has_forbidden(
                            tuples,
                            #[trigger] a.diag_text(d),
                        );
                    assert(has_forbidden(tuples, b.diag_text(d)));
                }
            }
            if b.spec_has_forbidden(tuples) {
                if exists|r: int|
                    0 <= r < b.cells().len() && has_forbidden(tuples, #[trigger] b.cells()[r]) {
                    let r = choose|r: int|
                        0 <= r < b.cells().len() && has_forbidden(tuples, #[trigger] b.cells()[r]);
                    assert(has_forbidden(tuples, a.cells()[r]));
                } else if exists|c: int|
                    0 <= c < b.width() && has_forbidden(
                        tuples,
                        #[trigger] column_of(b.cells(), c),
                    ) {
                    let c = choose|c: int|
                        0 <= c < b.width() && has_forbidden(
                            tuples,
                            #[trigger] column_of(b.cells(), c),
                        );
                    assert(has_forbidden(tuples, column_of(a.cells(), c)));
                } else {
                    let d = choose|d: int|
                        0 <= d < b.diags_count() && has_forbidden(
                            tuples,
                            #[trigger] b.diag_text(d),
                        );
                    assert(has_forbidden(tuples, a.diag_text(d)));
                }
            }
        }
        assert(a.spec_connected() == b.spec_connected()) by {
            if a.spec_connected() {
                assert forall|r1: int, c1: int, r2: int, c2: int|
                    #![trigger b.open_cell(r1, c1), b.open_cell(r2, c2)]
                    b.open_cell(r1, c1) && b.open_cell(r2, c2) implies b.reaches(
                    r1,
                    c1,
                    r2,
                    c2,
                ) by {
                    assert(a.open_cell(r1, c1) && a.open_cell(r2, c2));
                    let n = choose|n: nat| a.reaches_n(r1, c1, r2, c2, n);
                    Self::lemma_reaches_same(a, b, r1, c1, r2, c2, n);
                }
            }
            if b.spec_connected() {
                assert forall|r1: int, c1: int, r2: int, c2: int|
                    #![trigger a.open_cell(r1, c1), a.open_cell(r2, c2)]
                    a.open_cell(r1, c1) && a.open_cell(r2, c2) implies a.reaches(
                    r1,
                    c1,
                    r2,
                    c2,
                ) by {
                    assert(b.open_cell(r1, c1) && b.open_cell(r2, c2));
                    let n = choose|n: nat| b.reaches_n(r1, c1, r2, c2, n);
                    Self::lemma_reaches_same(a, b, r1, c1, r2, c2, n);
                }
            }
        }
    }
}

} // verus!
