use vstd::prelude::*;

use simple_matrix::Matrix;

use crate::dictionary::Dictionary;
use crate::lines::{
    column_of, count_char, count_char_in, dotify, dotify_string, filter_words, good_runs,
    contains_string, is_prefix, keep_unresolved, lemma_count_char_pair, lemma_prefix_concat_left,
    lemma_prefix_extend, lemma_prefix_refl, lemma_prefix_trans, split_gaps,
};
use crate::pattern::{has_forbidden, has_repeat, lowercase_words, views_of};
use crate::rng::shuffle_strings;
use crate::matrix::{mat_cells, mat_clone, mat_cols, mat_get, mat_get_col, mat_get_row, mat_new,
    mat_rows, mat_set, mat_width};
use crate::text::chars_of;

verus! {

/// Whether a line runs across or down the board.
#[derive(Clone, Copy, Debug, PartialEq, Eq, Structural)]
pub enum Kind {
    Row,
    Col,
}

/// One word slot of the board, named by its direction and its index.
#[derive(Clone, Copy, Debug, PartialEq, Eq, Structural)]
pub struct Line {
    pub index: usize,
    pub kind: Kind,
}

/// A rectangular letter board: a fixed-size cell matrix, where a cell is
/// `\0` while unset, `_` when blocked, or a letter, together with the
/// list of lines already resolved by the search.
#[derive(Debug)]
pub struct Grid {
    layout: Matrix<char>,
    resolved_lines: Vec<Line>,
}

impl Grid {
    /// The board's cells, row by row.
    pub closed spec fn cells(&self) -> Seq<Seq<char>> {
        mat_cells(&self.layout)
    }

    /// The board's column count.
    pub closed spec fn width(&self) -> nat {
        mat_width(&self.layout)
    }

    /// The lines already resolved, in the order they were flagged.
    pub closed spec fn resolved(&self) -> Seq<Line> {
        self.resolved_lines@
    }

    /// A board is well formed when it has at least one row and one
    /// column, every row has the board's width, and the cell count fits
    /// the machine.
    pub open spec fn wf(&self) -> bool {
        &&& self.cells().len() >= 1
        &&& self.width() >= 1
        &&& self.cells().len() * self.width() <= usize::MAX
        &&& forall|r: int|
            0 <= r < self.cells().len() ==> (#[trigger] self.cells()[r]).len() == self.width()
    }

    /// Whether a line names an existing row or column.
    pub open spec fn line_ok(&self, line: Line) -> bool {
        match line.kind {
            Kind::Row => line.index < self.cells().len(),
            Kind::Col => line.index < self.width(),
        }
    }

    /// The raw text of a line, unset cells still shown as `\0`.
    pub open spec fn line_text(&self, line: Line) -> Seq<char> {
        match line.kind {
            Kind::Row => self.cells()[line.index as int],
            Kind::Col => column_of(self.cells(), line.index as int),
        }
    }

    /// An empty board of the given dimensions, no cell set and no line
    /// resolved.
    pub fn new(rows: usize, cols: usize) -> (r: Grid)
        requires
            rows >= 1,
            cols >= 1,
            rows * cols <= usize::MAX,
        ensures
            r.wf(),
            r.cells().len() == rows,
            r.width() == cols,
            forall|i: int, j: int| 0 <= i < rows && 0 <= j < cols ==> #[trigger] r.cells()[i][j] == '\0',
            r.resolved() == Seq::<Line>::empty(),
    {
        Grid { layout: mat_new(rows, cols), resolved_lines: Vec::new() }
    }

    /// The board's row count.
    pub fn rows(&self) -> (r: usize)
        ensures
            r == self.cells().len(),
    {
        mat_rows(&self.layout)
    }

    /// The board's column count.
    pub fn cols(&self) -> (r: usize)
        ensures
            r == self.width(),
    {
        mat_cols(&self.layout)
    }

    /// The text of a row, when it exists.
    pub fn get_row(&self, row: usize) -> (r: Option<String>)
        ensures
            (match r {
                Some(s) => row < self.cells().len() && s@ == self.cells()[row as int],
                None => row >= self.cells().len(),
            }),
    {
        mat_get_row(&self.layout, row)
    }

    /// The text of a column, when it exists.
    pub fn get_col(&self, col: usize) -> (r: Option<String>)
        ensures
            (match r {
                Some(s) => col < self.width() && s@ == column_of(self.cells(), col as int),
                None => col >= self.width(),
            }),
    {
        mat_get_col(&self.layout, col)
    }

    /// One cell, when it exists.
    pub fn get_cell(&self, row: usize, col: usize) -> (r: Option<char>)
        ensures
            (match r {
                Some(c) => row < self.cells().len() && col < self.width() && c == self.cells(
                )[row as int][col as int],
                None => row >= self.cells().len() || col >= self.width(),
            }),
    {
        mat_get(&self.layout, row, col)
    }

    /// The text of a line, when it exists.
    pub fn get_line(&self, line: &Line) -> (r: Option<String>)
        ensures
            self.line_ok(*line) ==> r is Some && r->0@ == self.line_text(*line),
            !self.line_ok(*line) ==> r is None,
    {
        match line.kind {
            Kind::Row => self.get_row(line.index),
            Kind::Col => self.get_col(line.index),
        }
    }

    /// Writes one cell when it exists; out of bounds, nothing changes.
    pub fn set_cell(&mut self, row: usize, col: usize, val: char)
        ensures
            final(self).width() == old(self).width(),
            final(self).cells().len() == old(self).cells().len(),
            final(self).resolved() == old(self).resolved(),
            old(self).wf() ==> final(self).wf(),
            row < old(self).cells().len() && col < old(self).width() ==> final(self).cells()
                == old(self).cells().update(
                row as int,
                old(self).cells()[row as int].update(col as int, val),
            ),
            !(row < old(self).cells().len() && col < old(self).width()) ==> final(self).cells()
                == old(self).cells(),
    {
        mat_set(&mut self.layout, row, col, val);
    }

    /// Writes a line of text across a row, cell by cell, starting at the
    /// left edge; characters past the board's edge are dropped.
    pub fn set_row(&mut self, row: usize, val: String)
        requires
            old(self).wf(),
        ensures
            final(self).wf(),
            final(self).width() == old(self).width(),
            final(self).cells().len() == old(self).cells().len(),
            final(self).resolved() == old(self).resolved(),
            forall|r: int, c: int|
                0 <= r < old(self).cells().len() && 0 <= c < old(self).width()
                    ==> #[trigger] final(self).cells()[r][c] == (if r == row && c < val@.len() {
                    val@[c]
                } else {
                    old(self).cells()[r][c]
                }),
    {
        let cv = chars_of(val.as_str());
        let ghost orig = *self;
        let mut i: usize = 0;
        while i < cv.len()
            invariant
                cv@ == val@,
                orig.wf(),
                self.wf(),
                self.width() == orig.width(),
                self.cells().len() == orig.cells().len(),
                self.resolved() == orig.resolved(),
                0 <= i <= cv@.len(),
                forall|r: int, c: int|
                    0 <= r < orig.cells().len() && 0 <= c < orig.width()
                        ==> #[trigger] self.cells()[r][c] == (if r == row && c < i {
                        val@[c]
                    } else {
                        orig.cells()[r][c]
                    }),
            decreases cv@.len() - i,
        {
            self.set_cell(row, i, cv[i]);
            i += 1;
        }
    }

    /// Writes a line of text down a column, cell by cell, starting at the
    /// top edge; characters past the board's edge are dropped.
    pub fn set_col(&mut self, col: usize, val: String)
        requires
            old(self).wf(),
        ensures
            final(self).wf(),
            final(self).width() == old(self).width(),
            final(self).cells().len() == old(self).cells().len(),
            final(self).resolved() == old(self).resolved(),
            forall|r: int, c: int|
                0 <= r < old(self).cells().len() && 0 <= c < old(self).width()
                    ==> #[trigger] final(self).cells()[r][c] == (if c == col && r < val@.len() {
                    val@[r]
                } else {
                    old(self).cells()[r][c]
                }),
    {
        let cv = chars_of(val.as_str());
        let ghost orig = *self;
        let mut i: usize = 0;
        while i < cv.len()
            invariant
                cv@ == val@,
                orig.wf(),
                self.wf(),
                self.width() == orig.width(),
                self.cells().len() == orig.cells().len(),
                self.resolved() == orig.resolved(),
                0 <= i <= cv@.len(),
                forall|r: int, c: int|
                    0 <= r < orig.cells().len() && 0 <= c < orig.width()
                        ==> #[trigger] self.cells()[r][c] == (if c == col && r < i {
                        val@[r]
                    } else {
                        orig.cells()[r][c]
                    }),
            decreases cv@.len() - i,
        {
            self.set_cell(i, col, cv[i]);
            i += 1;
        }
    }

    /// Writes a line of text along a row or a column.
    pub fn set_line(&mut self, line: &Line, val: String)
        requires
            old(self).wf(),
        ensures
            final(self).wf(),
            final(self).width() == old(self).width(),
            final(self).cells().len() == old(self).cells().len(),
            final(self).resolved() == old(self).resolved(),
            forall|r: int, c: int|
                0 <= r < old(self).cells().len() && 0 <= c < old(self).width()
                    ==> #[trigger] final(self).cells()[r][c] == (if line.kind == Kind::Row && r
                    == line.index && c < val@.len() {
                    val@[c]
                } else if line.kind == Kind::Col && c == line.index && r < val@.len() {
                    val@[r]
                } else {
                    old(self).cells()[r][c]
                }),
    {
        let i = line.index;
        match line.kind {
            Kind::Row => self.set_row(i, val),
            Kind::Col => self.set_col(i, val),
        }
    }

    /// Records a line as resolved for this search branch.
    pub fn flag_resolved(&mut self, line: &Line)
        ensures
            final(self).cells() == old(self).cells(),
            final(self).width() == old(self).width(),
            final(self).resolved() == old(self).resolved().push(*line),
    {
        self.resolved_lines.push(*line);
    }

    /// Every line of the board, rows first, then columns, each in index
    /// order.
    pub open spec fn all_lines(&self) -> Seq<Line> {
        Seq::new(self.cells().len(), |i: int| Line { index: i as usize, kind: Kind::Row })
            + Seq::new(self.width(), |i: int| Line { index: i as usize, kind: Kind::Col })
    }

    /// The lines not yet flagged resolved, in enumeration order.
    pub open spec fn unresolved_lines(&self) -> Seq<Line> {
        keep_unresolved(self.all_lines(), self.resolved())
    }

    /// How many cells of the line are still undecided.
    pub open spec fn liberties(&self, line: Line) -> int {
        count_char(dotify(self.line_text(line)), '.')
    }

    /// How many cells of the line are blocked.
    pub open spec fn blocked_count(&self, line: Line) -> int {
        count_char(dotify(self.line_text(line)), '_')
    }

    /// How many cells of the line already hold a letter.
    pub open spec fn constrained(&self, line: Line) -> int {
        self.line_text(line).len() - self.liberties(line) - self.blocked_count(line)
    }

    /// The most-constrained-first order: more resolved letters wins, and
    /// on a tie more blocked cells wins.
    pub open spec fn better_line(&self, a: Line, b: Line) -> bool {
        ||| self.constrained(a) > self.constrained(b)
        ||| (self.constrained(a) == self.constrained(b) && self.blocked_count(a)
            > self.blocked_count(b))
    }

    /// The first line of the list that no later line strictly beats.
    pub open spec fn best_of(&self, s: Seq<Line>) -> Option<Line>
        decreases s.len(),
    {
        if s.len() == 0 {
            None
        } else {
            match self.best_of(s.drop_last()) {
                None => Some(s.last()),
                Some(b) => if self.better_line(s.last(), b) {
                    Some(s.last())
                } else {
                    Some(b)
                },
            }
        }
    }

    /// A best line exists exactly when the list is not empty, and it is
    /// drawn from the list.
    pub proof fn lemma_best_of_some(&self, s: Seq<Line>)
        ensures
            (self.best_of(s) is Some) <==> s.len() > 0,
            self.best_of(s) is Some ==> s.contains(self.best_of(s)->0),
        decreases s.len(),
    {
        if s.len() > 0 {
            self.lemma_best_of_some(s.drop_last());
            assert(s.contains(s.last()));
            if self.best_of(s.drop_last()) is Some {
                let b = self.best_of(s.drop_last())->0;
                if !self.better_line(s.last(), b) {
                    let k = choose|k: int| 0 <= k < s.drop_last().len() && s.drop_last()[k] == b;
                    assert(s[k] == b);
                }
            }
        }
    }

    /// The next line to fill: the unresolved line with the most resolved
    /// letters, ties broken toward more blocked cells, then toward the
    /// enumeration order; or nothing when every line is resolved.
    pub fn next_line(&self) -> (r: Option<Line>)
        requires
            self.wf(),
        ensures
            r == self.best_of(self.unresolved_lines()),
            r is Some ==> self.line_ok(r->0) && !self.resolved().contains(r->0),
            (r is Some) <==> self.unresolved_lines().len() > 0,
    {
        let rows = self.rows();
        let cols = self.cols();
        let mut lines: Vec<Line> = Vec::new();
        let mut i: usize = 0;
        while i < rows
            invariant
                rows == self.cells().len(),
                0 <= i <= rows,
                lines@.len() == i,
                forall|j: int|
                    0 <= j < i ==> lines@[j] == (Line { index: j as usize, kind: Kind::Row }),
            decreases rows - i,
        {
            lines.push(Line { index: i, kind: Kind::Row });
            i += 1;
        }
        let mut j: usize = 0;
        while j < cols
            invariant
                rows == self.cells().len(),
                cols == self.width(),
                0 <= j <= cols,
                lines@.len() == rows + j,
                forall|k: int|
                    0 <= k < rows ==> lines@[k] == (Line { index: k as usize, kind: Kind::Row }),
                forall|k: int|
                    rows <= k < rows + j ==> #[trigger] lines@[k] == (Line {
                        index: (k - rows) as usize,
                        kind: Kind::Col,
                    }),
            decreases cols - j,
        {
            lines.push(Line { index: j, kind: Kind::Col });
            j += 1;
        }
        proof {
            assert(lines@ =~= self.all_lines());
        }
        let mut unresolved: Vec<Line> = Vec::new();
        let mut k: usize = 0;
        while k < lines.len()
            invariant
                lines@ == self.all_lines(),
                0 <= k <= lines@.len(),
                unresolved@ == keep_unresolved(lines@.take(k as int), self.resolved()),
            decreases lines@.len() - k,
        {
            proof {
                assert(lines@.take(k + 1).drop_last() =~= lines@.take(k as int));
                assert(lines@.take(k + 1).last() == lines@[k as int]);
            }
            if !contains_line(&self.resolved_lines, &lines[k]) {
                proof {
                    assert(self.resolved_lines@ == self.resolved());
                }
                unresolved.push(lines[k]);
            }
            k += 1;
        }
        proof {
            assert(lines@.take(lines@.len() as int) =~= lines@);
            crate::lines::lemma_keep_unresolved_sound(self.all_lines(), self.resolved());
            assert forall|m: int| 0 <= m < self.unresolved_lines().len() implies self.line_ok(
                #[trigger] self.unresolved_lines()[m],
            ) by {
                let l = self.unresolved_lines()[m];
                assert(self.all_lines().contains(l));
                let w = choose|w: int| 0 <= w < self.all_lines().len() && self.all_lines()[w] == l;
                if w < self.cells().len() {
                    assert(self.all_lines()[w] == (Line { index: w as usize, kind: Kind::Row }));
                } else {
                    assert(self.all_lines()[w] == (Line {
                        index: (w - self.cells().len()) as usize,
                        kind: Kind::Col,
                    }));
                }
            }
        }
        let mut best: Option<Line> = None;
        let mut m: usize = 0;
        while m < unresolved.len()
            invariant
                self.wf(),
                unresolved@ == self.unresolved_lines(),
                forall|t: int|
                    0 <= t < unresolved@.len() ==> self.line_ok(#[trigger] unresolved@[t]),
                0 <= m <= unresolved@.len(),
                best == self.best_of(unresolved@.take(m as int)),
            decreases unresolved@.len() - m,
        {
            proof {
                assert(unresolved@.take(m + 1).drop_last() =~= unresolved@.take(m as int));
                assert(unresolved@.take(m + 1).last() == unresolved@[m as int]);
            }
            let l = unresolved[m];
            match best {
                None => {
                    best = Some(l);
                },
                Some(b) => {
                    proof {
                        self.lemma_best_of_some(unresolved@.take(m as int));
                        let k = choose|k: int|
                            0 <= k < unresolved@.take(m as int).len() && unresolved@.take(
                                m as int,
                            )[k] == b;
                        assert(unresolved@[k] == b);
                        assert(self.line_ok(b));
                    }
                    let ls = self.pattern(&l).unwrap();
                    let bs = self.pattern(&b).unwrap();
                    proof {
                        lemma_count_char_pair(ls@, '.', '_');
                        lemma_count_char_pair(bs@, '.', '_');
                        crate::lines::lemma_count_char_bounds(ls@, '.');
                        crate::lines::lemma_count_char_bounds(ls@, '_');
                        crate::lines::lemma_count_char_bounds(bs@, '.');
                        crate::lines::lemma_count_char_bounds(bs@, '_');
                    }
                    let l_lib = count_char_in(&ls, '.');
                    let l_blk = count_char_in(&ls, '_');
                    let l_len = ls.as_str().unicode_len();
                    let b_lib = count_char_in(&bs, '.');
                    let b_blk = count_char_in(&bs, '_');
                    let b_len = bs.as_str().unicode_len();
                    let l_cons = l_len - l_lib - l_blk;
                    let b_cons = b_len - b_lib - b_blk;
                    if l_cons > b_cons || (l_cons == b_cons && l_blk > b_blk) {
                        best = Some(l);
                    }
                },
            }
            m += 1;
        }
        proof {
            assert(unresolved@.take(unresolved@.len() as int) =~= unresolved@);
            self.lemma_best_of_some(self.unresolved_lines());
            crate::lines::lemma_keep_unresolved_sound(self.all_lines(), self.resolved());
        }
        best
    }

    /// The search pattern of a line: its text with unset cells as dots.
    pub fn pattern(&self, line: &Line) -> (r: Option<String>)
        ensures
            self.line_ok(*line) ==> r is Some && r->0@ == dotify(self.line_text(*line)),
            !self.line_ok(*line) ==> r is None,
    {
        match self.get_line(line) {
            Some(s) => Some(dotify_string(&s)),
            None => None,
        }
    }

    /// The words contributed by the first `r` rows, in order.
    pub open spec fn rows_runs(&self, r: int) -> Seq<Seq<char>>
        decreases r,
    {
        if r <= 0 {
            Seq::empty()
        } else {
            self.rows_runs(r - 1) + good_runs(self.cells()[r - 1])
        }
    }

    /// The words contributed by the first `c` columns, in order.
    pub open spec fn cols_runs(&self, c: int) -> Seq<Seq<char>>
        decreases c,
    {
        if c <= 0 {
            Seq::empty()
        } else {
            self.cols_runs(c - 1) + good_runs(column_of(self.cells(), c - 1))
        }
    }

    /// Every word the whole board holds: the bounded, fully resolved runs
    /// of all rows, then of all columns.
    pub open spec fn board_runs(&self) -> Seq<Seq<char>> {
        self.rows_runs(self.cells().len() as int) + self.cols_runs(self.width() as int)
    }

    /// Whether some word occurs twice among the board's runs.
    pub open spec fn spec_has_duplicates(&self) -> bool {
        has_repeat(self.board_runs())
    }

    proof fn lemma_rows_runs_mono(&self, r1: int, r2: int)
        requires
            0 <= r1 <= r2,
        ensures
            is_prefix(self.rows_runs(r1), self.rows_runs(r2)),
        decreases r2,
    {
        if r1 == r2 {
            lemma_prefix_refl(self.rows_runs(r1));
        } else {
            self.lemma_rows_runs_mono(r1, r2 - 1);
            lemma_prefix_extend(
                self.rows_runs(r1),
                self.rows_runs(r2 - 1),
                good_runs(self.cells()[r2 - 1]),
            );
        }
    }

    proof fn lemma_cols_runs_mono(&self, c1: int, c2: int)
        requires
            0 <= c1 <= c2,
        ensures
            is_prefix(self.cols_runs(c1), self.cols_runs(c2)),
        decreases c2,
    {
        if c1 == c2 {
            lemma_prefix_refl(self.cols_runs(c1));
        } else {
            self.lemma_cols_runs_mono(c1, c2 - 1);
            lemma_prefix_extend(
                self.cols_runs(c1),
                self.cols_runs(c2 - 1),
                good_runs(column_of(self.cells(), c2 - 1)),
            );
        }
    }

    /// A prefix of the words seen while scanning row `ri` is a prefix of
    /// the whole board's words.
    proof fn lemma_row_scan_prefix(&self, ri: int, part: Seq<Seq<char>>)
        requires
            0 <= ri < self.cells().len(),
            is_prefix(part, good_runs(self.cells()[ri])),
        ensures
            is_prefix(self.rows_runs(ri) + part, self.board_runs()),
    {
        lemma_prefix_concat_left(self.rows_runs(ri), part, good_runs(self.cells()[ri]));
        self.lemma_rows_runs_mono(ri + 1, self.cells().len() as int);
        lemma_prefix_trans(
            self.rows_runs(ri) + part,
            self.rows_runs(ri + 1),
            self.rows_runs(self.cells().len() as int),
        );
        lemma_prefix_extend(
            self.rows_runs(ri) + part,
            self.rows_runs(self.cells().len() as int),
            self.cols_runs(self.width() as int),
        );
    }

    /// A prefix of the words seen while scanning column `ci`, after all
    /// rows, is a prefix of the whole board's words.
    proof fn lemma_col_scan_prefix(&self, ci: int, part: Seq<Seq<char>>)
        requires
            0 <= ci < self.width(),
            is_prefix(part, good_runs(column_of(self.cells(), ci))),
        ensures
            is_prefix(
                self.rows_runs(self.cells().len() as int) + (self.cols_runs(ci) + part),
                self.board_runs(),
            ),
    {
        lemma_prefix_concat_left(self.cols_runs(ci), part, good_runs(column_of(self.cells(), ci)));
        self.lemma_cols_runs_mono(ci + 1, self.width() as int);
        lemma_prefix_trans(
            self.cols_runs(ci) + part,
            self.cols_runs(ci + 1),
            self.cols_runs(self.width() as int),
        );
        lemma_prefix_concat_left(
            self.rows_runs(self.cells().len() as int),
            self.cols_runs(ci) + part,
            self.cols_runs(self.width() as int),
        );
    }

    /// Whether some bounded, fully resolved run of a row or column occurs
    /// twice on the board.
    pub fn has_duplicates(&self) -> (r: bool)
        requires
            self.wf(),
        ensures
            r == self.spec_has_duplicates(),
    {
        let rows = self.rows();
        let cols = self.cols();
        let mut seen: Vec<String> = Vec::new();
        let mut ri: usize = 0;
        while ri < rows
            invariant
                self.wf(),
                rows == self.cells().len(),
                cols == self.width(),
                0 <= ri <= rows,
                views_of(seen@) == self.rows_runs(ri as int),
                !has_repeat(views_of(seen@)),
            decreases rows - ri,
        {
            let t = self.get_row(ri).unwrap();
            let runs = filter_words(split_gaps(&t));
            let ghost line_runs = good_runs(self.cells()[ri as int]);
            let mut k: usize = 0;
            while k < runs.len()
                invariant
                    self.wf(),
                    rows == self.cells().len(),
                    cols == self.width(),
                    0 <= ri < rows,
                    views_of(runs@) == line_runs,
                    line_runs == good_runs(self.cells()[ri as int]),
                    0 <= k <= runs@.len(),
                    views_of(seen@) == self.rows_runs(ri as int) + line_runs.take(k as int),
                    !has_repeat(views_of(seen@)),
                decreases runs@.len() - k,
            {
                let ghost prev = views_of(seen@);
                let ghost x = runs@[k as int]@;
                if contains_string(&seen, &runs[k]) {
                    proof {
                        let i = choose|i: int| 0 <= i < prev.len() && prev[i] == x;
                        assert(has_repeat(prev.push(x))) by {
                            assert(prev.push(x)[i] == x);
                            assert(prev.push(x)[prev.len() as int] == x);
                        }
                        assert(prev.push(x) =~= self.rows_runs(ri as int) + line_runs.take(k + 1));
                        crate::lines::lemma_take_prefix(line_runs, k + 1);
                        self.lemma_row_scan_prefix(ri as int, line_runs.take(k + 1));
                        crate::lines::lemma_prefix_has_repeat(prev.push(x), self.board_runs());
                    }
                    return true;
                }
                seen.push(runs[k].clone());
                proof {
                    crate::lines::lemma_push_no_repeat(prev, x);
                    assert(views_of(seen@) =~= prev.push(x));
                    assert(views_of(seen@) =~= self.rows_runs(ri as int) + line_runs.take(k + 1));
                }
                k += 1;
            }
            proof {
                assert(line_runs.take(runs@.len() as int) =~= line_runs);
                assert(views_of(seen@) == self.rows_runs(ri + 1));
            }
            ri += 1;
        }
        let mut ci: usize = 0;
        while ci < cols
            invariant
                self.wf(),
                rows == self.cells().len(),
                cols == self.width(),
                0 <= ci <= cols,
                views_of(seen@) == self.rows_runs(rows as int) + self.cols_runs(ci as int),
                !has_repeat(views_of(seen@)),
            decreases cols - ci,
        {
            let t = self.get_col(ci).unwrap();
            let runs = filter_words(split_gaps(&t));
            let ghost line_runs = good_runs(column_of(self.cells(), ci as int));
            let mut k: usize = 0;
            while k < runs.len()
                invariant
                    self.wf(),
                    rows == self.cells().len(),
                    cols == self.width(),
                    0 <= ci < cols,
                    views_of(runs@) == line_runs,
                    line_runs == good_runs(column_of(self.cells(), ci as int)),
                    0 <= k <= runs@.len(),
                    views_of(seen@) == self.rows_runs(rows as int) + (self.cols_runs(ci as int)
                        + line_runs.take(k as int)),
                    !has_repeat(views_of(seen@)),
                decreases runs@.len() - k,
            {
                let ghost prev = views_of(seen@);
                let ghost x = runs@[k as int]@;
                if contains_string(&seen, &runs[k]) {
                    proof {
                        let i = choose|i: int| 0 <= i < prev.len() && prev[i] == x;
                        assert(has_repeat(prev.push(x))) by {
                            assert(prev.push(x)[i] == x);
                            assert(prev.push(x)[prev.len() as int] == x);
                        }
                        assert(prev.push(x) =~= self.rows_runs(rows as int) + (self.cols_runs(
                            ci as int,
                        ) + line_runs.take(k + 1)));
                        crate::lines::lemma_take_prefix(line_runs, k + 1);
                        self.lemma_col_scan_prefix(ci as int, line_runs.take(k + 1));
                        crate::lines::lemma_prefix_has_repeat(prev.push(x), self.board_runs());
                    }
                    return true;
                }
                seen.push(runs[k].clone());
                proof {
                    crate::lines::lemma_push_no_repeat(prev, x);
                    assert(views_of(seen@) =~= prev.push(x));
                    assert(views_of(seen@) =~= self.rows_runs(rows as int) + (self.cols_runs(
                        ci as int,
                    ) + line_runs.take(k + 1)));
                }
                k += 1;
            }
            proof {
                assert(line_runs.take(runs@.len() as int) =~= line_runs);
                assert(views_of(seen@) =~= self.rows_runs(rows as int) + self.cols_runs(ci + 1));
            }
            ci += 1;
        }
        proof {
            assert(views_of(seen@) == self.board_runs());
        }
        false
    }

    /// Whether the cell at `(r, c)` holds a letter or is unset while all
    /// four side neighbours are blocked or off the board.
    pub open spec fn isolated_at(&self, r: int, c: int) -> bool {
        &&& self.cells()[r][c] != '_'
        &&& (r == 0 || self.cells()[r - 1][c] == '_')
        &&& (r + 1 >= self.cells().len() || self.cells()[r + 1][c] == '_')
        &&& (c == 0 || self.cells()[r][c - 1] == '_')
        &&& (c + 1 >= self.width() || self.cells()[r][c + 1] == '_')
    }

    /// Whether some playable cell is walled in on all four sides.
    pub open spec fn spec_has_isolated(&self) -> bool {
        exists|r: int, c: int|
            0 <= r < self.cells().len() && 0 <= c < self.width() && #[trigger] self.isolated_at(
                r,
                c,
            )
    }

    /// Whether some playable cell is walled in on all four sides.
    pub fn has_isolated_letters(&self) -> (res: bool)
        requires
            self.wf(),
        ensures
            res == self.spec_has_isolated(),
    {
        let rows = self.rows();
        let cols = self.cols();
        let mut r: usize = 0;
        while r < rows
            invariant
                self.wf(),
                rows == self.cells().len(),
                cols == self.width(),
                0 <= r <= rows,
                forall|a: int, b: int|
                    0 <= a < r && 0 <= b < cols ==> !#[trigger] self.isolated_at(a, b),
            decreases rows - r,
        {
            let mut c: usize = 0;
            while c < cols
                invariant
                    self.wf(),
                    rows == self.cells().len(),
                    cols == self.width(),
                    0 <= r < rows,
                    0 <= c <= cols,
                    forall|a: int, b: int|
                        0 <= a < r && 0 <= b < cols ==> !#[trigger] self.isolated_at(a, b),
                    forall|b: int| 0 <= b < c ==> !#[trigger] self.isolated_at(r as int, b),
                decreases cols - c,
            {
                let center = match self.get_cell(r, c) {
                    Some(ch) => ch,
                    None => '_',
                };
                let top = if r == 0 {
                    '_'
                } else {
                    match self.get_cell(r - 1, c) {
                        Some(ch) => ch,
                        None => '_',
                    }
                };
                let bottom = match self.get_cell(r + 1, c) {
                    Some(ch) => ch,
                    None => '_',
                };
                let left = if c == 0 {
                    '_'
                } else {
                    match self.get_cell(r, c - 1) {
                        Some(ch) => ch,
                        None => '_',
                    }
                };
                let right = match self.get_cell(r, c + 1) {
                    Some(ch) => ch,
                    None => '_',
                };
                if center != '_' && top == '_' && bottom == '_' && left == '_' && right == '_' {
                    proof {
                        assert(self.isolated_at(r as int, c as int));
                    }
                    return true;
                }
                c += 1;
            }
            r += 1;
        }
        proof {
            if self.spec_has_isolated() {
                let (a, b) = choose|a: int, b: int|
                    0 <= a < self.cells().len() && 0 <= b < self.width()
                        && #[trigger] self.isolated_at(a, b);
                assert(false);
            }
        }
        false
    }

    /// Whether some row or column holds a forbidden tuple.
    pub open spec fn spec_has_forbidden(&self, tuples: Seq<Seq<char>>) -> bool {
        ||| exists|r: int|
            0 <= r < self.cells().len() && has_forbidden(tuples, #[trigger] self.cells()[r])
        ||| exists|c: int|
            0 <= c < self.width() && has_forbidden(tuples, #[trigger] column_of(self.cells(), c))
    }

    /// Whether some row or column holds a forbidden tuple of the
    /// dictionary.
    pub fn has_forbidden_tupples(&self, dictionary: &Dictionary) -> (r: bool)
        requires
            self.wf(),
        ensures
            r == self.spec_has_forbidden(views_of(dictionary.forbidden_tuples@)),
    {
        let ghost tuples = views_of(dictionary.forbidden_tuples@);
        let rows = self.rows();
        let cols = self.cols();
        let mut ri: usize = 0;
        while ri < rows
            invariant
                self.wf(),
                rows == self.cells().len(),
                cols == self.width(),
                tuples == views_of(dictionary.forbidden_tuples@),
                0 <= ri <= rows,
                forall|a: int| 0 <= a < ri ==> !has_forbidden(tuples, #[trigger] self.cells()[a]),
            decreases rows - ri,
        {
            let t = self.get_row(ri).unwrap();
            let hit = match dictionary.has_forbidden_tuples(t) {
                Ok(b) => b,
                Err(_) => false,
            };
            if hit {
                return true;
            }
            ri += 1;
        }
        let mut ci: usize = 0;
        while ci < cols
            invariant
                self.wf(),
                rows == self.cells().len(),
                cols == self.width(),
                tuples == views_of(dictionary.forbidden_tuples@),
                0 <= ci <= cols,
                forall|a: int| 0 <= a < rows ==> !has_forbidden(tuples, #[trigger] self.cells()[a]),
                forall|b: int|
                    0 <= b < ci ==> !has_forbidden(tuples, #[trigger] column_of(self.cells(), b)),
            decreases cols - ci,
        {
            let t = self.get_col(ci).unwrap();
            let hit = match dictionary.has_forbidden_tuples(t) {
                Ok(b) => b,
                Err(_) => false,
            };
            if hit {
                return true;
            }
            ci += 1;
        }
        proof {
            if self.spec_has_forbidden(tuples) {
                if exists|r: int|
                    0 <= r < self.cells().len() && has_forbidden(tuples, #[trigger] self.cells()[r]) {
                    let a = choose|r: int|
                        0 <= r < self.cells().len() && has_forbidden(
                            tuples,
                            #[trigger] self.cells()[r],
                        );
                    assert(false);
                } else {
                    let b = choose|c: int|
                        0 <= c < self.width() && has_forbidden(
                            tuples,
                            #[trigger] column_of(self.cells(), c),
                        );
                    assert(false);
                }
            }
        }
        false
    }

    /// The rectangular board has no island check; it never rejects.
    pub fn has_isles(&self) -> (r: bool)
        ensures
            r == false,
    {
        false
    }

    /// Whether the validator rejects the board: a repeated run, a walled-in
    /// cell, or a forbidden tuple.
    pub open spec fn spec_is_invalid(&self, tuples: Seq<Seq<char>>) -> bool {
        self.spec_has_duplicates() || self.spec_has_isolated() || self.spec_has_forbidden(tuples)
    }

    /// Runs every validity check against the board.
    pub fn is_invalid(&self, dictionary: &Dictionary) -> (r: bool)
        requires
            self.wf(),
        ensures
            r == self.spec_is_invalid(views_of(dictionary.forbidden_tuples@)),
    {
        self.has_duplicates() || self.has_isolated_letters() || self.has_forbidden_tupples(
            dictionary,
        ) || self.has_isles()
    }

    /// Every cell of this line holds a decided value, never the unset
    /// marker.
    pub open spec fn line_filled(&self, l: Line) -> bool {
        forall|i: int|
            0 <= i < self.line_text(l).len() ==> #[trigger] self.line_text(l)[i] != '\0'
    }

    /// Every resolved line that names a real line is fully written: the
    /// search never flags a line without filling it.
    pub open spec fn resolved_filled(&self) -> bool {
        forall|k: int|
            0 <= k < self.resolved().len() ==> (self.line_ok(#[trigger] self.resolved()[k])
                ==> self.line_filled(self.resolved()[k]))
    }

    /// Fills the board line by line by depth-first search: the most
    /// constrained line first, its candidates in a random order, invalid
    /// boards pruned. A board already complete and valid comes back as it
    /// is. A returned board has the same dimensions, no unresolved line
    /// left, passes every validity check, and keeps every blocked cell
    /// and every letter the starting board already held.
    pub fn recursive_generate(&self, dictionary: &Dictionary) -> (res: Option<Grid>)
        requires
            self.wf(),
            lowercase_words(views_of(dictionary.common_words@)),
        ensures
            self.unresolved_lines().len() == 0 && !self.spec_is_invalid(
                views_of(dictionary.forbidden_tuples@),
            ) ==> res is Some,
            (match res {
                Some(g) => {
                    &&& g.wf()
                    &&& g.cells().len() == self.cells().len()
                    &&& g.width() == self.width()
                    &&& g.unresolved_lines().len() == 0
                    &&& !g.spec_is_invalid(views_of(dictionary.forbidden_tuples@))
                    &&& forall|r: int, c: int|
                        0 <= r < self.cells().len() && 0 <= c < self.width() && self.cells()[r][c]
                            != '\0' && self.cells()[r][c] != '.' ==> #[trigger] g.cells()[r][c]
                            == self.cells()[r][c]
                    &&& (self.unresolved_lines().len() == 0 ==> g.cells() == self.cells())
                    &&& (self.resolved_filled() ==> forall|r: int, c: int|
                        0 <= r < g.cells().len() && 0 <= c < g.width()
                            ==> #[trigger] g.cells()[r][c] != '\0')
                },
                None => true,
            }),
        decreases self.unresolved_lines().len(),
    {
        let ghost tuples = views_of(dictionary.forbidden_tuples@);
        let opt_next_line = self.next_line();
        if opt_next_line.is_none() {
            if self.is_invalid(dictionary) {
                return None;
            }
            let out = self.clone();
            proof {
                assert(out.unresolved_lines() == self.unresolved_lines());
                Grid::lemma_search_step_deterministic(&out, self, tuples);
                if self.resolved_filled() {
                    crate::lines::lemma_keep_unresolved_empty(self.all_lines(), self.resolved());
                    assert(self.cells().len() <= usize::MAX) by (nonlinear_arith)
                        requires
                            self.cells().len() * self.width() <= usize::MAX,
                            self.width() >= 1,
                    ;
                    assert forall|r: int, c: int|
                        0 <= r < self.cells().len() && 0 <= c < self.width() implies self.cells(
                    )[r][c] != '\0' by {
                        let l = Line { index: r as usize, kind: Kind::Row };
                        assert(l.index as int == r);
                        assert(self.all_lines()[r] == l);
                        assert(self.resolved().contains(l));
                        assert(self.line_ok(l));
                        let k = choose|k: int|
                            0 <= k < self.resolved().len() && self.resolved()[k] == l;
                        assert(self.line_filled(l));
                        assert(self.line_text(l)[c] == self.cells()[r][c]);
                    }
                }
            }
            return Some(out);
        }
        if self.is_invalid(dictionary) {
            return None;
        }
        let next_line = opt_next_line.unwrap();
        proof {
            self.lemma_best_of_some(self.unresolved_lines());
        }
        let next_pattern = self.pattern(&next_line);
        if let Some(pattern) = next_pattern {
            let ghost p = pattern@;
            let ghost words = views_of(dictionary.common_words@);
            let mut candidates = match dictionary.find_candidates_allow_split(pattern) {
                Ok(v) => v,
                Err(_) => Vec::new(),
            };
            let ghost pre = candidates@;
            proof {
                crate::pattern::lemma_split_candidates_compat(words, p);
                crate::pattern::lemma_split_candidates_chars(words, p);
                assert forall|k: int| 0 <= k < pre.len() implies crate::pattern::pattern_compat(
                    (#[trigger] pre[k])@,
                    p,
                ) && (forall|t: int| 0 <= t < pre[k]@.len() ==> #[trigger] pre[k]@[t] != '\0') by {
                    assert(views_of(pre)[k] == pre[k]@);
                    assert(views_of(pre) == crate::pattern::split_candidates(words, p));
                }
            }
            shuffle_strings(&mut candidates);
            proof {
                broadcast use vstd::seq_lib::group_to_multiset_ensures;

                assert forall|k: int|
                    0 <= k < candidates@.len() implies crate::pattern::pattern_compat(
                    (#[trigger] candidates@[k])@,
                    p,
                ) && (forall|t: int|
                    0 <= t < candidates@[k]@.len() ==> #[trigger] candidates@[k]@[t] != '\0') by {
                    assert(candidates@.contains(candidates@[k]));
                    assert(candidates@.to_multiset().count(candidates@[k]) > 0);
                    assert(pre.contains(candidates@[k]));
                    let w = choose|w: int| 0 <= w < pre.len() && pre[w] == candidates@[k];
                    assert(crate::pattern::pattern_compat(pre[w]@, p));
                    assert(forall|t: int| 0 <= t < pre[w]@.len() ==> #[trigger] pre[w]@[t] != '\0');
                }
            }
            let mut i: usize = 0;
            while i < candidates.len()
                invariant
                    self.wf(),
                    lowercase_words(views_of(dictionary.common_words@)),
                    tuples == views_of(dictionary.forbidden_tuples@),
                    0 <= i <= candidates@.len(),
                    self.best_of(self.unresolved_lines()) == Some(next_line),
                    self.unresolved_lines().contains(next_line),
                    self.line_ok(next_line),
                    p == dotify(self.line_text(next_line)),
                    forall|k: int|
                        0 <= k < candidates@.len() ==> crate::pattern::pattern_compat(
                            (#[trigger] candidates@[k])@,
                            p,
                        ),
                    forall|k: int, t: int|
                        0 <= k < candidates@.len() && 0 <= t < candidates@[k]@.len()
                            ==> #[trigger] candidates@[k]@[t] != '\0',
                decreases candidates@.len() - i,
            {
                let mut incr_grid = self.clone();
                incr_grid.set_line(&next_line, candidates[i].clone());
                incr_grid.flag_resolved(&next_line);
                proof {
                    assert(incr_grid.all_lines() == self.all_lines());
                    crate::lines::lemma_keep_unresolved_push(
                        self.all_lines(),
                        self.resolved(),
                        next_line,
                    );
                    crate::lines::lemma_keep_strike_len(self.unresolved_lines(), next_line);
                    assert(incr_grid.unresolved_lines().len() < self.unresolved_lines().len());
                    let val = candidates@[i as int]@;
                    assert forall|r: int, c: int|
                        0 <= r < self.cells().len() && 0 <= c < self.width() && self.cells(
                        )[r][c] != '\0' && self.cells()[r][c] != '.' implies
                        #[trigger] incr_grid.cells()[r][c] == self.cells()[r][c] by {
                        let x = self.cells()[r][c];
                        if next_line.kind == Kind::Row && r == next_line.index && c < val.len() {
                            assert(p[c] == dotify(self.line_text(next_line))[c]);
                            assert(p[c] == (if x == '\0' {
                                '.'
                            } else {
                                x
                            }));
                        } else if next_line.kind == Kind::Col && c == next_line.index && r
                            < val.len() {
                            assert(self.line_text(next_line)[r] == x);
                            assert(p[r] == (if x == '\0' {
                                '.'
                            } else {
                                x
                            }));
                        }
                    }
                    if self.resolved_filled() {
                        assert forall|k: int| 0 <= k < incr_grid.resolved().len() implies (
                        incr_grid.line_ok(#[trigger] incr_grid.resolved()[k])
                            ==> incr_grid.line_filled(incr_grid.resolved()[k])) by {
                            let l = incr_grid.resolved()[k];
                            if incr_grid.line_ok(l) {
                                assert(self.line_ok(l));
                                if k < self.resolved().len() {
                                    assert(l == self.resolved()[k]);
                                    assert(self.line_filled(l));
                                    assert forall|t: int|
                                        0 <= t < incr_grid.line_text(l).len() implies
                                        #[trigger] incr_grid.line_text(l)[t] != '\0' by {
                                        assert(self.line_text(l)[t] != '\0');
                                        if l.kind == Kind::Row {
                                            assert(incr_grid.line_text(l)[t] == incr_grid.cells(
                                            )[l.index as int][t]);
                                            assert(self.line_text(l)[t] == self.cells(
                                            )[l.index as int][t]);
                                        } else {
                                            assert(incr_grid.line_text(l)[t] == incr_grid.cells(
                                            )[t][l.index as int]);
                                            assert(self.line_text(l)[t] == self.cells(
                                            )[t][l.index as int]);
                                        }
                                    }
                                } else {
                                    assert(l == next_line);
                                    assert(val.len() == p.len());
                                    assert forall|t: int|
                                        0 <= t < incr_grid.line_text(l).len() implies
                                        #[trigger] incr_grid.line_text(l)[t] != '\0' by {
                                        assert(val[t] != '\0');
                                        if l.kind == Kind::Row {
                                            assert(incr_grid.line_text(l)[t] == incr_grid.cells(
                                            )[l.index as int][t]);
                                            assert(incr_grid.cells()[l.index as int][t] == val[t]);
                                        } else {
                                            assert(incr_grid.line_text(l)[t] == incr_grid.cells(
                                            )[t][l.index as int]);
                                            assert(incr_grid.cells()[t][l.index as int] == val[t]);
                                        }
                                    }
                                }
                            }
                        }
                        assert(incr_grid.resolved_filled());
                    }
                }
                if let Some(complete_grid) = incr_grid.recursive_generate(dictionary) {
                    proof {
                        assert forall|r: int, c: int|
                            0 <= r < self.cells().len() && 0 <= c < self.width() && self.cells(
                            )[r][c] != '\0' && self.cells()[r][c] != '.' implies
                            #[trigger] complete_grid.cells()[r][c] == self.cells()[r][c] by {
                            assert(incr_grid.cells()[r][c] == self.cells()[r][c]);
                        }
                    }
                    return Some(complete_grid);
                }
                i += 1;
            }
        } else {
            let out = self.clone();
            proof {
                assert(out.unresolved_lines() == self.unresolved_lines());
            }
            return Some(out);
        }
        None
    }

    proof fn lemma_rows_runs_blocked(&self, r: int)
        requires
            self.wf(),
            0 <= r <= self.cells().len(),
            forall|i: int, j: int|
                0 <= i < self.cells().len() && 0 <= j < self.width()
                    ==> #[trigger] self.cells()[i][j] == '_',
        ensures
            self.rows_runs(r).len() == 0,
        decreases r,
    {
        if r > 0 {
            self.lemma_rows_runs_blocked(r - 1);
            crate::lines::lemma_good_runs_blocked(self.cells()[r - 1]);
        }
    }

    proof fn lemma_cols_runs_blocked(&self, c: int)
        requires
            self.wf(),
            0 <= c <= self.width(),
            forall|i: int, j: int|
                0 <= i < self.cells().len() && 0 <= j < self.width()
                    ==> #[trigger] self.cells()[i][j] == '_',
        ensures
            self.cols_runs(c).len() == 0,
        decreases c,
    {
        if c > 0 {
            self.lemma_cols_runs_blocked(c - 1);
            crate::lines::lemma_good_runs_blocked(column_of(self.cells(), c - 1));
        }
    }

    /// A fully blocked board is always valid: it holds no word at all, so
    /// no check can reject it.
    pub proof fn lemma_blocked_board_valid(&self, tuples: Seq<Seq<char>>)
        requires
            self.wf(),
            forall|i: int, j: int|
                0 <= i < self.cells().len() && 0 <= j < self.width()
                    ==> #[trigger] self.cells()[i][j] == '_',
        ensures
            !self.spec_is_invalid(tuples),
    {
        self.lemma_rows_runs_blocked(self.cells().len() as int);
        self.lemma_cols_runs_blocked(self.width() as int);
        assert(self.board_runs().len() == 0);
        assert(!self.spec_has_isolated()) by {
            if self.spec_has_isolated() {
                let (a, b) = choose|a: int, b: int|
                    0 <= a < self.cells().len() && 0 <= b < self.width()
                        && #[trigger] self.isolated_at(a, b);
                assert(self.cells()[a][b] == '_');
            }
        }
        assert(!self.spec_has_forbidden(tuples)) by {
            assert forall|r: int| 0 <= r < self.cells().len() implies !has_forbidden(
                tuples,
                #[trigger] self.cells()[r],
            ) by {
                self.lemma_no_forbidden_in_blocked(tuples, self.cells()[r]);
            }
            assert forall|c: int| 0 <= c < self.width() implies !has_forbidden(
                tuples,
                #[trigger] column_of(self.cells(), c),
            ) by {
                self.lemma_no_forbidden_in_blocked(tuples, column_of(self.cells(), c));
            }
        }
    }

    proof fn lemma_no_forbidden_in_blocked(&self, tuples: Seq<Seq<char>>, t: Seq<char>)
        requires
            forall|i: int| 0 <= i < t.len() ==> t[i] == '_',
        ensures
            !has_forbidden(tuples, t),
    {
        if has_forbidden(tuples, t) {
            if exists|i: int|
                0 <= i && i + 2 <= t.len() && crate::pattern::clean_window(
                    #[trigger] t.subrange(i, i + 2),
                ) && tuples.contains(t.subrange(i, i + 2)) {
                let i = choose|i: int|
                    0 <= i && i + 2 <= t.len() && crate::pattern::clean_window(
                        #[trigger] t.subrange(i, i + 2),
                    ) && tuples.contains(t.subrange(i, i + 2));
                assert(t.subrange(i, i + 2)[0] == '_');
                assert(t.subrange(i, i + 2).contains('_'));
            } else {
                let i = choose|i: int|
                    0 <= i && i + 3 <= t.len() && crate::pattern::clean_window(
                        #[trigger] t.subrange(i, i + 3),
                    ) && tuples.contains(t.subrange(i, i + 3));
                assert(t.subrange(i, i + 3)[0] == '_');
                assert(t.subrange(i, i + 3).contains('_'));
            }
        }
    }

    proof fn lemma_best_of_same(a: &Grid, b: &Grid, s: Seq<Line>)
        requires
            a.cells() == b.cells(),
            a.width() == b.width(),
        ensures
            a.best_of(s) == b.best_of(s),
        decreases s.len(),
    {
        if s.len() > 0 {
            Self::lemma_best_of_same(a, b, s.drop_last());
            if a.best_of(s.drop_last()) is Some {
                let bb = a.best_of(s.drop_last())->0;
                assert(a.line_text(s.last()) == b.line_text(s.last()));
                assert(a.line_text(bb) == b.line_text(bb));
                assert(a.better_line(s.last(), bb) == b.better_line(s.last(), bb));
            }
        }
    }

    proof fn lemma_runs_same(a: &Grid, b: &Grid, r: int, c: int)
        requires
            a.cells() == b.cells(),
            a.width() == b.width(),
            r >= 0,
            c >= 0,
        ensures
            a.rows_runs(r) == b.rows_runs(r),
            a.cols_runs(c) == b.cols_runs(c),
        decreases r + c,
    {
        if r > 0 {
            Self::lemma_runs_same(a, b, r - 1, c);
        }
        if c > 0 {
            Self::lemma_runs_same(a, b, r, c - 1);
        }
    }

    /// The search is deterministic apart from candidate shuffling: two
    /// boards holding the same cells and the same resolved lines select
    /// the same next line, see the same line texts, and get the same
    /// validity verdict.
    pub proof fn lemma_search_step_deterministic(a: &Grid, b: &Grid, tuples: Seq<Seq<char>>)
        requires
            a.cells() == b.cells(),
            a.width() == b.width(),
            a.resolved() == b.resolved(),
        ensures
            a.unresolved_lines() == b.unresolved_lines(),
            a.best_of(a.unresolved_lines()) == b.best_of(b.unresolved_lines()),
            forall|l: Line| #[trigger] a.line_text(l) == b.line_text(l),
            a.spec_is_invalid(tuples) == b.spec_is_invalid(tuples),
    {
        assert(a.all_lines() =~= b.all_lines());
        Self::lemma_best_of_same(a, b, a.unresolved_lines());
        Self::lemma_runs_same(a, b, a.cells().len() as int, a.width() as int);
        assert(a.board_runs() == b.board_runs());
        assert(a.spec_has_isolated() == b.spec_has_isolated()) by {
            if a.spec_has_isolated() {
                let (r, c) = choose|r: int, c: int|
                    0 <= r < a.cells().len() && 0 <= c < a.width() && #[trigger] a.isolated_at(
                        r,
                        c,
                    );
                assert(b.isolated_at(r, c));
            }
            if b.spec_has_isolated() {
                let (r, c) = choose|r: int, c: int|
                    0 <= r < b.cells().len() && 0 <= c < b.width() && #[trigger] b.isolated_at(
                        r,
                        c,
                    );
                assert(a.isolated_at(r, c));
            }
        }
    }
}

/// Whether the list holds this very line.
fn contains_line(v: &Vec<Line>, l: &Line) -> (r: bool)
    ensures
        r == v@.contains(*l),
{
    let mut i: usize = 0;
    while i < v.len()
        invariant
            0 <= i <= v@.len(),
            forall|j: int| 0 <= j < i ==> v@[j] != *l,
        decreases v@.len() - i,
    {
        if v[i] == *l {
            return true;
        }
        i += 1;
    }
    proof {
        if v@.contains(*l) {
            let k = choose|k: int| 0 <= k < v@.len() && v@[k] == *l;
            assert(false);
        }
    }
    false
}

impl Clone for Grid {
    /// An owned copy with the same cells, dimensions and resolved lines.
    fn clone(&self) -> (r: Self)
        ensures
            r.cells() == self.cells(),
            r.width() == self.width(),
            r.resolved() == self.resolved(),
    {
        let mut resolved_lines: Vec<Line> = Vec::new();
        let mut i: usize = 0;
        while i < self.resolved_lines.len()
            invariant
                0 <= i <= self.resolved_lines@.len(),
                resolved_lines@ == self.resolved_lines@.take(i as int),
            decreases self.resolved_lines@.len() - i,
        {
            resolved_lines.push(self.resolved_lines[i]);
            proof {
                assert(resolved_lines@ =~= self.resolved_lines@.take(i + 1));
            }
            i += 1;
        }
        proof {
            assert(self.resolved_lines@.take(self.resolved_lines@.len() as int)
                =~= self.resolved_lines@);
        }
        Grid { layout: mat_clone(&self.layout), resolved_lines }
    }
}

} // verus!
