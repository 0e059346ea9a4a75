use vstd::prelude::*;

use vstd::multiset::Multiset;

use simple_matrix::Matrix;

use crate::grid_beehive::GridBeehive;
use crate::lines::column_of;
use crate::matrix::{mat_cells, mat_clone, mat_cols, mat_get, mat_get_col, mat_get_row, mat_new,
    mat_rows, mat_set, mat_width};
use crate::rng::random_below;
use crate::text::{chars_of, string_of, substring};

verus! {

/// Whether a line runs across, down, or along an anti-diagonal.
#[derive(Clone, Copy, Debug, PartialEq, Eq, Structural)]
pub enum Kind {
    Row,
    Col,
    Diag,
}

/// One cell position of the board.
#[derive(Clone, Copy, Debug, PartialEq, Eq, Hash, Structural)]
pub struct Cell {
    pub row: usize,
    pub col: usize,
}

/// One word slot of the board, named by its direction and its index.
#[derive(Clone, Copy, Debug, PartialEq, Eq, Structural)]
pub struct Line {
    pub index: usize,
    pub kind: Kind,
}

/// The feedback colour of one tile: in place, present elsewhere in one of
/// its words, or absent.
#[derive(Clone, Copy, Debug, PartialEq, Eq, Structural)]
pub enum Color {
    Green,
    Yellow,
    White,
}

/// The row-major order on cell positions.
pub open spec fn lex_before(a: Cell, b: Cell) -> bool {
    a.row < b.row || (a.row == b.row && a.col < b.col)
}

/// The first column that anti-diagonal `d` touches on a board of the
/// given row count.
pub open spec fn swap_diag_lo(rows: int, d: int) -> int {
    if d - rows + 1 > 0 {
        d - rows + 1
    } else {
        0
    }
}

/// The last column that anti-diagonal `d` touches on a board of the
/// given column count.
pub open spec fn swap_diag_hi(cols: int, d: int) -> int {
    if d < cols - 1 {
        d
    } else {
        cols - 1
    }
}

/// The text of anti-diagonal `d` of a cell matrix.
pub open spec fn diag_text_of(cells: Seq<Seq<char>>, cols: int, d: int) -> Seq<char> {
    let lo = swap_diag_lo(cells.len() as int, d);
    let hi = swap_diag_hi(cols, d);
    Seq::new((hi - lo + 1) as nat, |k: int| cells[d - lo - k][lo + k])
}

/// A copy of the text with the first occurrence of `c`, if any, replaced
/// by `to`.
pub open spec fn replace_first(s: Seq<char>, c: char, to: char) -> Seq<char>
    decreases s.len(),
{
    if s.len() == 0 {
        s
    } else if s[0] == c {
        seq![to] + s.drop_first()
    } else {
        seq![s[0]] + replace_first(s.drop_first(), c, to)
    }
}

/// A copy of the text with every occurrence of `c` replaced by `to`.
pub open spec fn replace_all(s: Seq<char>, c: char, to: char) -> Seq<char> {
    s.map_values(
        |x: char|
            if x == c {
                to
            } else {
                x
            },
    )
}

/// The solved and shuffled word texts after the first pass of the
/// feedback rule: for each position up to `i` where the two agree, the
/// first occurrence of that letter is struck from both.
pub open spec fn struck_pair(s0: Seq<char>, t0: Seq<char>, i: int) -> (Seq<char>, Seq<char>)
    decreases i,
{
    if i <= 0 {
        (s0, t0)
    } else {
        let (s, t) = struck_pair(s0, t0, i - 1);
        if s[i - 1] == t[i - 1] {
            (replace_first(s, s[i - 1], '='), replace_first(t, t[i - 1], '='))
        } else {
            (s, t)
        }
    }
}

/// The solved text after the second pass: every letter the shuffled text
/// shows before `index` is blotted out entirely.
pub open spec fn blotted(s0: Seq<char>, t: Seq<char>, i: int) -> Seq<char>
    decreases i,
{
    if i <= 0 {
        s0
    } else {
        replace_all(blotted(s0, t, i - 1), t[i - 1], '~')
    }
}

/// What the feedback rule answers for the tile at `index` of a word: the
/// tile's letter must survive both passes somewhere in the solved text.
pub open spec fn spec_is_yellow(solved: Seq<char>, shuffled: Seq<char>, index: int) -> bool {
    let letter = shuffled[index];
    let (s1, t1) = struck_pair(solved, shuffled, solved.len() as int);
    blotted(s1, t1, index).contains(letter)
}

/// Replaces the first occurrence of `c` in the vector, if any, by `to`.
fn replace_first_vec(v: &mut Vec<char>, c: char, to: char)
    ensures
        final(v)@ == replace_first(old(v)@, c, to),
{
    let n = v.len();
    let mut i: usize = 0;
    while i < n
        invariant
            v@ == old(v)@,
            n == old(v)@.len(),
            0 <= i <= n,
            forall|j: int| 0 <= j < i ==> old(v)@[j] != c,
        decreases n - i,
    {
        if v[i] == c {
            v.set(i, to);
            proof {
                lemma_replace_first_at(old(v)@, c, to, i as int);
                assert(v@ =~= replace_first(old(v)@, c, to));
            }
            return ;
        }
        i += 1;
    }
    proof {
        lemma_replace_first_absent(old(v)@, c, to);
    }
}

proof fn lemma_replace_first_at(s: Seq<char>, c: char, to: char, i: int)
    requires
        0 <= i < s.len(),
        s[i] == c,
        forall|j: int| 0 <= j < i ==> s[j] != c,
    ensures
        replace_first(s, c, to) == s.update(i, to),
    decreases s.len(),
{
    if i == 0 {
        assert(seq![to] + s.drop_first() =~= s.update(0, to));
    } else {
        lemma_replace_first_at(s.drop_first(), c, to, i - 1);
        assert(forall|j: int| 0 <= j < i - 1 ==> s.drop_first()[j] != c);
        assert(seq![s[0]] + s.drop_first().update(i - 1, to) =~= s.update(i, to));
    }
}

proof fn lemma_replace_first_absent(s: Seq<char>, c: char, to: char)
    requires
        forall|j: int| 0 <= j < s.len() ==> s[j] != c,
    ensures
        replace_first(s, c, to) == s,
    decreases s.len(),
{
    if s.len() > 0 {
        lemma_replace_first_absent(s.drop_first(), c, to);
        assert(seq![s[0]] + s.drop_first() =~= s);
    }
}

/// Replaces every occurrence of `c` in the vector by `to`.
fn replace_all_vec(v: &mut Vec<char>, c: char, to: char)
    ensures
        final(v)@ == replace_all(old(v)@, c, to),
{
    let ghost orig = v@;
    let n = v.len();
    let mut i: usize = 0;
    while i < n
        invariant
            n == orig.len(),
            v@.len() == n,
            0 <= i <= n,
            forall|j: int| 0 <= j < i ==> v@[j] == replace_all(orig, c, to)[j],
            forall|j: int| i <= j < n ==> v@[j] == orig[j],
        decreases n - i,
    {
        if v[i] == c {
            v.set(i, to);
        }
        i += 1;
    }
    proof {
        assert(v@ =~= replace_all(orig, c, to));
    }
}

/// Whether the vector holds the character.
fn vec_contains_char(v: &Vec<char>, c: char) -> (r: bool)
    ensures
        r == v@.contains(c),
{
    let mut i: usize = 0;
    while i < v.len()
        invariant
            0 <= i <= v@.len(),
            forall|j: int| 0 <= j < i ==> v@[j] != c,
        decreases v@.len() - i,
    {
        if v[i] == c {
            return true;
        }
        i += 1;
    }
    proof {
        if v@.contains(c) {
            let k = choose|k: int| 0 <= k < v@.len() && v@[k] == c;
            assert(false);
        }
    }
    false
}

/// The feedback rule for one tile of one word: whether the shuffled
/// letter at `index`, though not in place, still occurs among the solved
/// word's unmatched letters.
pub fn is_yellow(solved: String, shuffled: String, index: usize) -> (r: bool)
    requires
        solved@.len() == shuffled@.len(),
        index < shuffled@.len(),
    ensures
        r == spec_is_yellow(solved@, shuffled@, index as int),
{
    let ghost s0 = solved@;
    let ghost t0 = shuffled@;
    let letter = shuffled.as_str().get_char(index);
    let mut sv = chars_of(solved.as_str());
    let mut tv = chars_of(shuffled.as_str());
    let n = sv.len();
    let mut i: usize = 0;
    while i < n
        invariant
            n == s0.len(),
            s0.len() == t0.len(),
            0 <= i <= n,
            (sv@, tv@) == struck_pair(s0, t0, i as int),
            sv@.len() == n,
            tv@.len() == n,
        decreases n - i,
    {
        proof {
            lemma_struck_pair_len(s0, t0, i + 1);
        }
        if sv[i] == tv[i] {
            let c = sv[i];
            replace_first_vec(&mut sv, c, '=');
            let c2 = tv[i];
            replace_first_vec(&mut tv, c2, '=');
        }
        i += 1;
    }
    let mut j: usize = 0;
    while j < index
        invariant
            n == s0.len(),
            s0.len() == t0.len(),
            index < t0.len(),
            0 <= j <= index,
            tv@ == struck_pair(s0, t0, s0.len() as int).1,
            sv@ == blotted(struck_pair(s0, t0, s0.len() as int).0, tv@, j as int),
            tv@.len() == n,
        decreases index - j,
    {
        let tc = tv[j];
        replace_all_vec(&mut sv, tc, '~');
        j += 1;
    }
    vec_contains_char(&sv, letter)
}

proof fn lemma_struck_pair_len(s0: Seq<char>, t0: Seq<char>, i: int)
    ensures
        struck_pair(s0, t0, i).0.len() == s0.len(),
        struck_pair(s0, t0, i).1.len() == t0.len(),
    decreases i,
{
    if i > 0 {
        lemma_struck_pair_len(s0, t0, i - 1);
        let (s, t) = struck_pair(s0, t0, i - 1);
        lemma_replace_first_len(s, s[i - 1], '=');
        lemma_replace_first_len(t, t[i - 1], '=');
    }
}

proof fn lemma_replace_first_len(s: Seq<char>, c: char, to: char)
    ensures
        replace_first(s, c, to).len() == s.len(),
    decreases s.len(),
{
    if s.len() > 0 && s[0] != c {
        lemma_replace_first_len(s.drop_first(), c, to);
    }
}

/// A solved board side by side with a shuffled copy of it, as the
/// tile-swap game plays it: tiles of the shuffled copy are swapped until
/// they match the solved layout.
#[derive(Debug)]
pub struct BeehiveSwap {
    solved_layout: Matrix<char>,
    shuffled_layout: Matrix<char>,
}

impl BeehiveSwap {
    /// The solved board's cells, row by row.
    pub closed spec fn solved(&self) -> Seq<Seq<char>> {
        mat_cells(&self.solved_layout)
    }

    /// The shuffled board's cells, row by row.
    pub closed spec fn shuffled(&self) -> Seq<Seq<char>> {
        mat_cells(&self.shuffled_layout)
    }

    /// The boards' shared column count.
    pub closed spec fn width(&self) -> nat {
        mat_width(&self.solved_layout)
    }

    /// The shuffled layout's own column count.
    pub closed spec fn shuffled_width(&self) -> nat {
        mat_width(&self.shuffled_layout)
    }

    /// Both layouts exist, agree in shape, and fit the machine.
    pub open spec fn wf(&self) -> bool {
        &&& self.solved().len() >= 1
        &&& self.width() >= 1
        &&& self.solved().len() * self.width() <= usize::MAX
        &&& self.shuffled().len() == self.solved().len()
        &&& self.shuffled_width() == self.width()
        &&& forall|r: int|
            0 <= r < self.solved().len() ==> (#[trigger] self.solved()[r]).len() == self.width()
        &&& forall|r: int|
            0 <= r < self.shuffled().len() ==> (#[trigger] self.shuffled()[r]).len()
                == self.width()
    }

    /// The boards' row count.
    pub fn rows(&self) -> (r: usize)
        ensures
            r == self.solved().len(),
    {
        mat_rows(&self.solved_layout)
    }

    /// The boards' column count.
    pub fn cols(&self) -> (r: usize)
        ensures
            r == self.width(),
    {
        mat_cols(&self.solved_layout)
    }

    /// How many anti-diagonals the boards have.
    pub fn diags(&self) -> (r: usize)
        requires
            self.wf(),
        ensures
            r == self.solved().len() + self.width() - 1,
    {
        proof {
            let a = self.solved().len() as int;
            let b = self.width() as int;
            assert(a + b - 1 <= a * b) by (nonlinear_arith)
                requires
                    a >= 1,
                    b >= 1,
            ;
        }
        let rows = mat_rows(&self.solved_layout);
        let cols = mat_cols(&self.solved_layout);
        rows + (cols - 1)
    }

    /// One solved cell, when it exists.
    pub fn get_solved_cell(&self, cell: &Cell) -> (r: Option<char>)
        ensures
            (match r {
                Some(c) => cell.row < self.solved().len() && cell.col < self.width() && c
                    == self.solved()[cell.row as int][cell.col as int],
                None => cell.row >= self.solved().len() || cell.col >= self.width(),
            }),
    {
        mat_get(&self.solved_layout, cell.row, cell.col)
    }

    /// One shuffled cell, when it exists.
    pub fn get_shuffled_cell(&self, cell: &Cell) -> (r: Option<char>)
        requires
            self.wf(),
        ensures
            (match r {
                Some(c) => cell.row < self.shuffled().len() && cell.col < self.width() && c
                    == self.shuffled()[cell.row as int][cell.col as int],
                None => cell.row >= self.shuffled().len() || cell.col >= self.width(),
            }),
    {
        mat_get(&self.shuffled_layout, cell.row, cell.col)
    }

    /// A solved row's text, when it exists.
    pub fn get_solved_row(&self, row: usize) -> (r: Option<String>)
        ensures
            (match r {
                Some(s) => row < self.solved().len() && s@ == self.solved()[row as int],
                None => row >= self.solved().len(),
            }),
    {
        mat_get_row(&self.solved_layout, row)
    }

    /// A shuffled row's text, when it exists.
    pub fn get_shuffled_row(&self, row: usize) -> (r: Option<String>)
        ensures
            (match r {
                Some(s) => row < self.shuffled().len() && s@ == self.shuffled()[row as int],
                None => row >= self.shuffled().len(),
            }),
    {
        mat_get_row(&self.shuffled_layout, row)
    }

    /// A solved column's text, when it exists.
    pub fn get_solved_col(&self, col: usize) -> (r: Option<String>)
        ensures
            (match r {
                Some(s) => col < self.width() && s@ == column_of(self.solved(), col as int),
                None => col >= self.width(),
            }),
    {
        mat_get_col(&self.solved_layout, col)
    }

    /// A shuffled column's text, when it exists.
    pub fn get_shuffled_col(&self, col: usize) -> (r: Option<String>)
        requires
            self.wf(),
        ensures
            (match r {
                Some(s) => col < self.width() && s@ == column_of(self.shuffled(), col as int),
                None => col >= self.width(),
            }),
    {
        mat_get_col(&self.shuffled_layout, col)
    }

    /// A solved anti-diagonal's text, when it exists.
    pub fn get_solved_diag(&self, diag: usize) -> (r: Option<String>)
        requires
            self.wf(),
        ensures
            (match r {
                Some(s) => diag < self.solved().len() + self.width() - 1 && s@ == diag_text_of(
                    self.solved(),
                    self.width() as int,
                    diag as int,
                ),
                None => diag >= self.solved().len() + self.width() - 1,
            }),
    {
        let rows = self.rows();
        let cols = self.cols();
        let total = self.diags();
        if diag >= total {
            return None;
        }
        let ghost d = diag as int;
        let ghost lo = swap_diag_lo(rows as int, d);
        let ghost hi = swap_diag_hi(cols as int, d);
        let mut out: Vec<char> = Vec::new();
        let mut i: usize = 0;
        while i <= diag
            invariant
                self.wf(),
                rows == self.solved().len(),
                cols == self.width(),
                d == diag,
                diag < rows + cols - 1,
                lo == swap_diag_lo(rows as int, d),
                hi == swap_diag_hi(cols as int, d),
                0 <= i <= diag + 1,
                diag < usize::MAX,
                out@.len() == (if i <= lo {
                    0int
                } else if i <= hi + 1 {
                    i - lo
                } else {
                    hi - lo + 1
                }),
                forall|k: int|
                    0 <= k < out@.len() ==> out@[k] == diag_text_of(
                        self.solved(),
                        cols as int,
                        d,
                    )[k],
            decreases diag + 1 - i,
        {
            match self.get_solved_cell(&Cell { row: diag - i, col: i }) {
                Some(c) => {
                    proof {
                        assert(lo <= i <= hi);
                        assert(c == diag_text_of(self.solved(), cols as int, d)[i - lo]);
                    }
                    out.push(c);
                },
                None => {
                    proof {
                        assert(i < lo || i > hi);
                    }
                },
            }
            i += 1;
        }
        let s = string_of(&out);
        proof {
            assert(s@ =~= diag_text_of(self.solved(), cols as int, d));
        }
        Some(s)
    }

    /// A shuffled anti-diagonal's text, when it exists.
    pub fn get_shuffled_diag(&self, diag: usize) -> (r: Option<String>)
        requires
            self.wf(),
        ensures
            (match r {
                Some(s) => diag < self.shuffled().len() + self.width() - 1 && s@ == diag_text_of(
                    self.shuffled(),
                    self.width() as int,
                    diag as int,
                ),
                None => diag >= self.shuffled().len() + self.width() - 1,
            }),
    {
        let rows = self.rows();
        let cols = self.cols();
        let total = self.diags();
        if diag >= total {
            return None;
        }
        let ghost d = diag as int;
        let ghost lo = swap_diag_lo(rows as int, d);
        let ghost hi = swap_diag_hi(cols as int, d);
        let mut out: Vec<char> = Vec::new();
        let mut i: usize = 0;
        while i <= diag
            invariant
                self.wf(),
                rows == self.solved().len(),
                cols == self.width(),
                d == diag,
                diag < rows + cols - 1,
                lo == swap_diag_lo(rows as int, d),
                hi == swap_diag_hi(cols as int, d),
                0 <= i <= diag + 1,
                diag < usize::MAX,
                out@.len() == (if i <= lo {
                    0int
                } else if i <= hi + 1 {
                    i - lo
                } else {
                    hi - lo + 1
                }),
                forall|k: int|
                    0 <= k < out@.len() ==> out@[k] == diag_text_of(
                        self.shuffled(),
                        cols as int,
                        d,
                    )[k],
            decreases diag + 1 - i,
        {
            match self.get_shuffled_cell(&Cell { row: diag - i, col: i }) {
                Some(c) => {
                    proof {
                        assert(lo <= i <= hi);
                        assert(c == diag_text_of(self.shuffled(), cols as int, d)[i - lo]);
                    }
                    out.push(c);
                },
                None => {
                    proof {
                        assert(i < lo || i > hi);
                    }
                },
            }
            i += 1;
        }
        let s = string_of(&out);
        proof {
            assert(s@ =~= diag_text_of(self.shuffled(), cols as int, d));
        }
        Some(s)
    }

    /// Whether a line names an existing row, column, or anti-diagonal.
    pub open spec fn line_ok(&self, line: Line) -> bool {
        match line.kind {
            Kind::Row => line.index < self.solved().len(),
            Kind::Col => line.index < self.width(),
            Kind::Diag => line.index < self.solved().len() + self.width() - 1,
        }
    }

    /// The text a line reads on the given layout.
    pub open spec fn line_text_on(&self, cells: Seq<Seq<char>>, line: Line) -> Seq<char> {
        match line.kind {
            Kind::Row => cells[line.index as int],
            Kind::Col => column_of(cells, line.index as int),
            Kind::Diag => diag_text_of(cells, self.width() as int, line.index as int),
        }
    }

    /// A solved line's text, when it exists.
    pub fn get_solved_line(&self, line: &Line) -> (r: Option<String>)
        requires
            self.wf(),
        ensures
            self.line_ok(*line) ==> r is Some && r->0@ == self.line_text_on(self.solved(), *line),
            !self.line_ok(*line) ==> r is None,
    {
        match line.kind {
            Kind::Row => self.get_solved_row(line.index),
            Kind::Col => self.get_solved_col(line.index),
            Kind::Diag => self.get_solved_diag(line.index),
        }
    }

    /// A shuffled line's text, when it exists.
    pub fn get_shuffled_line(&self, line: &Line) -> (r: Option<String>)
        requires
            self.wf(),
        ensures
            self.line_ok(*line) ==> r is Some && r->0@ == self.line_text_on(
                self.shuffled(),
                *line,
            ),
            !self.line_ok(*line) ==> r is None,
    {
        match line.kind {
            Kind::Row => self.get_shuffled_row(line.index),
            Kind::Col => self.get_shuffled_col(line.index),
            Kind::Diag => self.get_shuffled_diag(line.index),
        }
    }

    /// Every cell position of the board, row by row.
    pub fn get_cells(&self) -> (r: Vec<Cell>)
        requires
            self.wf(),
        ensures
            r@.len() == self.solved().len() * self.width(),
            forall|k: int|
                0 <= k < r@.len() ==> (#[trigger] r@[k]).row < self.solved().len()
                    && r@[k].col < self.width(),
            forall|i: int, j: int|
                0 <= i < self.solved().len() && 0 <= j < self.width() ==> #[trigger] r@.contains(
                    Cell { row: i as usize, col: j as usize },
                ),
            forall|k1: int, k2: int|
                0 <= k1 < k2 < r@.len() ==> lex_before(#[trigger] r@[k1], #[trigger] r@[k2]),
    {
        let rows = self.rows();
        let cols = self.cols();
        let mut cells: Vec<Cell> = Vec::new();
        let mut r: usize = 0;
        while r < rows
            invariant
                self.wf(),
                rows == self.solved().len(),
                cols == self.width(),
                rows * cols <= usize::MAX,
                0 <= r <= rows,
                cells@.len() == r * cols,
                forall|k: int|
                    0 <= k < cells@.len() ==> (#[trigger] cells@[k]).row < rows && cells@[k].col
                        < cols,
                forall|i: int, j: int|
                    0 <= i < r && 0 <= j < cols ==> #[trigger] cells@.contains(
                        Cell { row: i as usize, col: j as usize },
                    ),
                forall|k: int| 0 <= k < cells@.len() ==> (#[trigger] cells@[k]).row < r,
                forall|k1: int, k2: int|
                    0 <= k1 < k2 < cells@.len() ==> lex_before(
                        #[trigger] cells@[k1],
                        #[trigger] cells@[k2],
                    ),
            decreases rows - r,
        {
            proof {
                let rr = r as int;
                let cc = cols as int;
                let rs = rows as int;
                assert((rr + 1) * cc <= rs * cc) by (nonlinear_arith)
                    requires
                        rr + 1 <= rs,
                        cc >= 0,
                ;
                assert((rr + 1) * cc == rr * cc + cc) by (nonlinear_arith);
            }
            let mut c: usize = 0;
            while c < cols
                invariant
                    self.wf(),
                    rows == self.solved().len(),
                    cols == self.width(),
                    0 <= r < rows,
                    0 <= c <= cols,
                    (r as int) * (cols as int) + cols <= rows as int * cols as int,
                    rows * cols <= usize::MAX,
                    cells@.len() == r * cols + c,
                    forall|k: int|
                        0 <= k < cells@.len() ==> (#[trigger] cells@[k]).row < rows
                            && cells@[k].col < cols,
                    forall|i: int, j: int|
                        0 <= i < r && 0 <= j < cols ==> #[trigger] cells@.contains(
                            Cell { row: i as usize, col: j as usize },
                        ),
                    forall|j: int|
                        0 <= j < c ==> #[trigger] cells@.contains(Cell { row: r, col: j as usize }),
                    forall|k: int|
                        0 <= k < cells@.len() ==> (#[trigger] cells@[k]).row < r || (cells@[k].row
                            == r && cells@[k].col < c),
                    forall|k1: int, k2: int|
                        0 <= k1 < k2 < cells@.len() ==> lex_before(
                            #[trigger] cells@[k1],
                            #[trigger] cells@[k2],
                        ),
                decreases cols - c,
            {
                let ghost prev = cells@;
                cells.push(Cell { row: r, col: c });
                proof {
                    assert(forall|k: int| 0 <= k < prev.len() ==> #[trigger] cells@[k] == prev[k]);
                    assert(cells@.last() == (Cell { row: r, col: c }));
                    assert(forall|k: int|
                        0 <= k < prev.len() ==> lex_before(#[trigger] prev[k], cells@.last()));
                    assert forall|i: int, j: int| 0 <= i < r && 0 <= j < cols implies
                        #[trigger] cells@.contains(Cell { row: i as usize, col: j as usize }) by {
                        assert(prev.contains(Cell { row: i as usize, col: j as usize }));
                        let k = choose|k: int|
                            0 <= k < prev.len() && prev[k] == (Cell {
                                row: i as usize,
                                col: j as usize,
                            });
                        assert(cells@[k] == prev[k]);
                    }
                    assert forall|j: int| 0 <= j <= c implies #[trigger] cells@.contains(
                        Cell { row: r, col: j as usize },
                    ) by {
                        if j < c {
                            assert(prev.contains(Cell { row: r, col: j as usize }));
                            let k = choose|k: int|
                                0 <= k < prev.len() && prev[k] == (Cell {
                                    row: r,
                                    col: j as usize,
                                });
                            assert(cells@[k] == prev[k]);
                        } else {
                            assert(cells@.last() == (Cell { row: r, col: c }));
                        }
                    }
                }
                c += 1;
            }
            r += 1;
        }
        cells
    }

    /// Whether a cell may take part in a swap: it is playable and not on
    /// the small fixed exclusion list baked into the six-by-six shape.
    pub open spec fn swappable(&self, r: int, c: int) -> bool {
        &&& 0 <= r < self.solved().len()
        &&& 0 <= c < self.width()
        &&& self.solved()[r][c] != '_'
        &&& !(r == 0 && c == 2)
        &&& !(r == 2 && c == 2)
        &&& !(r == 2 && c == 3)
        &&& !(r == 2 && c == 5)
        &&& !(r == 3 && c == 2)
        &&& !(r == 5 && c == 0)
    }

    /// The cells eligible for swapping, in row order.
    pub fn get_swappable_cells(&self) -> (r: Vec<Cell>)
        requires
            self.wf(),
        ensures
            forall|k: int|
                0 <= k < r@.len() ==> self.swappable(
                    (#[trigger] r@[k]).row as int,
                    r@[k].col as int,
                ),
            forall|i: int, j: int|
                #[trigger] self.swappable(i, j) ==> r@.contains(
                    Cell { row: i as usize, col: j as usize },
                ),
            forall|k1: int, k2: int|
                0 <= k1 < k2 < r@.len() ==> lex_before(#[trigger] r@[k1], #[trigger] r@[k2]),
    {
        let all = self.get_cells();
        let mut out: Vec<Cell> = Vec::new();
        let mut k: usize = 0;
        while k < all.len()
            invariant
                self.wf(),
                0 <= k <= all@.len(),
                forall|t: int|
                    0 <= t < all@.len() ==> (#[trigger] all@[t]).row < self.solved().len()
                        && all@[t].col < self.width(),
                forall|t1: int, t2: int|
                    0 <= t1 < t2 < all@.len() ==> lex_before(
                        #[trigger] all@[t1],
                        #[trigger] all@[t2],
                    ),
                forall|t: int|
                    0 <= t < out@.len() ==> self.swappable(
                        (#[trigger] out@[t]).row as int,
                        out@[t].col as int,
                    ),
                forall|t: int|
                    0 <= t < k && self.swappable(
                        (#[trigger] all@[t]).row as int,
                        all@[t].col as int,
                    ) ==> out@.contains(all@[t]),
                forall|t: int, j: int|
                    0 <= t < out@.len() && k <= j < all@.len() ==> lex_before(
                        #[trigger] out@[t],
                        #[trigger] all@[j],
                    ),
                forall|t1: int, t2: int|
                    0 <= t1 < t2 < out@.len() ==> lex_before(
                        #[trigger] out@[t1],
                        #[trigger] out@[t2],
                    ),
            decreases all@.len() - k,
        {
            let cell = all[k];
            let solved_ch = match self.get_solved_cell(&cell) {
                Some(ch) => ch,
                None => '_',
            };
            let excluded = (cell.row == 0 && cell.col == 2) || (cell.row == 2 && cell.col == 2) || (
            cell.row == 2 && cell.col == 3) || (cell.row == 2 && cell.col == 5) || (cell.row == 3
                && cell.col == 2) || (cell.row == 5 && cell.col == 0);
            let ghost prev = out@;
            if solved_ch != '_' && !excluded {
                out.push(cell);
                proof {
                    assert(out@.last() == cell);
                    assert(cell == all@[k as int]);
                    assert(forall|t: int| 0 <= t < prev.len() ==> out@[t] == prev[t]);
                    assert(forall|t: int|
                        0 <= t < prev.len() ==> lex_before(#[trigger] prev[t], cell));
                }
            }
            proof {
                assert(forall|x: Cell| prev.contains(x) ==> out@.contains(x)) by {
                    assert(forall|t: int| 0 <= t < prev.len() ==> out@[t] == prev[t]);
                }
            }
            k += 1;
        }
        proof {
            assert forall|i: int, j: int| #[trigger] self.swappable(i, j) implies out@.contains(
                Cell { row: i as usize, col: j as usize },
            ) by {
                assert(0 <= i < self.solved().len() && 0 <= j < self.width());
                assert(self.solved().len() <= usize::MAX && self.width() <= usize::MAX) by (
                nonlinear_arith)
                    requires
                        self.solved().len() * self.width() <= usize::MAX,
                        self.solved().len() >= 1,
                        self.width() >= 1,
                ;
                assert(all@.contains(Cell { row: i as usize, col: j as usize }));
                let t = choose|t: int|
                    0 <= t < all@.len() && all@[t] == (Cell { row: i as usize, col: j as usize });
                assert(all@[t].row as int == i && all@[t].col as int == j);
                assert(self.swappable(all@[t].row as int, all@[t].col as int));
            }
        }
        out
    }

    /// Writes one shuffled cell when it exists; out of bounds, nothing
    /// changes.
    pub fn set_shuffled_cell(&mut self, cell: &Cell, val: char)
        ensures
            final(self).solved() == old(self).solved(),
            final(self).width() == old(self).width(),
            final(self).shuffled().len() == old(self).shuffled().len(),
            final(self).shuffled_width() == old(self).shuffled_width(),
            old(self).wf() ==> final(self).wf(),
            cell.row < old(self).shuffled().len() && cell.col < old(self).shuffled_width()
                ==> final(self).shuffled() == old(self).shuffled().update(
                cell.row as int,
                old(self).shuffled()[cell.row as int].update(cell.col as int, val),
            ),
            !(cell.row < old(self).shuffled().len() && cell.col < old(self).shuffled_width())
                ==> final(self).shuffled() == old(self).shuffled(),
    {
        mat_set(&mut self.shuffled_layout, cell.row, cell.col, val);
    }

    /// Exchanges the letters of two shuffled cells.
    pub fn swap(&mut self, cell_a: &Cell, cell_b: &Cell)
        requires
            old(self).wf(),
            cell_a.row < old(self).shuffled().len(),
            cell_a.col < old(self).width(),
            cell_b.row < old(self).shuffled().len(),
            cell_b.col < old(self).width(),
        ensures
            final(self).wf(),
            final(self).solved() == old(self).solved(),
            final(self).width() == old(self).width(),
            final(self).shuffled().len() == old(self).shuffled().len(),
            tile_bag(final(self).shuffled()) == tile_bag(old(self).shuffled()),
            forall|r: int, c: int|
                0 <= r < old(self).shuffled().len() && 0 <= c < old(self).width()
                    ==> #[trigger] final(self).shuffled()[r][c] == (if r == cell_a.row && c
                    == cell_a.col {
                    old(self).shuffled()[cell_b.row as int][cell_b.col as int]
                } else if r == cell_b.row && c == cell_b.col {
                    old(self).shuffled()[cell_a.row as int][cell_a.col as int]
                } else {
                    old(self).shuffled()[r][c]
                }),
    {
        let char_a = self.get_shuffled_cell(cell_a).unwrap();
        let char_b = self.get_shuffled_cell(cell_b).unwrap();
        self.set_shuffled_cell(cell_a, char_b);
        self.set_shuffled_cell(cell_b, char_a);
        proof {
            let prior = old(self).shuffled();
            let ra = cell_a.row as int;
            let ca = cell_a.col as int;
            let rb = cell_b.row as int;
            let cb = cell_b.col as int;
            if ra == rb {
                assert(self.shuffled() =~= prior.update(
                    ra,
                    prior[ra].update(ca, prior[rb][cb]).update(cb, prior[ra][ca]),
                ));
            } else {
                assert(self.shuffled() =~= prior.update(ra, prior[ra].update(ca, prior[rb][cb]))
                    .update(rb, prior[rb].update(cb, prior[ra][ca])));
            }
            lemma_tile_bag_exchange(prior, self.shuffled(), ra, ca, rb, cb);
        }
    }

    /// Performs the given number of random swaps among the swappable
    /// cells. The solved layout is untouched, and so is every shuffled
    /// cell that is not swappable.
    pub fn shuffle(&mut self, swaps_cnt: usize)
        requires
            old(self).wf(),
        ensures
            final(self).wf(),
            final(self).solved() == old(self).solved(),
            final(self).width() == old(self).width(),
            final(self).shuffled().len() == old(self).shuffled().len(),
            tile_bag(final(self).shuffled()) == tile_bag(old(self).shuffled()),
            forall|r: int, c: int|
                0 <= r < old(self).shuffled().len() && 0 <= c < old(self).width() && !old(
                    self,
                ).swappable(r, c) ==> #[trigger] final(self).shuffled()[r][c] == old(
                    self,
                ).shuffled()[r][c],
    {
        let ghost orig = *self;
        let swappable_cells = self.get_swappable_cells();
        let mut s: usize = 0;
        while s < swaps_cnt
            invariant
                self.wf(),
                orig.wf(),
                self.solved() == orig.solved(),
                self.width() == orig.width(),
                self.shuffled().len() == orig.shuffled().len(),
                tile_bag(self.shuffled()) == tile_bag(orig.shuffled()),
                forall|t: int|
                    0 <= t < swappable_cells@.len() ==> orig.swappable(
                        (#[trigger] swappable_cells@[t]).row as int,
                        swappable_cells@[t].col as int,
                    ),
                forall|r: int, c: int|
                    0 <= r < orig.shuffled().len() && 0 <= c < orig.width() && !orig.swappable(
                        r,
                        c,
                    ) ==> #[trigger] self.shuffled()[r][c] == orig.shuffled()[r][c],
            decreases swaps_cnt - s,
        {
            if swappable_cells.len() >= 2 {
                let ia = random_below(swappable_cells.len());
                let ib = random_below(swappable_cells.len());
                let cell_a = swappable_cells[ia];
                let cell_b = swappable_cells[ib];
                self.swap(&cell_a, &cell_b);
            }
            s += 1;
        }
    }

    /// Builds the game state from a solved board: the solved layout is
    /// copied, and the playing copy is shuffled by twenty random swaps.
    pub fn from(value: GridBeehive) -> (r: BeehiveSwap)
        requires
            value.wf(),
        ensures
            r.wf(),
            r.solved() == value.cells(),
            r.width() == value.width(),
            tile_bag(r.shuffled()) == tile_bag(value.cells()),
            forall|i: int, j: int|
                0 <= i < value.cells().len() && 0 <= j < value.width() && !r.swappable(i, j)
                    ==> #[trigger] r.shuffled()[i][j] == value.cells()[i][j],
    {
        let rows = value.rows();
        let cols = value.cols();
        let mut solved_layout = mat_new(rows, cols);
        let mut rr: usize = 0;
        while rr < rows
            invariant
                value.wf(),
                rows == value.cells().len(),
                cols == value.width(),
                mat_cells(&solved_layout).len() == rows,
                mat_width(&solved_layout) == cols,
                forall|i: int|
                    0 <= i < rows ==> (#[trigger] mat_cells(&solved_layout)[i]).len() == cols,
                0 <= rr <= rows,
                forall|i: int, j: int|
                    0 <= i < rr && 0 <= j < cols ==> #[trigger] mat_cells(&solved_layout)[i][j]
                        == value.cells()[i][j],
            decreases rows - rr,
        {
            let mut cc: usize = 0;
            while cc < cols
                invariant
                    value.wf(),
                    rows == value.cells().len(),
                    cols == value.width(),
                    mat_cells(&solved_layout).len() == rows,
                    mat_width(&solved_layout) == cols,
                    forall|i: int|
                        0 <= i < rows ==> (#[trigger] mat_cells(&solved_layout)[i]).len() == cols,
                    0 <= rr < rows,
                    0 <= cc <= cols,
                    forall|i: int, j: int|
                        0 <= i < rr && 0 <= j < cols ==> #[trigger] mat_cells(&solved_layout)[i][j]
                            == value.cells()[i][j],
                    forall|j: int|
                        0 <= j < cc ==> #[trigger] mat_cells(&solved_layout)[rr as int][j]
                            == value.cells()[rr as int][j],
                decreases cols - cc,
            {
                let ch = value.get_cell(rr, cc).unwrap();
                mat_set(&mut solved_layout, rr, cc, ch);
                cc += 1;
            }
            rr += 1;
        }
        let shuffled_layout = mat_clone(&solved_layout);
        let mut swap = BeehiveSwap { solved_layout, shuffled_layout };
        proof {
            assert(swap.wf());
            assert(swap.solved() =~~= value.cells());
        }
        swap.shuffle(20);
        swap
    }

    /// The fixed six-by-six feedback table: for each tile that may be out
    /// of place, which of its words are consulted, and at which position.
    pub open spec fn spec_cell_yellow(&self, r: int, c: int) -> bool {
        if r == 0 && c == 3 {
            spec_is_yellow(self.solved()[0].subrange(2, 6), self.shuffled()[0].subrange(2, 6), 1)
        } else if r == 0 && c == 4 {
            spec_is_yellow(self.solved()[0].subrange(2, 6), self.shuffled()[0].subrange(2, 6), 2)
                || spec_is_yellow(column_of(self.solved(), 4).subrange(0, 2), column_of(self.shuffled(), 4).subrange(0, 2), 0)
        } else if r == 0 && c == 5 {
            spec_is_yellow(self.solved()[0].subrange(2, 6), self.shuffled()[0].subrange(2, 6), 3)
                || spec_is_yellow(column_of(self.solved(), 5).subrange(0, 3), column_of(self.shuffled(), 5).subrange(0, 3), 0)
                || spec_is_yellow(diag_text_of(self.solved(), 6, 5).subrange(2, 6), diag_text_of(self.shuffled(), 6, 5).subrange(2, 6), 3)
        } else if r == 1 && c == 1 {
            spec_is_yellow(column_of(self.solved(), 1).subrange(1, 3), column_of(self.shuffled(), 1).subrange(1, 3), 0)
                || spec_is_yellow(diag_text_of(self.solved(), 6, 2), diag_text_of(self.shuffled(), 6, 2), 1)
        } else if r == 1 && c == 4 {
            spec_is_yellow(self.solved()[1].subrange(4, 6), self.shuffled()[1].subrange(4, 6), 0)
                || spec_is_yellow(column_of(self.solved(), 4).subrange(0, 2), column_of(self.shuffled(), 4).subrange(0, 2), 1)
                || spec_is_yellow(diag_text_of(self.solved(), 6, 5).subrange(2, 6), diag_text_of(self.shuffled(), 6, 5).subrange(2, 6), 2)
        } else if r == 1 && c == 5 {
            spec_is_yellow(self.solved()[1].subrange(4, 6), self.shuffled()[1].subrange(4, 6), 1)
                || spec_is_yellow(column_of(self.solved(), 5).subrange(0, 3), column_of(self.shuffled(), 5).subrange(0, 3), 1)
        } else if r == 2 && c == 0 {
            spec_is_yellow(self.solved()[2].subrange(0, 4), self.shuffled()[2].subrange(0, 4), 0)
                || spec_is_yellow(column_of(self.solved(), 0).subrange(2, 6), column_of(self.shuffled(), 0).subrange(2, 6), 0)
                || spec_is_yellow(diag_text_of(self.solved(), 6, 2), diag_text_of(self.shuffled(), 6, 2), 0)
        } else if r == 2 && c == 1 {
            spec_is_yellow(self.solved()[2].subrange(0, 4), self.shuffled()[2].subrange(0, 4), 1)
                || spec_is_yellow(column_of(self.solved(), 1).subrange(1, 3), column_of(self.shuffled(), 1).subrange(1, 3), 1)
                || spec_is_yellow(diag_text_of(self.solved(), 6, 3).subrange(0, 2), diag_text_of(self.shuffled(), 6, 3).subrange(0, 2), 1)
        } else if r == 3 && c == 0 {
            spec_is_yellow(column_of(self.solved(), 0).subrange(2, 6), column_of(self.shuffled(), 0).subrange(2, 6), 1)
                || spec_is_yellow(diag_text_of(self.solved(), 6, 3).subrange(0, 2), diag_text_of(self.shuffled(), 6, 3).subrange(0, 2), 0)
        } else if r == 3 && c == 4 {
            spec_is_yellow(diag_text_of(self.solved(), 6, 7), diag_text_of(self.shuffled(), 6, 7), 2)
        } else if r == 4 && c == 0 {
            spec_is_yellow(column_of(self.solved(), 0).subrange(2, 6), column_of(self.shuffled(), 0).subrange(2, 6), 2)
        } else if r == 4 && c == 2 {
            spec_is_yellow(self.solved()[4].subrange(2, 4), self.shuffled()[4].subrange(2, 4), 0)
                || spec_is_yellow(column_of(self.solved(), 2).subrange(2, 6), column_of(self.shuffled(), 2).subrange(2, 6), 2)
                || spec_is_yellow(diag_text_of(self.solved(), 6, 6).subrange(0, 2), diag_text_of(self.shuffled(), 6, 6).subrange(0, 2), 1)
        } else if r == 4 && c == 3 {
            spec_is_yellow(self.solved()[4].subrange(2, 4), self.shuffled()[4].subrange(2, 4), 1)
                || spec_is_yellow(diag_text_of(self.solved(), 6, 7), diag_text_of(self.shuffled(), 6, 7), 1)
        } else if r == 5 && c == 1 {
            spec_is_yellow(self.solved()[5].subrange(0, 3), self.shuffled()[5].subrange(0, 3), 1)
                || spec_is_yellow(diag_text_of(self.solved(), 6, 6).subrange(0, 2), diag_text_of(self.shuffled(), 6, 6).subrange(0, 2), 0)
        } else if r == 5 && c == 2 {
            spec_is_yellow(self.solved()[5].subrange(0, 3), self.shuffled()[5].subrange(0, 3), 2)
                || spec_is_yellow(column_of(self.solved(), 2).subrange(2, 6), column_of(self.shuffled(), 2).subrange(2, 6), 3)
                || spec_is_yellow(diag_text_of(self.solved(), 6, 7), diag_text_of(self.shuffled(), 6, 7), 0)
        } else {
            false
        }
    }

    /// The colour of one tile: green when it matches the solved layout
    /// (or lies off the board), else yellow when the feedback table finds
    /// its letter elsewhere in one of its words, else white.
    pub open spec fn spec_cell_color(&self, r: int, c: int) -> Color {
        if !(0 <= r < self.solved().len() && 0 <= c < self.width()) {
            Color::Green
        } else if self.solved()[r][c] == self.shuffled()[r][c] {
            Color::Green
        } else if self.spec_cell_yellow(r, c) {
            Color::Yellow
        } else {
            Color::White
        }
    }

    /// The colour of one tile, as the interactive layer shows it.
    pub fn get_cell_color(&self, cell: &Cell) -> (r: Color)
        requires
            self.wf(),
            self.solved().len() == 6,
            self.width() == 6,
        ensures
            r == self.spec_cell_color(cell.row as int, cell.col as int),
    {
        let solved_cell = self.get_solved_cell(cell);
        let shuffled_cell = self.get_shuffled_cell(cell);
        let same = match (solved_cell, shuffled_cell) {
            (Some(a), Some(b)) => a == b,
            (None, None) => true,
            _ => false,
        };
        if same {
            return Color::Green;
        }
        let yellow = if cell.row == 0 && cell.col == 3 {
                let ws0 = self.get_solved_row(0).unwrap();
                let ws0 = substring(&ws0, 2, 6);
                let wt0 = self.get_shuffled_row(0).unwrap();
                let wt0 = substring(&wt0, 2, 6);
                let y0 = is_yellow(ws0, wt0, 1);
                y0
            } else if cell.row == 0 && cell.col == 4 {
                let ws0 = self.get_solved_row(0).unwrap();
                let ws0 = substring(&ws0, 2, 6);
                let wt0 = self.get_shuffled_row(0).unwrap();
                let wt0 = substring(&wt0, 2, 6);
                let y0 = is_yellow(ws0, wt0, 2);
                let ws1 = self.get_solved_col(4).unwrap();
                let ws1 = substring(&ws1, 0, 2);
                let wt1 = self.get_shuffled_col(4).unwrap();
                let wt1 = substring(&wt1, 0, 2);
                let y1 = is_yellow(ws1, wt1, 0);
                y0 || y1
            } else if cell.row == 0 && cell.col == 5 {
                let ws0 = self.get_solved_row(0).unwrap();
                let ws0 = substring(&ws0, 2, 6);
                let wt0 = self.get_shuffled_row(0).unwrap();
                let wt0 = substring(&wt0, 2, 6);
                let y0 = is_yellow(ws0, wt0, 3);
                let ws1 = self.get_solved_col(5).unwrap();
                let ws1 = substring(&ws1, 0, 3);
                let wt1 = self.get_shuffled_col(5).unwrap();
                let wt1 = substring(&wt1, 0, 3);
                let y1 = is_yellow(ws1, wt1, 0);
                let ws2 = self.get_solved_diag(5).unwrap();
                let ws2 = substring(&ws2, 2, 6);
                let wt2 = self.get_shuffled_diag(5).unwrap();
                let wt2 = substring(&wt2, 2, 6);
                let y2 = is_yellow(ws2, wt2, 3);
                y0 || y1 || y2
            } else if cell.row == 1 && cell.col == 1 {
                let ws0 = self.get_solved_col(1).unwrap();
                let ws0 = substring(&ws0, 1, 3);
                let wt0 = self.get_shuffled_col(1).unwrap();
                let wt0 = substring(&wt0, 1, 3);
                let y0 = is_yellow(ws0, wt0, 0);
                let ws1 = self.get_solved_diag(2).unwrap();
                let wt1 = self.get_shuffled_diag(2).unwrap();
                let y1 = is_yellow(ws1, wt1, 1);
                y0 || y1
            } else if cell.row == 1 && cell.col == 4 {
                let ws0 = self.get_solved_row(1).unwrap();
                let ws0 = substring(&ws0, 4, 6);
                let wt0 = self.get_shuffled_row(1).unwrap();
                let wt0 = substring(&wt0, 4, 6);
                let y0 = is_yellow(ws0, wt0, 0);
                let ws1 = self.get_solved_col(4).unwrap();
                let ws1 = substring(&ws1, 0, 2);
                let wt1 = self.get_shuffled_col(4).unwrap();
                let wt1 = substring(&wt1, 0, 2);
                let y1 = is_yellow(ws1, wt1, 1);
                let ws2 = self.get_solved_diag(5).unwrap();
                let ws2 = substring(&ws2, 2, 6);
                let wt2 = self.get_shuffled_diag(5).unwrap();
                let wt2 = substring(&wt2, 2, 6);
                let y2 = is_yellow(ws2, wt2, 2);
                y0 || y1 || y2
            } else if cell.row == 1 && cell.col == 5 {
                let ws0 = self.get_solved_row(1).unwrap();
                let ws0 = substring(&ws0, 4, 6);
                let wt0 = self.get_shuffled_row(1).unwrap();
                let wt0 = substring(&wt0, 4, 6);
                let y0 = is_yellow(ws0, wt0, 1);
                let ws1 = self.get_solved_col(5).unwrap();
                let ws1 = substring(&ws1, 0, 3);
                let wt1 = self.get_shuffled_col(5).unwrap();
                let wt1 = substring(&wt1, 0, 3);
                let y1 = is_yellow(ws1, wt1, 1);
                y0 || y1
            } else if cell.row == 2 && cell.col == 0 {
                let ws0 = self.get_solved_row(2).unwrap();
                let ws0 = substring(&ws0, 0, 4);
                let wt0 = self.get_shuffled_row(2).unwrap();
                let wt0 = substring(&wt0, 0, 4);
                let y0 = is_yellow(ws0, wt0, 0);
                let ws1 = self.get_solved_col(0).unwrap();
                let ws1 = substring(&ws1, 2, 6);
                let wt1 = self.get_shuffled_col(0).unwrap();
                let wt1 = substring(&wt1, 2, 6);
                let y1 = is_yellow(ws1, wt1, 0);
                let ws2 = self.get_solved_diag(2).unwrap();
                let wt2 = self.get_shuffled_diag(2).unwrap();
                let y2 = is_yellow(ws2, wt2, 0);
                y0 || y1 || y2
            } else if cell.row == 2 && cell.col == 1 {
                let ws0 = self.get_solved_row(2).unwrap();
                let ws0 = substring(&ws0, 0, 4);
                let wt0 = self.get_shuffled_row(2).unwrap();
                let wt0 = substring(&wt0, 0, 4);
                let y0 = is_yellow(ws0, wt0, 1);
                let ws1 = self.get_solved_col(1).unwrap();
                let ws1 = substring(&ws1, 1, 3);
                let wt1 = self.get_shuffled_col(1).unwrap();
                let wt1 = substring(&wt1, 1, 3);
                let y1 = is_yellow(ws1, wt1, 1);
                let ws2 = self.get_solved_diag(3).unwrap();
                let ws2 = substring(&ws2, 0, 2);
                let wt2 = self.get_shuffled_diag(3).unwrap();
                let wt2 = substring(&wt2, 0, 2);
                let y2 = is_yellow(ws2, wt2, 1);
                y0 || y1 || y2
            } else if cell.row == 3 && cell.col == 0 {
                let ws0 = self.get_solved_col(0).unwrap();
                let ws0 = substring(&ws0, 2, 6);
                let wt0 = self.get_shuffled_col(0).unwrap();
                let wt0 = substring(&wt0, 2, 6);
                let y0 = is_yellow(ws0, wt0, 1);
                let ws1 = self.get_solved_diag(3).unwrap();
                let ws1 = substring(&ws1, 0, 2);
                let wt1 = self.get_shuffled_diag(3).unwrap();
                let wt1 = substring(&wt1, 0, 2);
                let y1 = is_yellow(ws1, wt1, 0);
                y0 || y1
            } else if cell.row == 3 && cell.col == 4 {
                let ws0 = self.get_solved_diag(7).unwrap();
                let wt0 = self.get_shuffled_diag(7).unwrap();
                let y0 = is_yellow(ws0, wt0, 2);
                y0
            } else if cell.row == 4 && cell.col == 0 {
                let ws0 = self.get_solved_col(0).unwrap();
                let ws0 = substring(&ws0, 2, 6);
                let wt0 = self.get_shuffled_col(0).unwrap();
                let wt0 = substring(&wt0, 2, 6);
                let y0 = is_yellow(ws0, wt0, 2);
                y0
            } else if cell.row == 4 && cell.col == 2 {
                let ws0 = self.get_solved_row(4).unwrap();
                let ws0 = substring(&ws0, 2, 4);
                let wt0 = self.get_shuffled_row(4).unwrap();
                let wt0 = substring(&wt0, 2, 4);
                let y0 = is_yellow(ws0, wt0, 0);
                let ws1 = self.get_solved_col(2).unwrap();
                let ws1 = substring(&ws1, 2, 6);
                let wt1 = self.get_shuffled_col(2).unwrap();
                let wt1 = substring(&wt1, 2, 6);
                let y1 = is_yellow(ws1, wt1, 2);
                let ws2 = self.get_solved_diag(6).unwrap();
                let ws2 = substring(&ws2, 0, 2);
                let wt2 = self.get_shuffled_diag(6).unwrap();
                let wt2 = substring(&wt2, 0, 2);
                let y2 = is_yellow(ws2, wt2, 1);
                y0 || y1 || y2
            } else if cell.row == 4 && cell.col == 3 {
                let ws0 = self.get_solved_row(4).unwrap();
                let ws0 = substring(&ws0, 2, 4);
                let wt0 = self.get_shuffled_row(4).unwrap();
                let wt0 = substring(&wt0, 2, 4);
                let y0 = is_yellow(ws0, wt0, 1);
                let ws1 = self.get_solved_diag(7).unwrap();
                let wt1 = self.get_shuffled_diag(7).unwrap();
                let y1 = is_yellow(ws1, wt1, 1);
                y0 || y1
            } else if cell.row == 5 && cell.col == 1 {
                let ws0 = self.get_solved_row(5).unwrap();
                let ws0 = substring(&ws0, 0, 3);
                let wt0 = self.get_shuffled_row(5).unwrap();
                let wt0 = substring(&wt0, 0, 3);
                let y0 = is_yellow(ws0, wt0, 1);
                let ws1 = self.get_solved_diag(6).unwrap();
                let ws1 = substring(&ws1, 0, 2);
                let wt1 = self.get_shuffled_diag(6).unwrap();
                let wt1 = substring(&wt1, 0, 2);
                let y1 = is_yellow(ws1, wt1, 0);
                y0 || y1
            } else if cell.row == 5 && cell.col == 2 {
                let ws0 = self.get_solved_row(5).unwrap();
                let ws0 = substring(&ws0, 0, 3);
                let wt0 = self.get_shuffled_row(5).unwrap();
                let wt0 = substring(&wt0, 0, 3);
                let y0 = is_yellow(ws0, wt0, 2);
                let ws1 = self.get_solved_col(2).unwrap();
                let ws1 = substring(&ws1, 2, 6);
                let wt1 = self.get_shuffled_col(2).unwrap();
                let wt1 = substring(&wt1, 2, 6);
                let y1 = is_yellow(ws1, wt1, 3);
                let ws2 = self.get_solved_diag(7).unwrap();
                let wt2 = self.get_shuffled_diag(7).unwrap();
                let y2 = is_yellow(ws2, wt2, 0);
                y0 || y1 || y2
            } else {
                false
            };
        if yellow {
            Color::Yellow
        } else {
            Color::White
        }
    }
}


/// Every tile a layout holds, with multiplicity.
pub open spec fn tile_bag(cells: Seq<Seq<char>>) -> Multiset<char>
    decreases cells.len(),
{
    if cells.len() == 0 {
        Multiset::empty()
    } else {
        tile_bag(cells.drop_last()).add(cells.last().to_multiset())
    }
}

/// Swapping one row for another with the same letters keeps the bag.
proof fn lemma_tile_bag_row_swap(cells: Seq<Seq<char>>, r: int, w: Seq<char>)
    requires
        0 <= r < cells.len(),
        w.to_multiset() == cells[r].to_multiset(),
    ensures
        tile_bag(cells.update(r, w)) == tile_bag(cells),
    decreases cells.len(),
{
    if r == cells.len() - 1 {
        assert(cells.update(r, w).drop_last() =~= cells.drop_last());
        assert(cells.update(r, w).last() == w);
    } else {
        lemma_tile_bag_row_swap(cells.drop_last(), r, w);
        assert(cells.update(r, w).drop_last() =~= cells.drop_last().update(r, w));
        assert(cells.update(r, w).last() == cells.last());
    }
}

/// Exchanging the letters of two cells keeps the bag of tiles.
proof fn lemma_tile_bag_exchange(
    cells: Seq<Seq<char>>,
    swapped: Seq<Seq<char>>,
    ra: int,
    ca: int,
    rb: int,
    cb: int,
)
    requires
        0 <= ra < cells.len(),
        0 <= rb < cells.len(),
        0 <= ca < cells[ra].len(),
        0 <= cb < cells[rb].len(),
        swapped == (if ra == rb {
            cells.update(ra, cells[ra].update(ca, cells[rb][cb]).update(cb, cells[ra][ca]))
        } else {
            cells.update(ra, cells[ra].update(ca, cells[rb][cb])).update(
                rb,
                cells[rb].update(cb, cells[ra][ca]),
            )
        }),
    ensures
        tile_bag(swapped) == tile_bag(cells),
{
    broadcast use vstd::seq_lib::to_multiset_update;
    broadcast use vstd::seq_lib::group_to_multiset_ensures;

    let va = cells[ra][ca];
    let vb = cells[rb][cb];
    if ra == rb {
        let row = cells[ra];
        let row2 = row.update(ca, vb).update(cb, va);
        assert(row.to_multiset().count(va) > 0) by {
            assert(row.contains(va));
        }
        if ca == cb {
            assert(row2 =~= row.update(ca, va));
            assert(row.update(ca, va) =~= row);
            lemma_tile_bag_row_swap(cells, ra, row2);
        } else {
            assert(row.update(ca, vb)[cb] == row[cb]);
            assert(row2.to_multiset() == row.update(ca, vb).to_multiset().insert(va).remove(vb));
            assert(row.update(ca, vb).to_multiset() == row.to_multiset().insert(vb).remove(va));
            assert(row2.to_multiset() =~= row.to_multiset());
            lemma_tile_bag_row_swap(cells, ra, row2);
        }
    } else {
        let mid = cells.update(ra, cells[ra].update(ca, vb));
        let rowb2 = cells[rb].update(cb, va);
        assert(mid[rb] == cells[rb]);
        lemma_tile_bag_two_rows(cells, mid, rowb2, ra, rb, ca, cb);
    }
}

/// The two-row case of the exchange: letters move between rows, but the
/// two rows' bags together are unchanged.
proof fn lemma_tile_bag_two_rows(
    cells: Seq<Seq<char>>,
    mid: Seq<Seq<char>>,
    rowb2: Seq<char>,
    ra: int,
    rb: int,
    ca: int,
    cb: int,
)
    requires
        0 <= ra < cells.len(),
        0 <= rb < cells.len(),
        ra != rb,
        0 <= ca < cells[ra].len(),
        0 <= cb < cells[rb].len(),
        mid == cells.update(ra, cells[ra].update(ca, cells[rb][cb])),
        rowb2 == cells[rb].update(cb, cells[ra][ca]),
    ensures
        tile_bag(mid.update(rb, rowb2)) == tile_bag(cells),
{
    broadcast use vstd::seq_lib::to_multiset_update;
    broadcast use vstd::seq_lib::group_to_multiset_ensures;
    broadcast use vstd::multiset::group_multiset_axioms;

    let va = cells[ra][ca];
    let vb = cells[rb][cb];
    lemma_tile_bag_delta(cells, ra, cells[ra].update(ca, vb));
    lemma_tile_bag_delta(mid, rb, rowb2);
    assert(mid[rb] == cells[rb]);
    assert(cells[ra].update(ca, vb).to_multiset() == cells[ra].to_multiset().insert(vb).remove(va));
    assert(rowb2.to_multiset() == cells[rb].to_multiset().insert(va).remove(vb));
    assert(cells[ra].to_multiset().count(va) > 0) by {
        assert(cells[ra].contains(va));
    }
    assert(cells[rb].to_multiset().count(vb) > 0) by {
        assert(cells[rb].contains(vb));
    }
    assert forall|x: char| #[trigger] tile_bag(mid.update(rb, rowb2)).count(x) == tile_bag(
        cells,
    ).count(x) by {
        assert(tile_bag(mid).count(x) + cells[ra].to_multiset().count(x) == tile_bag(cells).count(
            x,
        ) + cells[ra].update(ca, vb).to_multiset().count(x)) by {
            assert(tile_bag(mid).add(cells[ra].to_multiset()).count(x) == tile_bag(cells).add(
                cells[ra].update(ca, vb).to_multiset(),
            ).count(x));
        }
        assert(tile_bag(mid.update(rb, rowb2)).count(x) + cells[rb].to_multiset().count(x)
            == tile_bag(mid).count(x) + rowb2.to_multiset().count(x)) by {
            assert(tile_bag(mid.update(rb, rowb2)).add(mid[rb].to_multiset()).count(x) == tile_bag(
                mid,
            ).add(rowb2.to_multiset()).count(x));
        }
        assert(cells[ra].update(ca, vb).to_multiset().count(x) == cells[ra].to_multiset().insert(
            vb,
        ).remove(va).count(x));
        assert(rowb2.to_multiset().count(x) == cells[rb].to_multiset().insert(va).remove(
            vb,
        ).count(x));
    }
    assert(tile_bag(mid.update(rb, rowb2)) =~= tile_bag(cells));
}

/// Replacing one row changes the bag by exactly that row's letters.
proof fn lemma_tile_bag_delta(cells: Seq<Seq<char>>, r: int, w: Seq<char>)
    requires
        0 <= r < cells.len(),
    ensures
        tile_bag(cells.update(r, w)).add(cells[r].to_multiset()) == tile_bag(cells).add(
            w.to_multiset(),
        ),
    decreases cells.len(),
{
    broadcast use vstd::multiset::group_multiset_axioms;

    let lhs = tile_bag(cells.update(r, w)).add(cells[r].to_multiset());
    let rhs = tile_bag(cells).add(w.to_multiset());
    if r == cells.len() - 1 {
        assert(cells.update(r, w).drop_last() =~= cells.drop_last());
        assert(cells.update(r, w).last() == w);
        assert(cells.last() == cells[r]);
        assert forall|x: char| #[trigger] lhs.count(x) == rhs.count(x) by {
            assert(tile_bag(cells.update(r, w)).count(x) == tile_bag(cells.drop_last()).count(x)
                + w.to_multiset().count(x));
            assert(tile_bag(cells).count(x) == tile_bag(cells.drop_last()).count(x)
                + cells[r].to_multiset().count(x));
        }
        assert(lhs =~= rhs);
    } else {
        lemma_tile_bag_delta(cells.drop_last(), r, w);
        assert(cells.update(r, w).drop_last() =~= cells.drop_last().update(r, w));
        assert(cells.update(r, w).last() == cells.last());
        assert(cells.drop_last()[r] == cells[r]);
        assert forall|x: char| #[trigger] lhs.count(x) == rhs.count(x) by {
            assert(tile_bag(cells.drop_last().update(r, w)).count(x)
                + cells[r].to_multiset().count(x) == tile_bag(cells.drop_last()).count(x)
                + w.to_multiset().count(x)) by {
                assert(tile_bag(cells.drop_last().update(r, w)).add(
                    cells.drop_last()[r].to_multiset(),
                ).count(x) == tile_bag(cells.drop_last()).add(w.to_multiset()).count(x));
            }
            assert(tile_bag(cells.update(r, w)).count(x) == tile_bag(
                cells.drop_last().update(r, w),
            ).count(x) + cells.last().to_multiset().count(x));
            assert(tile_bag(cells).count(x) == tile_bag(cells.drop_last()).count(x)
                + cells.last().to_multiset().count(x));
        }
        assert(lhs =~= rhs);
    }
}

} // verus!
