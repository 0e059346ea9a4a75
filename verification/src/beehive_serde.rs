use vstd::prelude::*;

use crate::beehive_swap::BeehiveSwap;
use crate::grid_beehive::GridBeehive;
use crate::text::clone_strings;

verus! {

/// The flat, transport-ready form of a solved board: its rows, top to
/// bottom, each as one string. Reading and writing stored collections of
/// these records is the caller's business.
#[derive(Debug)]
pub struct BeehiveSerde {
    pub layout: Vec<String>,
}

impl BeehiveSerde {
    /// Flattens a board into its list of row strings.
    pub fn from(value: GridBeehive) -> (r: BeehiveSerde)
        requires
            value.wf(),
        ensures
            r.layout@.len() == value.cells().len(),
            forall|i: int|
                0 <= i < value.cells().len() ==> #[trigger] r.layout@[i]@ == value.cells()[i],
    {
        let mut layout: Vec<String> = Vec::new();
        let rows = value.rows();
        let mut i: usize = 0;
        while i < rows
            invariant
                value.wf(),
                rows == value.cells().len(),
                0 <= i <= rows,
                layout@.len() == i,
                forall|j: int| 0 <= j < i ==> #[trigger] layout@[j]@ == value.cells()[j],
            decreases rows - i,
        {
            layout.push(value.get_row(i).unwrap());
            i += 1;
        }
        BeehiveSerde { layout }
    }

    /// How many rows the record holds.
    pub fn rows(&self) -> (r: usize)
        ensures
            r == self.layout@.len(),
    {
        self.layout.len()
    }

    /// How many columns the record implies: the first row's length, or
    /// zero for an empty record.
    pub fn cols(&self) -> (r: usize)
        ensures
            self.layout@.len() == 0 ==> r == 0,
            self.layout@.len() > 0 ==> r == self.layout@[0]@.len(),
    {
        if self.layout.len() == 0 {
            0
        } else {
            self.layout[0].as_str().unicode_len()
        }
    }

    /// One row's text, when it exists.
    pub fn get_row(&self, i: usize) -> (r: Option<String>)
        ensures
            (match r {
                Some(s) => i < self.layout@.len() && s@ == self.layout@[i as int]@,
                None => i >= self.layout@.len(),
            }),
    {
        if i < self.layout.len() {
            Some(self.layout[i].clone())
        } else {
            None
        }
    }

    /// Rebuilds a board from the stored rows. The record must be
    /// non-empty with a non-empty first row, as the board was; rows are
    /// written as far as they fit the first row's width.
    pub fn into_grid(self) -> (r: GridBeehive)
        requires
            self.layout@.len() >= 1,
            self.layout@[0]@.len() >= 1,
            self.layout@.len() * self.layout@[0]@.len() <= usize::MAX,
        ensures
            r.wf(),
            r.cells().len() == self.layout@.len(),
            r.width() == self.layout@[0]@.len(),
            r.resolved() == Seq::<crate::grid_beehive::Line>::empty(),
            forall|i: int, j: int|
                0 <= i < self.layout@.len() && 0 <= j < self.layout@[0]@.len()
                    ==> #[trigger] r.cells()[i][j] == (if j < self.layout@[i]@.len() {
                    self.layout@[i]@[j]
                } else {
                    '\0'
                }),
    {
        let rows = self.layout.len();
        let cols = self.layout[0].as_str().unicode_len();
        let mut beehive = GridBeehive::new(rows, cols);
        let mut i: usize = 0;
        while i < rows
            invariant
                rows == self.layout@.len(),
                cols == self.layout@[0]@.len(),
                beehive.wf(),
                beehive.cells().len() == rows,
                beehive.width() == cols,
                beehive.resolved() == Seq::<crate::grid_beehive::Line>::empty(),
                0 <= i <= rows,
                forall|a: int, b: int|
                    0 <= a < rows && 0 <= b < cols ==> #[trigger] beehive.cells()[a][b] == (if a < i
                        && b < self.layout@[a]@.len() {
                        self.layout@[a]@[b]
                    } else {
                        '\0'
                    }),
            decreases rows - i,
        {
            beehive.set_row(i, self.layout[i].clone());
            i += 1;
        }
        beehive
    }

    /// Rebuilds a board from the stored rows and hands it to the
    /// tile-swap game.
    pub fn into_swap(self) -> (r: BeehiveSwap)
        requires
            self.layout@.len() >= 1,
            self.layout@[0]@.len() >= 1,
            self.layout@.len() * self.layout@[0]@.len() <= usize::MAX,
        ensures
            r.wf(),
            r.solved().len() == self.layout@.len(),
            r.width() == self.layout@[0]@.len(),
            forall|i: int, j: int|
                0 <= i < self.layout@.len() && 0 <= j < self.layout@[0]@.len()
                    ==> #[trigger] r.solved()[i][j] == (if j < self.layout@[i]@.len() {
                    self.layout@[i]@[j]
                } else {
                    '\0'
                }),
    {
        let grid = self.into_grid();
        BeehiveSwap::from(grid)
    }

    /// An owned copy of the record.
    pub fn duplicate(&self) -> (r: BeehiveSerde)
        ensures
            r.layout@.len() == self.layout@.len(),
            forall|i: int|
                0 <= i < self.layout@.len() ==> #[trigger] r.layout@[i]@ == self.layout@[i]@,
    {
        BeehiveSerde { layout: clone_strings(&self.layout) }
    }
}

} // verus!
