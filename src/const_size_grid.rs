//! Grids whose width and height are fixed by their type.

use vstd::prelude::*;
use crate::grid::Grid;
use crate::model::GridModel;

verus! {

/// A grid of `W` columns and `H` rows, both fixed by its type.
pub struct ConstSizeGrid<const W: usize, const H: usize, T> {
    items: Vec<Vec<T>>,
}

impl<const W: usize, const H: usize, T> ConstSizeGrid<W, H, T> {
    /// Creates a grid whose value at `(x, y)` is what `populator(x, y)` returns,
    /// calling it once for each coordinate, column by column.
    pub fn populated_with<F: Fn(usize, usize) -> T>(populator: F) -> (r: ConstSizeGrid<W, H, T>)
        requires
            forall|x: usize, y: usize| x < W && y < H ==> call_requires(populator, (x, y)),
        ensures
            r.model().wf(),
            r.model().width == W,
            r.model().height == H,
            forall|x: int, y: int|
                0 <= x < W && 0 <= y < H ==> call_ensures(
                    populator,
                    (x as usize, y as usize),
                    #[trigger] r.model().cell(x, y),
                ),
    {
        let mut items: Vec<Vec<T>> = Vec::new();
        let mut x: usize = 0;
        while x < W
            invariant
                x <= W,
                items@.len() == x,
                forall|x: usize, y: usize| x < W && y < H ==> call_requires(populator, (x, y)),
                forall|i: int| 0 <= i < x ==> (#[trigger] items@[i])@.len() == H,
                forall|i: int, j: int|
                    0 <= i < x && 0 <= j < H ==> call_ensures(
                        populator,
                        (i as usize, j as usize),
                        #[trigger] items@[i]@[j],
                    ),
            decreases W - x,
        {
            let mut column: Vec<T> = Vec::new();
            let mut y: usize = 0;
            while y < H
                invariant
                    x < W,
                    y <= H,
                    column@.len() == y,
                    forall|x: usize, y: usize| x < W && y < H ==> call_requires(populator, (x, y)),
                    forall|j: int|
                        0 <= j < y ==> call_ensures(
                            populator,
                            (x, j as usize),
                            #[trigger] column@[j],
                        ),
                decreases H - y,
            {
                column.push(populator(x, y));
                y = y + 1;
            }
            items.push(column);
            x = x + 1;
        }
        ConstSizeGrid { items }
    }
}

/// The entry `a[i][j]` of a nested array.
pub open spec fn entry<T, const A: usize, const B: usize>(a: [[T; B]; A], i: usize, j: usize) -> T {
    a[i as int][j as int]
}

impl<const W: usize, const H: usize, T: Copy> ConstSizeGrid<W, H, T> {
    /// Creates a grid from its columns: `items[x][y]` is the value at `(x, y)`.
    pub fn new_with_cols(items: [[T; H]; W]) -> (r: ConstSizeGrid<W, H, T>)
        ensures
            r.model().wf(),
            r.model().width == W,
            r.model().height == H,
            forall|x: int, y: int|
                0 <= x < W && 0 <= y < H ==> #[trigger] r.model().cell(x, y) == items[x][y],
    {
        let ghost source = items;
        ConstSizeGrid::populated_with(
            |x: usize, y: usize| -> (v: T) requires W > x && H > y ensures v == entry(source, x, y) {
                let col = items[x];
                col[y]
            },
        )
    }

    /// Creates a grid from its rows: `items[y][x]` is the value at `(x, y)`.
    pub fn new_with_rows(items: [[T; W]; H]) -> (r: ConstSizeGrid<W, H, T>)
        ensures
            r.model().wf(),
            r.model().width == W,
            r.model().height == H,
            forall|x: int, y: int|
                0 <= x < W && 0 <= y < H ==> #[trigger] r.model().cell(x, y) == items[y][x],
    {
        let ghost source = items;
        ConstSizeGrid::populated_with(
            |x: usize, y: usize| -> (v: T) requires W > x && H > y ensures v == entry(source, y, x) {
                let row = items[y];
                row[x]
            },
        )
    }

    /// Creates a grid with `default` in every cell.
    pub fn filled_with(default: T) -> (r: ConstSizeGrid<W, H, T>)
        ensures
            r.model().wf(),
            r.model().width == W,
            r.model().height == H,
            forall|x: int, y: int| 0 <= x < W && 0 <= y < H ==> #[trigger] r.model().cell(x, y) == default,
    {
        ConstSizeGrid::populated_with(|x: usize, y: usize| -> (v: T) ensures v == default { default })
    }
}

impl<const W: usize, const H: usize, T: Copy + Default> Default for ConstSizeGrid<W, H, T> {
    /// A grid with `T`'s default value in every cell.
    fn default() -> (r: ConstSizeGrid<W, H, T>)
        ensures
            r.model().wf(),
            r.model().width == W,
            r.model().height == H,
            forall|x: int, y: int, z: int, w: int|
                r.model().in_bounds(x, y) && r.model().in_bounds(z, w) ==> #[trigger] r.model().cell(x, y)
                    == #[trigger] r.model().cell(z, w),
    {
        ConstSizeGrid::filled_with(T::default())
    }
}

impl<const W: usize, const H: usize, T> ConstSizeGrid<W, H, T> {
    /// Every grid of this type is `W` columns wide and `H` rows high.
    pub proof fn lemma_size(&self)
        ensures
            self.model().width == W,
            self.model().height == H,
    {
    }
}

impl<const W: usize, const H: usize, T> Grid<T> for ConstSizeGrid<W, H, T> {
    closed spec fn model(&self) -> GridModel<T> {
        GridModel { width: W as nat, height: H as nat, cols: self.items@.map_values(|c: Vec<T>| c@) }
    }

    fn get_checked(&self, x: usize, y: usize) -> (r: Option<&T>) {
        if x < W && y < H {
            assert(self.items@[x as int]@ == self.model().cols[x as int]);
            Some(&self.items[x][y])
        } else {
            None
        }
    }

    fn get_mut_checked(&mut self, x: usize, y: usize) -> (r: Option<&mut T>) {
        if x < W && y < H {
            assert(self.items@[x as int]@ == self.model().cols[x as int]);
            let col = &mut self.items[x];
            Some(&mut col[y])
        } else {
            None
        }
    }

    fn set_checked(&mut self, x: usize, y: usize, value: T) -> (r: Option<T>) {
        if x >= W || y >= H {
            return None;
        }
        assert(self.items@[x as int]@ == self.model().cols[x as int]);
        let col = &mut self.items[x];
        let mut previous = value;
        std::mem::swap(&mut col[y], &mut previous);
        Some(previous)
    }

    fn width(&self) -> (r: usize) {
        W
    }

    fn height(&self) -> (r: usize) {
        H
    }
}

} // verus!
