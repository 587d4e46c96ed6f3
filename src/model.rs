//! What a grid holds, as a mathematical value, and how appending rows and
//! columns changes it.

use vstd::prelude::*;

verus! {

/// What a grid holds: its size, and its values column by column
/// (`cols[x][y]` is the value at `(x, y)`).
#[verifier::ext_equal]
pub struct GridModel<T> {
    pub width: nat,
    pub height: nat,
    pub cols: Seq<Seq<T>>,
}

impl<T> GridModel<T> {
    /// Every column is present and has one value per row.
    pub open spec fn wf(self) -> bool {
        &&& self.cols.len() == self.width
        &&& forall|i: int| 0 <= i < self.width ==> (#[trigger] self.cols[i]).len() == self.height
    }

    /// Whether `(x, y)` is a coordinate of the grid.
    pub open spec fn in_bounds(self, x: int, y: int) -> bool {
        0 <= x < self.width && 0 <= y < self.height
    }

    /// The value at `(x, y)`.
    pub open spec fn cell(self, x: int, y: int) -> T {
        self.cols[x][y]
    }

    /// The same grid with the value at `(x, y)` replaced by `v`.
    pub open spec fn set(self, x: int, y: int, v: T) -> GridModel<T> {
        GridModel { cols: self.cols.update(x, self.cols[x].update(y, v)), ..self }
    }

    /// The grid after appending `row` below the last row. A grid without rows
    /// takes its width from `row`.
    pub open spec fn with_row(self, row: Seq<T>) -> GridModel<T> {
        let w = if self.height == 0 { row.len() } else { self.width };
        GridModel {
            width: w,
            height: self.height + 1,
            cols: Seq::new(
                w,
                |x: int| if self.height == 0 { seq![row[x]] } else { self.cols[x].push(row[x]) },
            ),
        }
    }

    /// The grid after appending `col` right of the last column. A grid without
    /// columns takes its height from `col`.
    pub open spec fn with_col(self, col: Seq<T>) -> GridModel<T> {
        GridModel {
            width: if self.width == 0 { 1 } else { self.width + 1 },
            height: if self.width == 0 { col.len() } else { self.height },
            cols: if self.width == 0 { seq![col] } else { self.cols.push(col) },
        }
    }
}

/// The grid of width and height zero.
pub open spec fn empty_model<T>() -> GridModel<T> {
    GridModel { width: 0, height: 0, cols: seq![] }
}

/// The grid after appending each of `rows` in turn, starting from `m`.
pub open spec fn with_rows<T>(m: GridModel<T>, rows: Seq<Seq<T>>) -> GridModel<T>
    decreases rows.len(),
{
    if rows.len() == 0 {
        m
    } else {
        with_rows(m, rows.drop_last()).with_row(rows.last())
    }
}

/// The grid after appending each of `cols` in turn, starting from `m`.
pub open spec fn with_cols<T>(m: GridModel<T>, cols: Seq<Seq<T>>) -> GridModel<T>
    decreases cols.len(),
{
    if cols.len() == 0 {
        m
    } else {
        with_cols(m, cols.drop_last()).with_col(cols.last())
    }
}

/// Appending one or more rows, all of length `k`, to an empty grid yields a grid
/// `k` wide with one row per row appended, holding `rows[y][x]` at `(x, y)`.
pub proof fn lemma_rows_appended<T>(rows: Seq<Seq<T>>, k: nat)
    requires
        rows.len() > 0,
        forall|i: int| 0 <= i < rows.len() ==> (#[trigger] rows[i]).len() == k,
    ensures
        with_rows(empty_model::<T>(), rows).wf(),
        with_rows(empty_model::<T>(), rows).width == k,
        with_rows(empty_model::<T>(), rows).height == rows.len(),
        forall|x: int, y: int|
            0 <= x < k && 0 <= y < rows.len() ==> #[trigger] with_rows(empty_model::<T>(), rows).cell(x, y)
                == rows[y][x],
    decreases rows.len(),
{
    let g = with_rows(empty_model::<T>(), rows);
    let last = rows.last();
    assert(rows[rows.len() - 1] == last);
    if rows.len() == 1 {
        assert(rows.drop_last() =~= Seq::<Seq<T>>::empty());
        assert(with_rows(empty_model::<T>(), rows.drop_last()) == empty_model::<T>());
    } else {
        let before = rows.drop_last();
        assert forall|i: int| 0 <= i < before.len() implies (#[trigger] before[i]).len() == k by {
            assert(before[i] == rows[i]);
        }
        lemma_rows_appended(before, k);
        let m = with_rows(empty_model::<T>(), before);
        assert forall|x: int, y: int| 0 <= x < k && 0 <= y < rows.len() implies #[trigger] g.cell(x, y) == rows[y][x] by {
            assert(g.cols[x] == m.cols[x].push(last[x]));
            if y < before.len() {
                assert(m.cell(x, y) == before[y][x]);
                assert(before[y] == rows[y]);
            }
        }
    }
}

/// Appending one or more columns, all of length `k`, to an empty grid yields a
/// grid `k` high with one column per column appended, holding `cols[x][y]` at `(x, y)`.
pub proof fn lemma_cols_appended<T>(cols: Seq<Seq<T>>, k: nat)
    requires
        cols.len() > 0,
        forall|i: int| 0 <= i < cols.len() ==> (#[trigger] cols[i]).len() == k,
    ensures
        with_cols(empty_model::<T>(), cols).wf(),
        with_cols(empty_model::<T>(), cols).width == cols.len(),
        with_cols(empty_model::<T>(), cols).height == k,
        forall|x: int, y: int|
            0 <= x < cols.len() && 0 <= y < k ==> #[trigger] with_cols(empty_model::<T>(), cols).cell(x, y)
                == cols[x][y],
    decreases cols.len(),
{
    let g = with_cols(empty_model::<T>(), cols);
    let last = cols.last();
    assert(cols[cols.len() - 1] == last);
    if cols.len() == 1 {
        assert(cols.drop_last() =~= Seq::<Seq<T>>::empty());
        assert(with_cols(empty_model::<T>(), cols.drop_last()) == empty_model::<T>());
    } else {
        let before = cols.drop_last();
        assert forall|i: int| 0 <= i < before.len() implies (#[trigger] before[i]).len() == k by {
            assert(before[i] == cols[i]);
        }
        lemma_cols_appended(before, k);
        let m = with_cols(empty_model::<T>(), before);
        assert forall|x: int, y: int| 0 <= x < cols.len() && 0 <= y < k implies #[trigger] g.cell(x, y) == cols[x][y] by {
            assert(m.width == before.len() && m.cols.len() == before.len());
            assert(g.cols == m.cols.push(last));
            if x < before.len() {
                assert(g.cols[x] == m.cols[x]);
                assert(m.cell(x, y) == before[x][y]);
                assert(before[x] == cols[x]);
            } else {
                assert(g.cols[x] == last);
            }
        }
    }
}

/// Replacing one value keeps a grid well formed, changes that value and no other.
pub proof fn lemma_set_cell<T>(m: GridModel<T>, x: int, y: int, v: T)
    requires
        m.wf(),
        m.in_bounds(x, y),
    ensures
        m.set(x, y, v).wf(),
        m.set(x, y, v).width == m.width,
        m.set(x, y, v).height == m.height,
        m.set(x, y, v).cell(x, y) == v,
        forall|i: int, j: int|
            m.in_bounds(i, j) && (i != x || j != y) ==> #[trigger] m.set(x, y, v).cell(i, j)
                == m.cell(i, j),
{
    let n = m.set(x, y, v);
    assert forall|i: int| 0 <= i < n.width implies (#[trigger] n.cols[i]).len() == n.height by {
        if i == x {
        } else {
        }
    }
}

} // verus!
