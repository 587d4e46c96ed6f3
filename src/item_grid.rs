//! Grids that grow by appending rows and columns.

use vstd::prelude::*;
use crate::grid::Grid;
use crate::model::{empty_model, lemma_rows_appended, with_rows, GridModel};
use crate::text::{chars_of, convert_chars, lemma_done_prefix, lemma_last_line, lemma_line_prefix, lines_of, rows_made, split_lines, strip_cr};

verus! {

/// A grid whose size is set by the columns and rows appended to it.
pub struct ItemGrid<T> {
    items: Vec<Vec<T>>,
    width: usize,
    height: usize,
}

impl<T> ItemGrid<T> {
    /// Creates an empty grid, of width and height zero.
    pub fn new() -> (r: ItemGrid<T>)
        ensures
            r.model() == empty_model::<T>(),
    {
        let r = ItemGrid { items: Vec::new(), width: 0, height: 0 };
        assert(r.model().cols =~= seq![]);
        r
    }

    /// Builds a grid from a text: each line becomes a row, each character the
    /// cell that `convert` makes of it. All lines must be of equal length.
    pub fn from_text<F: Fn(char) -> T>(text: &str, convert: F) -> (r: ItemGrid<T>)
        requires
            forall|c: char| call_requires(convert, (c,)),
            forall|i: int, j: int|
                0 <= i < lines_of(text@).len() && 0 <= j < lines_of(text@).len() ==> (#[trigger] lines_of(text@)[i]).len()
                    == (#[trigger] lines_of(text@)[j]).len(),
        ensures
            r.model().wf(),
            r.model().height == lines_of(text@).len(),
            r.model().width == if lines_of(text@).len() == 0 { 0 } else { lines_of(text@)[0].len() },
            forall|x: int, y: int|
                r.model().in_bounds(x, y) ==> call_ensures(convert, (lines_of(text@)[y][x],), #[trigger] r.model().cell(x, y)),
    {
        let chars = chars_of(text);
        let ghost all = chars@;
        let ghost lines = lines_of(all);
        let ghost k: nat = if lines.len() == 0 { 0 } else { lines[0].len() };
        let mut grid: ItemGrid<T> = ItemGrid::new();
        let mut cur: Vec<char> = Vec::new();
        let ghost mut rows: Seq<Seq<T>> = seq![];
        let mut i: usize = 0;
        proof {
            assert(all.take(0) =~= Seq::<char>::empty());
        }
        while i < chars.len()
            invariant
                all == chars@,
                all == text@,
                lines == lines_of(all),
                k == if lines.len() == 0 { 0 } else { lines[0].len() },
                i <= chars@.len(),
                forall|c: char| call_requires(convert, (c,)),
                forall|a: int, b: int|
                    0 <= a < lines.len() && 0 <= b < lines.len() ==> (#[trigger] lines[a]).len() == (#[trigger] lines[b]).len(),
                split_lines(all.take(i as int)).0.len() + split_lines(all.take(i as int)).1.len() <= i,
                cur@ == split_lines(all.take(i as int)).1,
                rows_made(rows, split_lines(all.take(i as int)).0, convert),
                forall|y: int| 0 <= y < rows.len() ==> (#[trigger] rows[y]).len() == k,
                grid.model() == with_rows(empty_model::<T>(), rows),
                rows.len() == 0 ==> grid.model() == empty_model::<T>(),
                rows.len() > 0 ==> grid.model().wf() && grid.model().width == k && grid.model().height == rows.len(),
            decreases chars@.len() - i,
        {
            let c = chars[i];
            assert(all.take(i + 1).drop_last() =~= all.take(i as int));
            if c == '\n' {
                let ghost done = split_lines(all.take(i as int)).0;
                proof {
                    lemma_line_prefix(all, i as int);
                    lemma_done_prefix(all, i as int, all.len() as int);
                    assert(all.take(all.len() as int) =~= all);
                }
                let mut line = cur;
                if line.len() > 0 && line[line.len() - 1] == '\r' {
                    line.pop();
                }
                assert(line@ =~= strip_cr(split_lines(all.take(i as int)).1));
                assert(line@ == lines[done.len() as int]);
                let row = convert_chars(&line, &convert);
                let ghost before_rows = rows;
                proof {
                    rows = rows.push(row@);
                    assert(rows.drop_last() =~= before_rows);
                    assert(split_lines(all.take(i + 1)).0 == done.push(line@));
                    assert forall|y: int| 0 <= y < rows.len() implies (#[trigger] rows[y]).len() == k by {
                        if y < before_rows.len() {
                            assert(rows[y] == before_rows[y]);
                        }
                    }
                    assert forall|y: int| 0 <= y < rows.len() implies {
                        &&& (#[trigger] rows[y]).len() == done.push(line@)[y].len()
                        &&& forall|x: int| 0 <= x < rows[y].len() ==> call_ensures(convert, (done.push(line@)[y][x],), #[trigger] rows[y][x])
                    } by {
                        if y < before_rows.len() {
                            assert(rows[y] == before_rows[y]);
                            assert(done.push(line@)[y] == done[y]);
                        }
                    }
                    lemma_rows_appended(rows, k);
                }
                grid.add_row(row);
                cur = Vec::new();
            } else {
                cur.push(c);
            }
            i = i + 1;
        }
        assert(all.take(all.len() as int) =~= all);
        if cur.len() > 0 {
            proof {
                lemma_last_line(all);
            }
            let ghost done = split_lines(all).0;
            assert(lines == done.push(cur@));
            assert(lines[done.len() as int] == cur@);
            assert(lines[done.len() as int].len() == lines[0].len());
            let row = convert_chars(&cur, &convert);
            let ghost before_rows = rows;
            proof {
                rows = rows.push(row@);
                assert(rows.drop_last() =~= before_rows);
                assert forall|y: int| 0 <= y < rows.len() implies (#[trigger] rows[y]).len() == k by {
                    if y < before_rows.len() {
                        assert(rows[y] == before_rows[y]);
                    }
                }
                assert forall|y: int| 0 <= y < rows.len() implies {
                    &&& (#[trigger] rows[y]).len() == lines[y].len()
                    &&& forall|x: int| 0 <= x < rows[y].len() ==> call_ensures(convert, (lines[y][x],), #[trigger] rows[y][x])
                } by {
                    if y < before_rows.len() {
                        assert(rows[y] == before_rows[y]);
                        assert(lines[y] == done[y]);
                    }
                }
                lemma_rows_appended(rows, k);
            }
            grid.add_row(row);
        } else {
            assert(lines == split_lines(all).0);
        }
        proof {
            if rows.len() > 0 {
                lemma_rows_appended(rows, k);
            }
        }
        grid.shrink_to_fit();
        grid
    }

    /// Appends a column right of the last one. If the grid has no columns, the
    /// column sets the height; otherwise its length must equal the height.
    pub fn add_col(&mut self, col: Vec<T>)
        requires
            old(self).model().wf(),
            old(self).model().width == 0 || col@.len() == old(self).model().height,
            old(self).model().width < usize::MAX,
        ensures
            final(self).model() =~~= old(self).model().with_col(col@),
            final(self).model().wf(),
    {
        if self.width == 0 {
            self.height = col.len();
            self.items = Vec::new();
        }
        self.width = self.width + 1;
        self.items.push(col);
    }

    /// Appends a row below the last one. If the grid has no rows, the row sets
    /// the width; otherwise its length must equal the width.
    pub fn add_row(&mut self, row: Vec<T>)
        requires
            old(self).model().wf(),
            old(self).model().height == 0 || row@.len() == old(self).model().width,
            old(self).model().height < usize::MAX,
        ensures
            final(self).model() =~~= old(self).model().with_row(row@),
            final(self).model().wf(),
    {
        let ghost before = self.model();
        let ghost whole = row@;
        let mut row = row;
        if self.height == 0 {
            self.width = row.len();
            let mut items: Vec<Vec<T>> = Vec::new();
            let mut i: usize = 0;
            while i < row.len()
                invariant
                    i <= row@.len(),
                    items@.len() == i,
                    forall|k: int| 0 <= k < i ==> (#[trigger] items@[k])@.len() == 0,
                decreases row@.len() - i,
            {
                items.push(Vec::new());
                i = i + 1;
            }
            self.items = items;
        }
        assert(forall|k: int| 0 <= k < self.items@.len() ==> (#[trigger] self.items@[k])@ == (if before.height == 0 {
            Seq::<T>::empty()
        } else {
            before.cols[k]
        }));
        let mut i: usize = row.len();
        while i > 0
            invariant
                i <= whole.len(),
                row@ == whole.take(i as int),
                self.height == before.height,
                before.wf(),
                before.height == 0 || whole.len() == before.width,
                self.width == whole.len(),
                self.items@.len() == whole.len(),
                forall|k: int| 0 <= k < i ==> (#[trigger] self.items@[k])@ == (if before.height == 0 {
                    Seq::<T>::empty()
                } else {
                    before.cols[k]
                }),
                forall|k: int| i <= k < whole.len() ==> (#[trigger] self.items@[k])@ == (if before.height == 0 {
                    seq![whole[k]]
                } else {
                    before.cols[k].push(whole[k])
                }),
            decreases i,
        {
            i = i - 1;
            assert(row@.len() > 0);
            let v = row.pop().unwrap();
            assert(v == whole[i as int]);
            assert(row@ =~= whole.take(i as int));
            let col = &mut self.items[i];
            col.push(v);
        }
        self.height = self.height + 1;
        assert(self.model().cols =~~= before.with_row(whole).cols);
    }

    /// Releases the spare capacity of each column and of the list of columns.
    pub fn shrink_to_fit(&mut self)
        requires
            old(self).model().wf(),
        ensures
            final(self).model() == old(self).model(),
    {
        let mut i: usize = 0;
        while i < self.items.len()
            invariant
                self.model() == old(self).model(),
            decreases self.items@.len() - i,
        {
            let col = &mut self.items[i];
            release_capacity(col);
            i = i + 1;
        }
        release_capacity(&mut self.items);
    }
}

/// Relies on `Vec::shrink_to_fit`: it lowers the capacity and keeps the elements.
#[verifier::external_body]
fn release_capacity<U>(v: &mut Vec<U>)
    ensures
        final(v)@ == old(v)@,
{
    v.shrink_to_fit()
}

impl<T> Grid<T> for ItemGrid<T> {
    closed spec fn model(&self) -> GridModel<T> {
        GridModel {
            width: self.width as nat,
            height: self.height as nat,
            cols: self.items@.map_values(|c: Vec<T>| c@),
        }
    }

    fn get_checked(&self, x: usize, y: usize) -> (r: Option<&T>) {
        if x < self.width && y < self.height {
            assert(self.items@[x as int]@ == self.model().cols[x as int]);
            Some(&self.items[x][y])
        } else {
            None
        }
    }

    fn get_mut_checked(&mut self, x: usize, y: usize) -> (r: Option<&mut T>) {
        if x < self.width && y < self.height {
            assert(self.items@[x as int]@ == self.model().cols[x as int]);
            let col = &mut self.items[x];
            Some(&mut col[y])
        } else {
            None
        }
    }

    fn set_checked(&mut self, x: usize, y: usize, value: T) -> (r: Option<T>) {
        if x >= self.width || y >= self.height {
            return None;
        }
        assert(self.items@[x as int]@ == self.model().cols[x as int]);
        let col = &mut self.items[x];
        let mut previous = value;
        std::mem::swap(&mut col[y], &mut previous);
        Some(previous)
    }

    fn width(&self) -> (r: usize) {
        self.width
    }

    fn height(&self) -> (r: usize) {
        self.height
    }
}

} // verus!
