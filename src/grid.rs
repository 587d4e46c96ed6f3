//! Rectangular grids addressed by `(x, y)`, `x` the column and `y` the row.

use vstd::prelude::*;
use crate::model::GridModel;
use crate::neighborhood::{neighborhood, NeighborhoodMember};
use crate::text::{drawn, joined, push_char};

verus! {

/// Whether `(i, j)` comes before `(x, y)` in a scan column by column, each
/// column from the top.
pub open spec fn scanned_before(i: int, j: int, x: int, y: int) -> bool {
    i < x || (i == x && j < y)
}

/// Stores elements in a rectangular grid.
pub trait Grid<T>: Sized {
    /// What the grid holds.
    spec fn model(&self) -> GridModel<T>;

    /// Gets the element at `(x, y)`, or `None` if it is out of bounds.
    fn get_checked(&self, x: usize, y: usize) -> (r: Option<&T>)
        requires
            self.model().wf(),
        ensures
            r == (if self.model().in_bounds(x as int, y as int) {
                Some(&self.model().cell(x as int, y as int))
            } else {
                None
            }),
    ;

    /// Gets the element at `(x, y)` for writing, or `None` if it is out of bounds.
    fn get_mut_checked(&mut self, x: usize, y: usize) -> (r: Option<&mut T>)
        requires
            old(self).model().wf(),
        ensures
            match r {
                Some(e) => {
                    &&& old(self).model().in_bounds(x as int, y as int)
                    &&& *e == old(self).model().cell(x as int, y as int)
                    &&& final(self).model() =~~= old(self).model().set(x as int, y as int, *final(e))
                },
                None => {
                    &&& !old(self).model().in_bounds(x as int, y as int)
                    &&& final(self).model() == old(self).model()
                },
            },
    ;

    /// Replaces the element at `(x, y)` and returns the one that was there, or
    /// returns `None` and changes nothing if `(x, y)` is out of bounds.
    fn set_checked(&mut self, x: usize, y: usize, value: T) -> (r: Option<T>)
        requires
            old(self).model().wf(),
        ensures
            old(self).model().in_bounds(x as int, y as int) ==> {
                &&& r == Some(old(self).model().cell(x as int, y as int))
                &&& final(self).model() =~~= old(self).model().set(x as int, y as int, value)
            },
            !old(self).model().in_bounds(x as int, y as int) ==> {
                &&& r is None
                &&& final(self).model() == old(self).model()
            },
    ;

    /// The number of columns.
    fn width(&self) -> (r: usize)
        ensures
            r == self.model().width,
    ;

    /// The number of rows.
    fn height(&self) -> (r: usize)
        ensures
            r == self.model().height,
    ;

    /// Returns the first element, in a scan column by column and each column from
    /// the top, for which `predicate` holds, with its coordinate; `None` if there
    /// is none. Stops at the first match.
    fn find<F: Fn(&T, usize, usize) -> bool>(&self, predicate: F) -> (r: Option<(&T, usize, usize)>)
        requires
            self.model().wf(),
            forall|i: usize, j: usize|
                self.model().in_bounds(i as int, j as int) ==> call_requires(
                    predicate,
                    (&#[trigger] self.model().cell(i as int, j as int), i, j),
                ),
        ensures
            match r {
                Some(t) => {
                    &&& self.model().in_bounds(t.1 as int, t.2 as int)
                    &&& *t.0 == self.model().cell(t.1 as int, t.2 as int)
                    &&& call_ensures(predicate, (t.0, t.1, t.2), true)
                    &&& forall|i: usize, j: usize|
                        self.model().in_bounds(i as int, j as int) && scanned_before(i as int, j as int, t.1 as int, t.2 as int)
                            ==> call_ensures(
                            predicate,
                            (&#[trigger] self.model().cell(i as int, j as int), i, j),
                            false,
                        )
                },
                None => forall|i: usize, j: usize|
                    self.model().in_bounds(i as int, j as int) ==> call_ensures(
                        predicate,
                        (&#[trigger] self.model().cell(i as int, j as int), i, j),
                        false,
                    ),
            },
    {
        let w = self.width();
        let h = self.height();
        let mut x: usize = 0;
        while x < w
            invariant
                w == self.model().width,
                h == self.model().height,
                x <= w,
                self.model().wf(),
                forall|i: usize, j: usize|
                    self.model().in_bounds(i as int, j as int) ==> call_requires(
                        predicate,
                        (&#[trigger] self.model().cell(i as int, j as int), i, j),
                    ),
                forall|i: usize, j: usize|
                    self.model().in_bounds(i as int, j as int) && i < x ==> call_ensures(
                        predicate,
                        (&#[trigger] self.model().cell(i as int, j as int), i, j),
                        false,
                    ),
            decreases w - x,
        {
            let mut y: usize = 0;
            while y < h
                invariant
                    w == self.model().width,
                    h == self.model().height,
                    x < w,
                    y <= h,
                    self.model().wf(),
                    forall|i: usize, j: usize|
                        self.model().in_bounds(i as int, j as int) ==> call_requires(
                            predicate,
                            (&#[trigger] self.model().cell(i as int, j as int), i, j),
                        ),
                    forall|i: usize, j: usize|
                        self.model().in_bounds(i as int, j as int) && scanned_before(i as int, j as int, x as int, y as int) ==> call_ensures(
                            predicate,
                            (&#[trigger] self.model().cell(i as int, j as int), i, j),
                            false,
                        ),
                decreases h - y,
            {
                let cell = self.get(x, y);
                assert(self.model().in_bounds(x as int, y as int));
                if predicate(cell, x, y) {
                    return Some((cell, x, y));
                }
                let ghost prev_y = y;
                y = y + 1;
                assert forall|i: usize, j: usize|
                    self.model().in_bounds(i as int, j as int) && scanned_before(i as int, j as int, x as int, y as int)
                        implies call_ensures(
                        predicate,
                        (&#[trigger] self.model().cell(i as int, j as int), i, j),
                        false,
                    ) by {
                    if i != x || j != prev_y {
                        assert(scanned_before(i as int, j as int, x as int, prev_y as int));
                    }
                }
            }
            assert forall|i: usize, j: usize|
                self.model().in_bounds(i as int, j as int) && i <= x implies call_ensures(
                predicate,
                (&#[trigger] self.model().cell(i as int, j as int), i, j),
                false,
            ) by {
                assert(scanned_before(i as int, j as int, x as int, y as int));
            }
            x = x + 1;
        }
        None
    }

    /// Returns the coordinates of every element for which `predicate` holds, in
    /// the order of `find`'s scan.
    fn find_each<F: Fn(&T, usize, usize) -> bool>(&self, predicate: F) -> (r: Vec<(usize, usize)>)
        requires
            self.model().wf(),
            forall|i: usize, j: usize|
                self.model().in_bounds(i as int, j as int) ==> call_requires(
                    predicate,
                    (&#[trigger] self.model().cell(i as int, j as int), i, j),
                ),
        ensures
            forall|a: int|
                0 <= a < r@.len() ==> {
                    &&& self.model().in_bounds((#[trigger] r@[a]).0 as int, r@[a].1 as int)
                    &&& call_ensures(predicate, (&self.model().cell(r@[a].0 as int, r@[a].1 as int), r@[a].0, r@[a].1), true)
                },
            forall|a: int, b: int|
                0 <= a < b < r@.len() ==> scanned_before(
                    (#[trigger] r@[a]).0 as int,
                    r@[a].1 as int,
                    (#[trigger] r@[b]).0 as int,
                    r@[b].1 as int,
                ),
            forall|i: usize, j: usize|
                self.model().in_bounds(i as int, j as int) && !r@.contains((i, j)) ==> call_ensures(
                    predicate,
                    (&#[trigger] self.model().cell(i as int, j as int), i, j),
                    false,
                ),
    {
        let w = self.width();
        let h = self.height();
        let mut found: Vec<(usize, usize)> = Vec::new();
        let mut x: usize = 0;
        while x < w
            invariant
                w == self.model().width,
                h == self.model().height,
                x <= w,
                self.model().wf(),
                forall|i: usize, j: usize|
                    self.model().in_bounds(i as int, j as int) ==> call_requires(
                        predicate,
                        (&#[trigger] self.model().cell(i as int, j as int), i, j),
                    ),
                forall|a: int|
                    0 <= a < found@.len() ==> {
                        &&& self.model().in_bounds((#[trigger] found@[a]).0 as int, found@[a].1 as int)
                        &&& found@[a].0 < x
                        &&& call_ensures(predicate, (&self.model().cell(found@[a].0 as int, found@[a].1 as int), found@[a].0, found@[a].1), true)
                    },
                forall|a: int, b: int|
                    0 <= a < b < found@.len() ==> scanned_before(
                        (#[trigger] found@[a]).0 as int,
                        found@[a].1 as int,
                        (#[trigger] found@[b]).0 as int,
                        found@[b].1 as int,
                    ),
                forall|i: usize, j: usize|
                    self.model().in_bounds(i as int, j as int) && i < x && !found@.contains((i, j)) ==> call_ensures(
                        predicate,
                        (&#[trigger] self.model().cell(i as int, j as int), i, j),
                        false,
                    ),
            decreases w - x,
        {
            let mut y: usize = 0;
            while y < h
                invariant
                    w == self.model().width,
                    h == self.model().height,
                    x < w,
                    y <= h,
                    self.model().wf(),
                    forall|i: usize, j: usize|
                        self.model().in_bounds(i as int, j as int) ==> call_requires(
                            predicate,
                            (&#[trigger] self.model().cell(i as int, j as int), i, j),
                        ),
                    forall|a: int|
                        0 <= a < found@.len() ==> {
                            &&& self.model().in_bounds((#[trigger] found@[a]).0 as int, found@[a].1 as int)
                            &&& scanned_before(found@[a].0 as int, found@[a].1 as int, x as int, y as int)
                            &&& call_ensures(predicate, (&self.model().cell(found@[a].0 as int, found@[a].1 as int), found@[a].0, found@[a].1), true)
                        },
                    forall|a: int, b: int|
                        0 <= a < b < found@.len() ==> scanned_before(
                            (#[trigger] found@[a]).0 as int,
                            found@[a].1 as int,
                            (#[trigger] found@[b]).0 as int,
                            found@[b].1 as int,
                        ),
                    forall|i: usize, j: usize|
                        self.model().in_bounds(i as int, j as int) && scanned_before(i as int, j as int, x as int, y as int)
                            && !found@.contains((i, j)) ==> call_ensures(
                            predicate,
                            (&#[trigger] self.model().cell(i as int, j as int), i, j),
                            false,
                        ),
                decreases h - y,
            {
                let cell = self.get(x, y);
                assert(self.model().in_bounds(x as int, y as int));
                let hit = predicate(cell, x, y);
                let ghost before = found@;
                if hit {
                    found.push((x, y));
                    assert(found@[before.len() as int] == (x, y));
                    assert forall|a: int| 0 <= a < before.len() implies #[trigger] found@[a] == before[a] by {}
                }
                let ghost prev_y = y;
                y = y + 1;
                assert forall|i: usize, j: usize|
                    self.model().in_bounds(i as int, j as int) && scanned_before(i as int, j as int, x as int, y as int)
                        && !found@.contains((i, j)) implies call_ensures(
                        predicate,
                        (&#[trigger] self.model().cell(i as int, j as int), i, j),
                        false,
                    ) by {
                    if i == x && j == prev_y {
                        if hit {
                            assert(found@.contains((x, prev_y)));
                        }
                    } else {
                        assert(scanned_before(i as int, j as int, x as int, prev_y as int));
                        if before.contains((i, j)) {
                            let a = choose|a: int| 0 <= a < before.len() && before[a] == (i, j);
                            assert(found@[a] == (i, j));
                        }
                    }
                }
            }
            assert forall|i: usize, j: usize|
                self.model().in_bounds(i as int, j as int) && i <= x && !found@.contains((i, j)) implies call_ensures(
                predicate,
                (&#[trigger] self.model().cell(i as int, j as int), i, j),
                false,
            ) by {
                assert(scanned_before(i as int, j as int, x as int, y as int));
            }
            x = x + 1;
        }
        found
    }

    /// Returns the neighborhood of `(x, y)`: for each offset of `structure`, in
    /// order, a record of the cell it reaches, skipping offsets that leave the grid.
    fn get_neighborhood(&self, x: usize, y: usize, structure: &[(isize, isize)]) -> (r: Vec<NeighborhoodMember>)
        requires
            self.model().wf(),
        ensures
            r@ == neighborhood(self.model().width, self.model().height, x as int, y as int, structure@),
    {
        let w = self.width();
        let h = self.height();
        let mut results: Vec<NeighborhoodMember> = Vec::with_capacity(structure.len());
        let mut i: usize = 0;
        while i < structure.len()
            invariant
                w == self.model().width,
                h == self.model().height,
                i <= structure@.len(),
                results@ == neighborhood(w as nat, h as nat, x as int, y as int, structure@.take(i as int)),
            decreases structure@.len() - i,
        {
            let (ox, oy) = structure[i];
            let nx: i128 = x as i128 + ox as i128;
            let ny: i128 = y as i128 + oy as i128;
            assert(structure@.take(i + 1).drop_last() =~= structure@.take(i as int));
            if 0 <= nx && nx < w as i128 && 0 <= ny && ny < h as i128 {
                results.push(NeighborhoodMember { rel_x: ox, rel_y: oy, abs_x: nx as usize, abs_y: ny as usize });
            }
            i = i + 1;
        }
        assert(structure@.take(structure@.len() as int) =~= structure@);
        results
    }

    /// Draws the grid as text: one line per row, top row first, each row from the
    /// left, each cell the character that `glyph` gives for it.
    fn render<F: Fn(&T) -> char>(&self, glyph: F) -> (r: String)
        requires
            self.model().wf(),
            forall|v: &T| call_requires(glyph, (v,)),
        ensures
            exists|rows: Seq<Seq<char>>| drawn(self.model(), glyph, rows) && r@ == joined(rows),
    {
        let w = self.width();
        let h = self.height();
        let mut out = String::new();
        let ghost mut rows: Seq<Seq<char>> = seq![];
        let mut y: usize = 0;
        while y < h
            invariant
                w == self.model().width,
                h == self.model().height,
                y <= h,
                self.model().wf(),
                forall|v: &T| call_requires(glyph, (v,)),
                rows.len() == y,
                forall|j: int| 0 <= j < y ==> (#[trigger] rows[j]).len() == w,
                forall|i: int, j: int|
                    0 <= i < w && 0 <= j < y ==> call_ensures(glyph, (&self.model().cell(i, j),), #[trigger] rows[j][i]),
                out@ == joined(rows),
            decreases h - y,
        {
            let ghost line: Seq<char> = seq![];
            let ghost start = out@;
            let mut x: usize = 0;
            while x < w
                invariant
                    w == self.model().width,
                    h == self.model().height,
                    y < h,
                    x <= w,
                    self.model().wf(),
                    forall|v: &T| call_requires(glyph, (v,)),
                    line.len() == x,
                    forall|i: int| 0 <= i < x ==> call_ensures(glyph, (&self.model().cell(i, y as int),), #[trigger] line[i]),
                    out@ == start + line,
                decreases w - x,
            {
                let c = glyph(self.get(x, y));
                push_char(&mut out, c);
                proof {
                    let ghost old_line = line;
                    line = line.push(c);
                    assert forall|i: int| 0 <= i < x + 1 implies call_ensures(glyph, (&self.model().cell(i, y as int),), #[trigger] line[i]) by {
                        if i < x {
                            assert(line[i] == old_line[i]);
                        }
                    }
                }
                x = x + 1;
            }
            push_char(&mut out, '\n');
            let ghost old_rows = rows;
            proof {
                rows = rows.push(line);
                assert(rows.drop_last() =~= old_rows);
                assert forall|i: int, j: int|
                    0 <= i < w && 0 <= j < y + 1 implies call_ensures(glyph, (&self.model().cell(i, j),), #[trigger] rows[j][i]) by {
                    if j < y {
                        assert(rows[j] == old_rows[j]);
                    }
                }
                assert forall|j: int| 0 <= j < y + 1 implies (#[trigger] rows[j]).len() == w by {
                    if j < y {
                        assert(rows[j] == old_rows[j]);
                    }
                }
            }
            y = y + 1;
        }
        assert(drawn(self.model(), glyph, rows));
        out
    }

    /// Gets the element at `(x, y)`, which must be in bounds.
    fn get(&self, x: usize, y: usize) -> (r: &T)
        requires
            self.model().wf(),
            self.model().in_bounds(x as int, y as int),
        ensures
            *r == self.model().cell(x as int, y as int),
    {
        match self.get_checked(x, y) {
            Some(v) => v,
            None => vstd::pervasive::unreached(),
        }
    }

    /// Gets the element at `(x, y)`, which must be in bounds, for writing.
    fn get_mut(&mut self, x: usize, y: usize) -> (r: &mut T)
        requires
            old(self).model().wf(),
            old(self).model().in_bounds(x as int, y as int),
        ensures
            *r == old(self).model().cell(x as int, y as int),
            final(self).model() =~~= old(self).model().set(x as int, y as int, *final(r)),
    {
        match self.get_mut_checked(x, y) {
            Some(v) => v,
            None => vstd::pervasive::unreached(),
        }
    }

    /// Replaces the element at `(x, y)`, which must be in bounds, and returns the
    /// one that was there.
    fn set(&mut self, x: usize, y: usize, value: T) -> (r: T)
        requires
            old(self).model().wf(),
            old(self).model().in_bounds(x as int, y as int),
        ensures
            r == old(self).model().cell(x as int, y as int),
            final(self).model() =~~= old(self).model().set(x as int, y as int, value),
    {
        match self.set_checked(x, y, value) {
            Some(v) => v,
            None => vstd::pervasive::unreached(),
        }
    }
}

} // verus!
