//! Neighborhood shapes, and the records that a neighborhood query returns.

use vstd::prelude::*;

verus! {

/// The absolute coordinate that `offset` resolves to from `(x, y)`, where it is
/// a coordinate of a grid of the given size.
pub open spec fn resolve(width: nat, height: nat, x: int, y: int, offset: (isize, isize)) -> Option<(int, int)> {
    let nx = x + offset.0;
    let ny = y + offset.1;
    if 0 <= nx < width && 0 <= ny < height {
        Some((nx, ny))
    } else {
        None
    }
}

/// The records of a neighborhood query around `(x, y)`: one for each offset that
/// resolves inside the grid, in the order of `offsets`.
pub open spec fn neighborhood(width: nat, height: nat, x: int, y: int, offsets: Seq<(isize, isize)>) -> Seq<NeighborhoodMember>
    decreases offsets.len(),
{
    if offsets.len() == 0 {
        seq![]
    } else {
        let rest = neighborhood(width, height, x, y, offsets.drop_last());
        let o = offsets.last();
        match resolve(width, height, x, y, o) {
            Some(p) => rest.push(
                NeighborhoodMember { rel_x: o.0, rel_y: o.1, abs_x: p.0 as usize, abs_y: p.1 as usize },
            ),
            None => rest,
        }
    }
}

/// The eight offsets around a cell, the cell itself excluded, row by row from
/// the top left.
pub open spec fn moore_offsets() -> Seq<(isize, isize)> {
    seq![
        (-1isize, -1isize), (0isize, -1isize), (1isize, -1isize), (-1isize, 0isize),
        (1isize, 0isize), (-1isize, 1isize), (0isize, 1isize), (1isize, 1isize),
    ]
}

/// The four offsets that share an edge with a cell: up, left, right, down.
pub open spec fn von_neumann_offsets() -> Seq<(isize, isize)> {
    seq![(0isize, -1isize), (-1isize, 0isize), (1isize, 0isize), (0isize, 1isize)]
}

/// The Moore neighborhood: all eight cells around a cell.
pub fn moore_neighborhood() -> (r: [(isize, isize); 8])
    ensures
        r@ == moore_offsets(),
{
    let r = [(-1, -1), (0, -1), (1, -1), (-1, 0), (1, 0), (-1, 1), (0, 1), (1, 1)];
    assert(r@ =~= moore_offsets());
    r
}

/// The Von Neumann neighborhood: the four cells that share an edge with a cell.
pub fn von_neumann_neighborhood() -> (r: [(isize, isize); 4])
    ensures
        r@ == von_neumann_offsets(),
{
    let r = [(0, -1), (-1, 0), (1, 0), (0, 1)];
    assert(r@ =~= von_neumann_offsets());
    r
}

/// One cell found by a neighborhood query: its offset from the center, and its
/// absolute coordinate.
#[derive(Debug, Clone, Copy, PartialEq, Eq, Structural)]
pub struct NeighborhoodMember {
    pub rel_x: isize,
    pub rel_y: isize,
    pub abs_x: usize,
    pub abs_y: usize,
}

} // verus!
