//! Step-wise best-first path search over a grid of clear and blocked cells.

use vstd::prelude::*;
use vstd::set_lib::{lemma_int_range, lemma_len_subset, set_int_range};
use crate::direction::{Direction, stepped};
use crate::grid::Grid;
use crate::item_grid::ItemGrid;
use crate::model::GridModel;

verus! {

/// A cell of a search map.
#[derive(Debug, Clone, Copy, PartialEq, Eq, Structural)]
pub enum MapCell {
    Clear,
    Obstacle,
}

/// The distance `|a - b|` between two integers.
pub open spec fn diff(a: int, b: int) -> int {
    if a >= b { a - b } else { b - a }
}

/// The Manhattan distance of two coordinates.
pub open spec fn manhattan(p: (usize, usize), q: (usize, usize)) -> int {
    diff(p.0 as int, q.0 as int) + diff(p.1 as int, q.1 as int)
}

/// `v`, or the largest `usize` where `v` is larger.
pub open spec fn clamp(v: int) -> int {
    if v > usize::MAX { usize::MAX as int } else { v }
}

/// The Manhattan distance `|dx| + |dy|`, the number of moves between two cells
/// on a grid with four neighbors per cell (clamped to the largest `usize`).
pub fn manhattan_distance(p1: (usize, usize), p2: (usize, usize)) -> (r: usize)
    ensures
        r == clamp(manhattan(p1, p2)),
{
    let dx: usize = if p1.0 >= p2.0 { p1.0 - p2.0 } else { p2.0 - p1.0 };
    let dy: usize = if p1.1 >= p2.1 { p1.1 - p2.1 } else { p2.1 - p1.1 };
    dx.saturating_add(dy)
}

/// The squared Euclidean distance of two coordinates.
pub open spec fn squared_distance(p: (usize, usize), q: (usize, usize)) -> int {
    let dx = diff(p.0 as int, q.0 as int);
    let dy = diff(p.1 as int, q.1 as int);
    dx * dx + dy * dy
}

/// The Euclidean distance `sqrt(dx² + dy²)` rounded down, which never exceeds
/// the straight-line distance (clamped to the largest `usize`).
pub fn euclidiean_distance(p1: (usize, usize), p2: (usize, usize)) -> (r: usize)
    ensures
        r * r <= squared_distance(p1, p2),
        r == usize::MAX || squared_distance(p1, p2) < (r + 1) * (r + 1),
{
    let dx: usize = if p1.0 >= p2.0 { p1.0 - p2.0 } else { p2.0 - p1.0 };
    let dy: usize = if p1.1 >= p2.1 { p1.1 - p2.1 } else { p2.1 - p1.1 };
    let ghost d2: int = dx * dx + dy * dy;
    assert(d2 == squared_distance(p1, p2));
    let mut lo: usize = if dx >= dy { dx } else { dy };
    let mut hi: usize = dx.saturating_add(dy);
    assert(lo * lo <= d2 && lo <= hi) by (nonlinear_arith)
        requires
            d2 == dx * dx + dy * dy,
            lo == dx || lo == dy,
            lo >= dx && lo >= dy,
            hi == dx + dy || hi == usize::MAX,
            dx <= usize::MAX && dy <= usize::MAX,
    ;
    assert(hi == usize::MAX || d2 < (hi + 1) * (hi + 1)) by (nonlinear_arith)
        requires
            d2 == dx * dx + dy * dy,
            hi == dx + dy || hi == usize::MAX,
            dx >= 0 && dy >= 0,
    ;
    assert(dx * dx < 0x1_0000_0000_0000_0000_0000_0000_0000_0000 && dy * dy < 0x1_0000_0000_0000_0000_0000_0000_0000_0000)
        by (nonlinear_arith)
        requires
            0 <= dx < 0x1_0000_0000_0000_0000,
            0 <= dy < 0x1_0000_0000_0000_0000,
    ;
    let dx2: u128 = dx as u128 * dx as u128;
    let dy2: u128 = dy as u128 * dy as u128;
    while lo < hi
        invariant
            lo <= hi,
            lo >= dx,
            lo * lo <= d2,
            hi == usize::MAX || d2 < (hi + 1) * (hi + 1),
            d2 == dx * dx + dy * dy,
            dx2 == dx * dx,
            dy2 == dy * dy,
        decreases hi - lo,
    {
        let gap: usize = hi - lo;
        let mid: usize = lo + gap / 2 + gap % 2;
        assert(mid * mid <= usize::MAX * usize::MAX && mid * mid >= dx * dx) by (nonlinear_arith)
            requires
                dx <= mid <= usize::MAX,
        ;
        assert(usize::MAX * usize::MAX < 0x1_0000_0000_0000_0000_0000_0000_0000_0000) by (nonlinear_arith)
            requires
                usize::MAX < 0x1_0000_0000_0000_0000,
        ;
        let sq: u128 = mid as u128 * mid as u128;
        if sq - dx2 <= dy2 {
            lo = mid;
        } else {
            hi = mid - 1;
        }
    }
    lo
}

/// Two coordinates one move apart on a grid with four neighbors per cell.
pub open spec fn adjacent(p: (usize, usize), q: (usize, usize)) -> bool {
    manhattan(p, q) == 1
}

/// A node of the search tree: a coordinate, its cost from the start `g`, its
/// estimate to the goal `h`, its priority `f`, and the node it was reached from.
#[derive(Clone, Copy)]
struct Node {
    x: usize,
    y: usize,
    g: usize,
    h: usize,
    f: usize,
    prev: Option<usize>,
}

spec fn pos(n: Node) -> (usize, usize) {
    (n.x, n.y)
}

/// `path` leads from `from` to `to` over clear cells of `map`, one move at a time.
pub open spec fn is_path(map: GridModel<MapCell>, from: (usize, usize), to: (usize, usize), path: Seq<(usize, usize)>) -> bool {
    &&& path.len() >= 1
    &&& path[0] == from
    &&& path.last() == to
    &&& forall|i: int|
        0 <= i < path.len() ==> map.in_bounds((#[trigger] path[i]).0 as int, path[i].1 as int)
            && map.cell(path[i].0 as int, path[i].1 as int) == MapCell::Clear
    &&& forall|i: int| 0 <= i < path.len() - 1 ==> adjacent(#[trigger] path[i], path[i + 1])
}

/// The coordinates from the root of the search tree to node `i`.
spec fn path_to(nodes: Seq<Node>, i: int) -> Seq<(usize, usize)>
    decreases i,
{
    if 0 <= i < nodes.len() && nodes[i].prev is Some && 0 <= nodes[i].prev->0 < i {
        path_to(nodes, nodes[i].prev->0 as int).push(pos(nodes[i]))
    } else {
        seq![pos(nodes[i])]
    }
}

/// The search tree is rooted at `start`; each other node is one move from the
/// node it came from, on a clear cell, one step further from the start.
#[verifier::opaque]
spec fn tree_ok(nodes: Seq<Node>, map: GridModel<MapCell>, start: (usize, usize)) -> bool {
    &&& nodes.len() >= 1
    &&& pos(nodes[0]) == start
    &&& nodes[0].g == 0
    &&& nodes[0].prev is None
    &&& forall|i: int|
        #![trigger nodes[i]]
        0 <= i < nodes.len() ==> {
            &&& map.in_bounds(nodes[i].x as int, nodes[i].y as int)
            &&& map.cell(nodes[i].x as int, nodes[i].y as int) == MapCell::Clear
            &&& nodes[i].g <= i
            &&& nodes[i].f == clamp(nodes[i].g + nodes[i].h)
        }
    &&& forall|i: int|
        #![trigger nodes[i]]
        0 < i < nodes.len() ==> {
            &&& nodes[i].prev is Some
            &&& 0 <= nodes[i].prev->0 < i
            &&& adjacent(pos(nodes[nodes[i].prev->0 as int]), pos(nodes[i]))
            &&& nodes[i].g == nodes[nodes[i].prev->0 as int].g + 1
        }
}

/// `list` holds nodes in ascending order of `f`, at distinct coordinates.
#[verifier::opaque]
spec fn ordered(nodes: Seq<Node>, list: Seq<usize>) -> bool {
    &&& forall|a: int| 0 <= a < list.len() ==> #[trigger] list[a] < nodes.len()
    &&& forall|a: int, b: int| 0 <= a < b < list.len() ==> nodes[#[trigger] list[a] as int].f <= nodes[#[trigger] list[b] as int].f
    &&& forall|a: int, b: int|
        0 <= a < list.len() && 0 <= b < list.len() && a != b ==> pos(nodes[#[trigger] list[a] as int]) != pos(nodes[#[trigger] list[b] as int])
}

/// No coordinate is in both lists.
#[verifier::opaque]
spec fn apart(nodes: Seq<Node>, l1: Seq<usize>, l2: Seq<usize>) -> bool {
    forall|a: int, b: int|
        0 <= a < l1.len() && 0 <= b < l2.len() ==> pos(nodes[#[trigger] l1[a] as int]) != pos(nodes[#[trigger] l2[b] as int])
}

proof fn lemma_remove_keeps_order(nodes: Seq<Node>, list: Seq<usize>, other: Seq<usize>, k: int)
    requires
        ordered(nodes, list),
        apart(nodes, list, other),
        0 <= k < list.len(),
    ensures
        ordered(nodes, list.remove(k)),
        apart(nodes, list.remove(k), other),
{
    reveal(ordered);
    reveal(apart);
    let r = list.remove(k);
    assert forall|a: int| 0 <= a < r.len() implies #[trigger] r[a] == list[if a < k { a } else { a + 1 }] by {}
    assert forall|a: int, b: int| 0 <= a < b < r.len() implies nodes[#[trigger] r[a] as int].f <= nodes[#[trigger] r[b] as int].f by {
        let a1 = if a < k { a } else { a + 1 };
        let b1 = if b < k { b } else { b + 1 };
        assert(r[a] == list[a1] && r[b] == list[b1]);
    }
    assert forall|a: int, b: int|
        0 <= a < r.len() && 0 <= b < r.len() && a != b implies pos(nodes[#[trigger] r[a] as int]) != pos(nodes[#[trigger] r[b] as int]) by {
        let a1 = if a < k { a } else { a + 1 };
        let b1 = if b < k { b } else { b + 1 };
        assert(r[a] == list[a1] && r[b] == list[b1]);
    }
    assert forall|a: int, b: int|
        0 <= a < r.len() && 0 <= b < other.len() implies pos(nodes[#[trigger] r[a] as int]) != pos(nodes[#[trigger] other[b] as int]) by {
        let a1 = if a < k { a } else { a + 1 };
        assert(r[a] == list[a1]);
    }
}

proof fn lemma_remove_drops_pos(nodes: Seq<Node>, list: Seq<usize>, k: int)
    requires
        ordered(nodes, list),
        0 <= k < list.len(),
    ensures
        forall|a: int| 0 <= a < list.remove(k).len() ==> pos(nodes[#[trigger] list.remove(k)[a] as int]) != pos(nodes[list[k] as int]),
{
    reveal(ordered);
    let r = list.remove(k);
    assert forall|a: int| 0 <= a < r.len() implies pos(nodes[#[trigger] r[a] as int]) != pos(nodes[list[k] as int]) by {
        let a1 = if a < k { a } else { a + 1 };
        assert(r[a] == list[a1]);
    }
}

proof fn lemma_push_keeps_order(nodes: Seq<Node>, list: Seq<usize>, other: Seq<usize>, n: Node)
    requires
        ordered(nodes, list),
        ordered(nodes, other),
        apart(nodes, list, other),
    ensures
        ordered(nodes.push(n), list),
        ordered(nodes.push(n), other),
        apart(nodes.push(n), list, other),
        forall|a: int| 0 <= a < list.len() ==> nodes.push(n)[#[trigger] list[a] as int] == nodes[list[a] as int],
        forall|a: int| 0 <= a < other.len() ==> nodes.push(n)[#[trigger] other[a] as int] == nodes[other[a] as int],
{
    reveal(ordered);
    reveal(apart);
    let m = nodes.push(n);
    assert forall|i: int| 0 <= i < nodes.len() implies #[trigger] m[i] == nodes[i] by {}
    assert forall|a: int, b: int| 0 <= a < b < list.len() implies m[#[trigger] list[a] as int].f <= m[#[trigger] list[b] as int].f by {
        assert(m[list[a] as int] == nodes[list[a] as int]);
        assert(m[list[b] as int] == nodes[list[b] as int]);
    }
    assert forall|a: int, b: int| 0 <= a < b < other.len() implies m[#[trigger] other[a] as int].f <= m[#[trigger] other[b] as int].f by {
        assert(m[other[a] as int] == nodes[other[a] as int]);
        assert(m[other[b] as int] == nodes[other[b] as int]);
    }
    assert forall|a: int, b: int|
        0 <= a < list.len() && 0 <= b < list.len() && a != b implies pos(m[#[trigger] list[a] as int]) != pos(m[#[trigger] list[b] as int]) by {
        assert(m[list[a] as int] == nodes[list[a] as int]);
        assert(m[list[b] as int] == nodes[list[b] as int]);
    }
    assert forall|a: int, b: int|
        0 <= a < other.len() && 0 <= b < other.len() && a != b implies pos(m[#[trigger] other[a] as int]) != pos(m[#[trigger] other[b] as int]) by {
        assert(m[other[a] as int] == nodes[other[a] as int]);
        assert(m[other[b] as int] == nodes[other[b] as int]);
    }
    assert forall|a: int, b: int|
        0 <= a < list.len() && 0 <= b < other.len() implies pos(m[#[trigger] list[a] as int]) != pos(m[#[trigger] other[b] as int]) by {
        assert(m[list[a] as int] == nodes[list[a] as int]);
        assert(m[other[b] as int] == nodes[other[b] as int]);
    }
}

proof fn lemma_push_keeps_tree(nodes: Seq<Node>, map: GridModel<MapCell>, start: (usize, usize), n: Node, parent: usize)
    requires
        tree_ok(nodes, map, start),
        parent < nodes.len(),
        n.prev == Some(parent),
        adjacent(pos(nodes[parent as int]), pos(n)),
        n.g == nodes[parent as int].g + 1,
        n.f == clamp(n.g + n.h),
        map.in_bounds(n.x as int, n.y as int),
        map.cell(n.x as int, n.y as int) == MapCell::Clear,
    ensures
        tree_ok(nodes.push(n), map, start),
{
    reveal(tree_ok);
    let m = nodes.push(n);
    assert forall|i: int| 0 <= i < nodes.len() implies #[trigger] m[i] == nodes[i] by {}
    assert(m[nodes.len() as int] == n);
    assert(nodes[parent as int].g <= parent);
    assert forall|i: int|
        #![trigger m[i]]
        0 <= i < m.len() implies {
            &&& map.in_bounds(m[i].x as int, m[i].y as int)
            &&& map.cell(m[i].x as int, m[i].y as int) == MapCell::Clear
            &&& m[i].g <= i
            &&& m[i].f == clamp(m[i].g + m[i].h)
        } by {
        if i < nodes.len() {
            assert(m[i] == nodes[i]);
        }
    }
    assert forall|i: int|
        #![trigger m[i]]
        0 < i < m.len() implies {
            &&& m[i].prev is Some
            &&& 0 <= m[i].prev->0 < i
            &&& adjacent(pos(m[m[i].prev->0 as int]), pos(m[i]))
            &&& m[i].g == m[m[i].prev->0 as int].g + 1
        } by {
        if i < nodes.len() {
            assert(m[i] == nodes[i]);
            assert(m[nodes[i].prev->0 as int] == nodes[nodes[i].prev->0 as int]);
        } else {
            assert(m[parent as int] == nodes[parent as int]);
        }
    }
}

proof fn lemma_insert_keeps_order(nodes: Seq<Node>, list: Seq<usize>, other: Seq<usize>, q: int, idx: usize)
    requires
        ordered(nodes, list),
        apart(nodes, list, other),
        idx < nodes.len(),
        0 <= q <= list.len(),
        forall|a: int| 0 <= a < q ==> nodes[#[trigger] list[a] as int].f <= nodes[idx as int].f,
        forall|a: int| q <= a < list.len() ==> nodes[#[trigger] list[a] as int].f >= nodes[idx as int].f,
        forall|a: int| 0 <= a < list.len() ==> pos(nodes[#[trigger] list[a] as int]) != pos(nodes[idx as int]),
        forall|b: int| 0 <= b < other.len() ==> pos(nodes[#[trigger] other[b] as int]) != pos(nodes[idx as int]),
    ensures
        ordered(nodes, list.insert(q, idx)),
        apart(nodes, list.insert(q, idx), other),
{
    reveal(ordered);
    reveal(apart);
    let r = list.insert(q, idx);
    assert forall|a: int| 0 <= a < r.len() implies #[trigger] r[a] == (if a < q { list[a] } else if a == q { idx } else { list[a - 1] }) by {}
    assert forall|a: int, b: int| 0 <= a < b < r.len() implies nodes[#[trigger] r[a] as int].f <= nodes[#[trigger] r[b] as int].f by {
        assert(r[a] == (if a < q { list[a] } else if a == q { idx } else { list[a - 1] }));
        assert(r[b] == (if b < q { list[b] } else if b == q { idx } else { list[b - 1] }));
    }
    assert forall|a: int, b: int|
        0 <= a < r.len() && 0 <= b < r.len() && a != b implies pos(nodes[#[trigger] r[a] as int]) != pos(nodes[#[trigger] r[b] as int]) by {
        assert(r[a] == (if a < q { list[a] } else if a == q { idx } else { list[a - 1] }));
        assert(r[b] == (if b < q { list[b] } else if b == q { idx } else { list[b - 1] }));
    }
    assert forall|a: int, b: int|
        0 <= a < r.len() && 0 <= b < other.len() implies pos(nodes[#[trigger] r[a] as int]) != pos(nodes[#[trigger] other[b] as int]) by {
        assert(r[a] == (if a < q { list[a] } else if a == q { idx } else { list[a - 1] }));
    }
}

proof fn lemma_apart_symmetric(nodes: Seq<Node>, l1: Seq<usize>, l2: Seq<usize>)
    requires
        apart(nodes, l1, l2),
    ensures
        apart(nodes, l2, l1),
{
    reveal(apart);
    assert forall|a: int, b: int|
        0 <= a < l2.len() && 0 <= b < l1.len() implies pos(nodes[#[trigger] l2[a] as int]) != pos(nodes[#[trigger] l1[b] as int]) by {
        assert(pos(nodes[l1[b] as int]) != pos(nodes[l2[a] as int]));
    }
}

/// Each node's path starts at the root, ends at the node, moves one cell at a
/// time over clear cells, and has one more coordinate than the node's cost.
proof fn lemma_path_to(nodes: Seq<Node>, map: GridModel<MapCell>, start: (usize, usize), i: int)
    requires
        tree_ok(nodes, map, start),
        0 <= i < nodes.len(),
    ensures
        is_path(map, start, pos(nodes[i]), path_to(nodes, i)),
        path_to(nodes, i).len() == nodes[i].g + 1,
    decreases i,
{
    reveal(tree_ok);
    assert(nodes[i] == nodes[i]);
    if i == 0 {
        assert(path_to(nodes, 0) =~= seq![start]);
    } else {
        let p = nodes[i].prev->0 as int;
        assert(nodes[p] == nodes[p]);
        lemma_path_to(nodes, map, start, p);
        let prefix = path_to(nodes, p);
        let path = path_to(nodes, i);
        assert(path == prefix.push(pos(nodes[i])));
        assert forall|j: int| 0 <= j < path.len() - 1 implies adjacent(#[trigger] path[j], path[j + 1]) by {
            if j < prefix.len() - 1 {
                assert(path[j] == prefix[j] && path[j + 1] == prefix[j + 1]);
            } else {
                assert(path[j] == prefix.last());
            }
        }
        assert forall|j: int|
            0 <= j < path.len() implies map.in_bounds((#[trigger] path[j]).0 as int, path[j].1 as int)
                && map.cell(path[j].0 as int, path[j].1 as int) == MapCell::Clear by {
            if j < prefix.len() {
                assert(path[j] == prefix[j]);
            }
        }
    }
}

/// The place of cell `(x, y)` in a scan of a grid `height` high, column by column.
spec fn scan_code(p: (usize, usize), height: nat) -> int {
    p.0 * height + p.1
}

proof fn lemma_scan_code(p: (usize, usize), q: (usize, usize), width: nat, height: nat)
    requires
        p.0 < width && p.1 < height,
        q.0 < width && q.1 < height,
    ensures
        0 <= scan_code(p, height) < width * height,
        p != q ==> scan_code(p, height) != scan_code(q, height),
{
    let (a, b, c, d) = (p.0 as int, p.1 as int, q.0 as int, q.1 as int);
    let h = height as int;
    assert(0 <= a * h + b < width * h) by (nonlinear_arith)
        requires
            0 <= a < width,
            0 <= b < h,
    ;
    if a < c {
        assert(a * h + b < c * h + d) by (nonlinear_arith)
            requires
                0 <= a < c,
                0 <= b < h,
                0 <= d,
        ;
    } else if c < a {
        assert(c * h + d < a * h + b) by (nonlinear_arith)
            requires
                0 <= c < a,
                0 <= d < h,
                0 <= b,
        ;
    }
}

/// A list of nodes at distinct cells of a grid holds at most as many nodes as the
/// grid has cells.
proof fn lemma_distinct_cells_bounded(nodes: Seq<Node>, list: Seq<usize>, map: GridModel<MapCell>, start: (usize, usize))
    requires
        tree_ok(nodes, map, start),
        ordered(nodes, list),
    ensures
        list.len() <= map.width * map.height,
{
    reveal(tree_ok);
    reveal(ordered);
    let codes = Seq::new(list.len(), |a: int| scan_code(pos(nodes[list[a] as int]), map.height));
    assert forall|a: int| 0 <= a < list.len() implies 0 <= #[trigger] codes[a] < map.width * map.height by {
        let p = pos(nodes[list[a] as int]);
        assert(nodes[list[a] as int] == nodes[list[a] as int]);
        lemma_scan_code(p, p, map.width, map.height);
    }
    assert forall|a: int, b: int| 0 <= a < codes.len() && 0 <= b < codes.len() && a != b implies codes[a] != codes[b] by {
        let p = pos(nodes[list[a] as int]);
        let q = pos(nodes[list[b] as int]);
        assert(nodes[list[a] as int] == nodes[list[a] as int]);
        assert(nodes[list[b] as int] == nodes[list[b] as int]);
        lemma_scan_code(p, q, map.width, map.height);
    }
    assert(codes.no_duplicates());
    codes.unique_seq_to_set();
    lemma_int_range(0, (map.width * map.height) as int);
    assert(codes.to_set().subset_of(set_int_range(0, (map.width * map.height) as int)));
    lemma_len_subset(codes.to_set(), set_int_range(0, (map.width * map.height) as int));
}

/// The coordinates of the nodes that `list` names, in order.
spec fn cells_of(nodes: Seq<Node>, list: Seq<usize>) -> Seq<(usize, usize)> {
    list.map_values(|i: usize| pos(nodes[i as int]))
}

/// The coordinate, cost and priority of each node that `list` names, in order.
spec fn entries_of(nodes: Seq<Node>, list: Seq<usize>) -> Seq<((usize, usize), usize, usize)> {
    list.map_values(|i: usize| (pos(nodes[i as int]), nodes[i as int].g, nodes[i as int].f))
}

/// An entry of the open set made by expanding the node at `from` of cost `g`:
/// a cell one move away, at cost `g + 1`, whose priority adds to that cost an
/// estimate that `heuristic` may give from the cell to `goal`.
pub open spec fn reached_from<H: Fn((usize, usize), (usize, usize)) -> usize>(
    e: ((usize, usize), usize, usize),
    from: (usize, usize),
    g: usize,
    heuristic: H,
    goal: (usize, usize),
) -> bool {
    &&& adjacent(from, e.0)
    &&& e.1 == g + 1
    &&& exists|h: usize| call_ensures(heuristic, (e.0, goal), h) && e.2 == clamp(e.1 + h)
}

/// Entry `e` of the open set is no dearer than what expanding a node of cost `g`
/// would give its cell: its priority is at most `g + 1` plus an estimate that
/// `heuristic` may give from the cell to `goal`.
pub open spec fn no_dearer<H: Fn((usize, usize), (usize, usize)) -> usize>(
    e: ((usize, usize), usize, usize),
    g: usize,
    heuristic: H,
    goal: (usize, usize),
) -> bool {
    exists|h: usize| call_ensures(heuristic, (e.0, goal), h) && e.2 <= clamp(g + 1 + h)
}

/// The priorities of `entries` never decrease.
pub open spec fn ascending(entries: Seq<((usize, usize), usize, usize)>) -> bool {
    forall|a: int, b: int| 0 <= a < b < entries.len() ==> (#[trigger] entries[a]).2 <= (#[trigger] entries[b]).2
}

/// Whether cell `c` may join the open set: a clear cell of `map`, not yet expanded.
pub open spec fn eligible(map: GridModel<MapCell>, expanded: Seq<(usize, usize)>, c: (int, int)) -> bool {
    &&& map.in_bounds(c.0, c.1)
    &&& map.cell(c.0, c.1) == MapCell::Clear
    &&& !expanded.contains((c.0 as usize, c.1 as usize))
}

proof fn lemma_stepped_adjacent(d: Direction, p: (usize, usize), c: (usize, usize))
    requires
        (c.0 as int, c.1 as int) == stepped(d, p.0 as int, p.1 as int),
    ensures
        adjacent(p, c),
{
}

proof fn lemma_adjacent_direction(p: (usize, usize), t: (usize, usize))
    requires
        adjacent(p, t),
    ensures
        exists|d: Direction| #[trigger] stepped(d, p.0 as int, p.1 as int) == (t.0 as int, t.1 as int),
{
    if t.0 == p.0 && t.1 + 1 == p.1 {
        assert(stepped(Direction::Up, p.0 as int, p.1 as int) == (t.0 as int, t.1 as int));
    } else if t.0 == p.0 {
        assert(stepped(Direction::Down, p.0 as int, p.1 as int) == (t.0 as int, t.1 as int));
    } else if t.0 + 1 == p.0 {
        assert(stepped(Direction::Left, p.0 as int, p.1 as int) == (t.0 as int, t.1 as int));
    } else {
        assert(stepped(Direction::Right, p.0 as int, p.1 as int) == (t.0 as int, t.1 as int));
    }
}

proof fn lemma_path_stays_closed(
    map: GridModel<MapCell>,
    closed: Seq<(usize, usize)>,
    from: (usize, usize),
    to: (usize, usize),
    path: Seq<(usize, usize)>,
    i: int,
)
    requires
        is_path(map, from, to, path),
        closed.contains(from),
        forall|c: (usize, usize), t: (usize, usize)|
            #[trigger] closed.contains(c) && adjacent(c, t) && map.in_bounds(t.0 as int, t.1 as int) && map.cell(
                t.0 as int,
                t.1 as int,
            ) == MapCell::Clear ==> #[trigger] closed.contains(t),
        0 <= i < path.len(),
    ensures
        closed.contains(path[i]),
    decreases i,
{
    if i > 0 {
        lemma_path_stays_closed(map, closed, from, to, path, i - 1);
        assert(adjacent(path[i - 1], path[i]));
        assert(map.in_bounds(path[i].0 as int, path[i].1 as int));
    }
}

proof fn lemma_seq_remove<A>(s: Seq<A>, k: int)
    requires
        0 <= k < s.len(),
    ensures
        forall|c: A| #[trigger] s.remove(k).contains(c) ==> s.contains(c),
        forall|c: A| #[trigger] s.contains(c) && c != s[k] ==> s.remove(k).contains(c),
{
    assert forall|c: A| s.remove(k).contains(c) implies s.contains(c) by {
        let a = choose|a: int| 0 <= a < s.remove(k).len() && s.remove(k)[a] == c;
        if a < k {
            assert(s[a] == c);
        } else {
            assert(s[a + 1] == c);
        }
    }
    assert forall|c: A| s.contains(c) && c != s[k] implies s.remove(k).contains(c) by {
        let a = choose|a: int| 0 <= a < s.len() && s[a] == c;
        if a < k {
            assert(s.remove(k)[a] == c);
        } else {
            assert(s.remove(k)[a - 1] == c);
        }
    }
}

proof fn lemma_seq_insert<A>(s: Seq<A>, q: int, e: A)
    requires
        0 <= q <= s.len(),
    ensures
        forall|c: A| #[trigger] s.insert(q, e).contains(c) <==> s.contains(c) || c == e,
{
    assert forall|c: A| s.insert(q, e).contains(c) <==> s.contains(c) || c == e by {
        if s.insert(q, e).contains(c) {
            let a = choose|a: int| 0 <= a < s.insert(q, e).len() && s.insert(q, e)[a] == c;
            if a < q {
                assert(s[a] == c);
            } else if a > q {
                assert(s[a - 1] == c);
            }
        }
        if s.contains(c) {
            let a = choose|a: int| 0 <= a < s.len() && s[a] == c;
            if a < q {
                assert(s.insert(q, e)[a] == c);
            } else {
                assert(s.insert(q, e)[a + 1] == c);
            }
        }
        if c == e {
            assert(s.insert(q, e)[q] == c);
        }
    }
}

proof fn lemma_entries_edits(nodes: Seq<Node>, list: Seq<usize>, k: int, q: int, i: usize, n: Node)
    requires
        forall|a: int| 0 <= a < list.len() ==> #[trigger] list[a] < nodes.len(),
    ensures
        entries_of(nodes.push(n), list) == entries_of(nodes, list),
        0 <= k < list.len() ==> entries_of(nodes, list.remove(k)) == entries_of(nodes, list).remove(k),
        0 <= q <= list.len() ==> entries_of(nodes, list.insert(q, i)) == entries_of(nodes, list).insert(
            q,
            (pos(nodes[i as int]), nodes[i as int].g, nodes[i as int].f),
        ),
{
    let m = nodes.push(n);
    assert forall|a: int| 0 <= a < list.len() implies m[#[trigger] list[a] as int] == nodes[list[a] as int] by {}
    assert(entries_of(m, list) =~= entries_of(nodes, list));
    if 0 <= k < list.len() {
        assert(entries_of(nodes, list.remove(k)) =~= entries_of(nodes, list).remove(k));
    }
    if 0 <= q <= list.len() {
        assert(entries_of(nodes, list.insert(q, i)) =~= entries_of(nodes, list).insert(
            q,
            (pos(nodes[i as int]), nodes[i as int].g, nodes[i as int].f),
        ));
    }
}

proof fn lemma_ordered_ascending(nodes: Seq<Node>, list: Seq<usize>)
    requires
        ordered(nodes, list),
    ensures
        ascending(entries_of(nodes, list)),
{
    reveal(ordered);
    let e = entries_of(nodes, list);
    assert forall|a: int, b: int| 0 <= a < b < e.len() implies (#[trigger] e[a]).2 <= (#[trigger] e[b]).2 by {
        assert(nodes[list[a] as int].f <= nodes[list[b] as int].f);
    }
}

proof fn lemma_cells_edits(nodes: Seq<Node>, list: Seq<usize>, k: int, q: int, i: usize, n: Node)
    requires
        forall|a: int| 0 <= a < list.len() ==> #[trigger] list[a] < nodes.len(),
    ensures
        cells_of(nodes.push(n), list) == cells_of(nodes, list),
        0 <= k < list.len() ==> cells_of(nodes, list.remove(k)) == cells_of(nodes, list).remove(k),
        0 <= q <= list.len() ==> cells_of(nodes, list.insert(q, i)) == cells_of(nodes, list).insert(q, pos(nodes[i as int])),
{
    let m = nodes.push(n);
    assert forall|a: int| 0 <= a < list.len() implies m[#[trigger] list[a] as int] == nodes[list[a] as int] by {}
    assert(cells_of(m, list) =~= cells_of(nodes, list));
    if 0 <= k < list.len() {
        assert(cells_of(nodes, list.remove(k)) =~= cells_of(nodes, list).remove(k));
    }
    if 0 <= q <= list.len() {
        assert(cells_of(nodes, list.insert(q, i)) =~= cells_of(nodes, list).insert(q, pos(nodes[i as int])));
    }
}

/// How a search stands.
#[derive(Debug, Clone, Copy, PartialEq, Eq, Structural)]
pub enum SearchStatus {
    /// The goal has not been reached, and cells remain to expand.
    Searching,
    /// The goal was reached; the path is available.
    Found,
    /// Every reachable cell was expanded without reaching the goal.
    NoPath,
}

/// A best-first search from a start cell to a goal cell over the clear cells of
/// a map, moving between cells that share an edge, advanced one expansion at a
/// time. Nodes live in an arena and refer to the node they came from by index.
pub struct AStarSearch<H> {
    nodes: Vec<Node>,
    open: Vec<usize>,
    closed: Vec<usize>,
    map: ItemGrid<MapCell>,
    start: (usize, usize),
    end: (usize, usize),
    heuristic: H,
    status: SearchStatus,
    found: usize,
}

impl<H: Fn((usize, usize), (usize, usize)) -> usize> AStarSearch<H> {
    /// How the search stands.
    pub closed spec fn status(&self) -> SearchStatus {
        self.status
    }

    /// The start cell.
    pub closed spec fn start(&self) -> (usize, usize) {
        self.start
    }

    /// The goal cell.
    pub closed spec fn goal(&self) -> (usize, usize) {
        self.end
    }

    /// The map searched.
    pub closed spec fn map_model(&self) -> GridModel<MapCell> {
        self.map.model()
    }

    /// The coordinate of the node that the next step expands, if any.
    pub closed spec fn next_pos(&self) -> Option<(usize, usize)> {
        if self.open_entries().len() > 0 {
            Some(self.open_entries()[0].0)
        } else {
            None
        }
    }

    /// The coordinates of the open set, in the order the search takes them.
    pub closed spec fn open_cells(&self) -> Seq<(usize, usize)> {
        cells_of(self.nodes@, self.open@)
    }

    /// The coordinate, cost from the start and priority of each node of the open
    /// set, in the order the search takes them.
    pub closed spec fn open_entries(&self) -> Seq<((usize, usize), usize, usize)> {
        entries_of(self.nodes@, self.open@)
    }

    /// The estimate of the distance left.
    pub closed spec fn heuristic(&self) -> H {
        self.heuristic
    }

    /// The coordinates expanded so far.
    pub closed spec fn closed_cells(&self) -> Seq<(usize, usize)> {
        cells_of(self.nodes@, self.closed@)
    }

    /// The path from the start to the node that the next step expands.
    pub closed spec fn next_path(&self) -> Seq<(usize, usize)> {
        path_to(self.nodes@, self.open@[0] as int)
    }

    /// The path found, once the status is `Found`.
    pub closed spec fn found_path(&self) -> Seq<(usize, usize)> {
        path_to(self.nodes@, self.found as int)
    }

    /// The number of nodes expanded so far.
    pub closed spec fn closed_count(&self) -> nat {
        self.closed@.len()
    }

    /// The internal state is consistent.
    pub closed spec fn wf(&self) -> bool {
        &&& self.inner_wf()
        &&& self.covered()
    }

    /// The search tree, the open and closed sets and the status agree.
    spec fn inner_wf(&self) -> bool {
        &&& self.map.model().wf()
        &&& self.map.model().in_bounds(self.end.0 as int, self.end.1 as int)
        &&& forall|a: (usize, usize), b: (usize, usize)| call_requires(self.heuristic, (a, b))
        &&& tree_ok(self.nodes@, self.map.model(), self.start)
        &&& ordered(self.nodes@, self.open@)
        &&& ordered(self.nodes@, self.closed@)
        &&& apart(self.nodes@, self.open@, self.closed@)
        &&& self.status == SearchStatus::Found ==> {
            &&& self.found < self.nodes@.len()
            &&& pos(self.nodes@[self.found as int]) == self.end
        }
    }

    /// Nothing reachable is left behind: unless the goal has been found, every
    /// clear neighbor of an expanded cell is open or expanded, and the goal is
    /// not expanded; the start is open or expanded; a failed search has an empty
    /// open set.
    spec fn covered(&self) -> bool {
        let open = cells_of(self.nodes@, self.open@);
        let closed = cells_of(self.nodes@, self.closed@);
        &&& self.status == SearchStatus::NoPath ==> self.open@.len() == 0
        &&& open.contains(self.start) || closed.contains(self.start)
        &&& self.status != SearchStatus::Found ==> {
            &&& !closed.contains(self.end)
            &&& forall|c: (usize, usize), t: (usize, usize)|
                #[trigger] closed.contains(c) && adjacent(c, t) && self.map.model().in_bounds(t.0 as int, t.1 as int)
                    && self.map.model().cell(t.0 as int, t.1 as int) == MapCell::Clear ==> open.contains(t)
                    || #[trigger] closed.contains(t)
        }
    }

    /// Whether a node of the closed set stands at `(x, y)`.
    fn closed_has(&self, x: usize, y: usize) -> (r: bool)
        requires
            ordered(self.nodes@, self.closed@),
        ensures
            r == exists|k: int| 0 <= k < self.closed@.len() && pos(self.nodes@[#[trigger] self.closed@[k] as int]) == (x, y),
    {
        let mut k: usize = 0;
        while k < self.closed.len()
            invariant
                ordered(self.nodes@, self.closed@),
                k <= self.closed@.len(),
                forall|j: int| 0 <= j < k ==> pos(self.nodes@[#[trigger] self.closed@[j] as int]) != (x, y),
            decreases self.closed@.len() - k,
        {
            proof {
                reveal(ordered);
            }
            let n = self.nodes[self.closed[k]];
            if n.x == x && n.y == y {
                return true;
            }
            k = k + 1;
        }
        false
    }

    /// The position in the open set of the node at `(x, y)`, if there is one.
    fn open_index(&self, x: usize, y: usize) -> (r: Option<usize>)
        requires
            ordered(self.nodes@, self.open@),
        ensures
            match r {
                Some(k) => k < self.open@.len() && pos(self.nodes@[self.open@[k as int] as int]) == (x, y),
                None => forall|j: int| 0 <= j < self.open@.len() ==> pos(self.nodes@[#[trigger] self.open@[j] as int]) != (x, y),
            },
    {
        let mut k: usize = 0;
        while k < self.open.len()
            invariant
                ordered(self.nodes@, self.open@),
                k <= self.open@.len(),
                forall|j: int| 0 <= j < k ==> pos(self.nodes@[#[trigger] self.open@[j] as int]) != (x, y),
            decreases self.open@.len() - k,
        {
            proof {
                reveal(ordered);
            }
            let n = self.nodes[self.open[k]];
            if n.x == x && n.y == y {
                return Some(k);
            }
            k = k + 1;
        }
        None
    }

    /// Where a node of priority `f` enters `list`: after every node of priority
    /// at most `f` where `after_equal`, else before every node of priority at least `f`.
    fn entry_point(nodes: &Vec<Node>, list: &Vec<usize>, f: usize, after_equal: bool) -> (q: usize)
        requires
            ordered(nodes@, list@),
        ensures
            q <= list@.len(),
            forall|a: int|
                0 <= a < q ==> if after_equal {
                    nodes@[#[trigger] list@[a] as int].f <= f
                } else {
                    nodes@[#[trigger] list@[a] as int].f < f
                },
            forall|a: int|
                q <= a < list@.len() ==> if after_equal {
                    nodes@[#[trigger] list@[a] as int].f > f
                } else {
                    nodes@[#[trigger] list@[a] as int].f >= f
                },
    {
        let mut q: usize = 0;
        while q < list.len()
            invariant
                ordered(nodes@, list@),
                q <= list@.len(),
                forall|a: int|
                    0 <= a < q ==> if after_equal {
                        nodes@[#[trigger] list@[a] as int].f <= f
                    } else {
                        nodes@[#[trigger] list@[a] as int].f < f
                    },
            decreases list@.len() - q,
        {
            proof {
                reveal(ordered);
            }
            let g = nodes[list[q]].f;
            if (after_equal && g > f) || (!after_equal && g >= f) {
                return q;
            }
            q = q + 1;
        }
        q
    }

    /// Adds, as a child of node `parent`, the cell one move from it in direction
    /// `d`, where that cell is clear and not yet expanded, and the open set does
    /// not already reach it at the same priority or lower. A node of the open set
    /// at that cell with a higher priority gives way to the new one.
    fn consider(&mut self, parent: usize, d: Direction)
        requires
            old(self).inner_wf(),
            parent < old(self).nodes@.len(),
        ensures
            final(self).inner_wf(),
            final(self).closed@ == old(self).closed@,
            final(self).status == old(self).status,
            final(self).found == old(self).found,
            final(self).start == old(self).start,
            final(self).end == old(self).end,
            final(self).map.model() == old(self).map.model(),
            final(self).nodes@.len() >= old(self).nodes@.len(),
            forall|i: int| 0 <= i < old(self).nodes@.len() ==> #[trigger] final(self).nodes@[i] == old(self).nodes@[i],
            cells_of(final(self).nodes@, final(self).closed@) == cells_of(old(self).nodes@, old(self).closed@),
            forall|c: (usize, usize)|
                cells_of(old(self).nodes@, old(self).open@).contains(c) ==> cells_of(final(self).nodes@, final(self).open@).contains(c),
            forall|c: (usize, usize)|
                cells_of(final(self).nodes@, final(self).open@).contains(c) ==> cells_of(old(self).nodes@, old(self).open@).contains(c)
                    || (c.0 as int, c.1 as int) == stepped(d, old(self).nodes@[parent as int].x as int, old(self).nodes@[parent as int].y as int),
            ({
                let t = stepped(d, old(self).nodes@[parent as int].x as int, old(self).nodes@[parent as int].y as int);
                eligible(old(self).map.model(), cells_of(old(self).nodes@, old(self).closed@), t)
                    ==> cells_of(final(self).nodes@, final(self).open@).contains((t.0 as usize, t.1 as usize))
            }),
            forall|e: ((usize, usize), usize, usize)|
                #[trigger] entries_of(final(self).nodes@, final(self).open@).contains(e) ==> entries_of(old(self).nodes@, old(self).open@).contains(e)
                    || reached_from(e, pos(old(self).nodes@[parent as int]), old(self).nodes@[parent as int].g, old(self).heuristic, old(self).end),
            final(self).heuristic == old(self).heuristic,
            forall|e: ((usize, usize), usize, usize)|
                #[trigger] entries_of(old(self).nodes@, old(self).open@).contains(e) && (e.0.0 as int, e.0.1 as int) != stepped(
                    d,
                    old(self).nodes@[parent as int].x as int,
                    old(self).nodes@[parent as int].y as int,
                ) ==> entries_of(final(self).nodes@, final(self).open@).contains(e),
            ({
                let t = stepped(d, old(self).nodes@[parent as int].x as int, old(self).nodes@[parent as int].y as int);
                eligible(old(self).map.model(), cells_of(old(self).nodes@, old(self).closed@), t) ==> exists|
                    e: ((usize, usize), usize, usize),
                | #[trigger] entries_of(final(self).nodes@, final(self).open@).contains(e) && e.0 == (t.0 as usize, t.1 as usize)
                    && no_dearer(e, old(self).nodes@[parent as int].g, old(self).heuristic, old(self).end)
            }),
    {
        let p = self.nodes[parent];
        let w = self.map.width();
        let h = self.map.height();
        let (nx, ny) = match d.advance((p.x, p.y)) {
            Some(c) => c,
            None => return,
        };
        if nx >= w || ny >= h {
            return;
        }
        match self.map.get(nx, ny) {
            MapCell::Obstacle => return,
            MapCell::Clear => {},
        }
        if self.closed_has(nx, ny) {
            proof {
                let k = choose|k: int| 0 <= k < self.closed@.len() && pos(self.nodes@[#[trigger] self.closed@[k] as int]) == (nx, ny);
                assert(cells_of(self.nodes@, self.closed@)[k] == (nx, ny));
            }
            return;
        }
        let ghost old_nodes = self.nodes@;
        let ghost old_open = self.open@;
        proof {
            reveal(ordered);
            lemma_cells_edits(self.nodes@, self.open@, 0, 0, 0, p);
            lemma_cells_edits(self.nodes@, self.closed@, 0, 0, 0, p);
            lemma_entries_edits(self.nodes@, self.open@, 0, 0, 0, p);
        }
        assert(self.nodes@[parent as int].g <= parent) by {
            reveal(tree_ok);
        }
        let idx = self.nodes.len();
        let g = p.g + 1;
        let h = (self.heuristic)((nx, ny), self.end);
        let f = g.saturating_add(h);
        match self.open_index(nx, ny) {
            Some(k) => {
                assert(self.open@[k as int] < self.nodes@.len()) by {
                    reveal(ordered);
                }
                if self.nodes[self.open[k]].f <= f {
                    assert(cells_of(self.nodes@, self.open@)[k as int] == (nx, ny));
                    proof {
                        let e = entries_of(self.nodes@, self.open@)[k as int];
                        assert(e.0 == (nx, ny));
                        assert(call_ensures(self.heuristic, ((nx, ny), self.end), h));
                        assert(no_dearer(e, p.g, self.heuristic, self.end));
                        assert(entries_of(self.nodes@, self.open@).contains(e));
                    }
                    return;
                }
                proof {
                    lemma_cells_edits(self.nodes@, self.open@, k as int, 0, 0, p);
                    lemma_seq_remove(cells_of(self.nodes@, self.open@), k as int);
                    lemma_entries_edits(self.nodes@, self.open@, k as int, 0, 0, p);
                    lemma_seq_remove(entries_of(self.nodes@, self.open@), k as int);
                    assert(entries_of(self.nodes@, self.open@)[k as int].0 == (nx, ny));
                    assert(cells_of(self.nodes@, self.open@)[k as int] == (nx, ny));
                }
                proof {
                    lemma_remove_keeps_order(self.nodes@, self.open@, self.closed@, k as int);
                    lemma_remove_drops_pos(self.nodes@, self.open@, k as int);
                }
                self.open.remove(k);
            },
            None => {},
        }
        assert(adjacent(pos(p), (nx, ny)));
        assert(forall|a: int| 0 <= a < self.open@.len() ==> pos(self.nodes@[#[trigger] self.open@[a] as int]) != (nx, ny));
        assert(forall|a: int| 0 <= a < self.closed@.len() ==> pos(self.nodes@[#[trigger] self.closed@[a] as int]) != (nx, ny));
        let n = Node { x: nx, y: ny, g, h, f, prev: Some(parent) };
        proof {
            lemma_push_keeps_order(self.nodes@, self.open@, self.closed@, n);
            lemma_push_keeps_tree(self.nodes@, self.map.model(), self.start, n, parent);
        }
        self.nodes.push(n);
        let q = Self::entry_point(&self.nodes, &self.open, f, true);
        proof {
            lemma_insert_keeps_order(self.nodes@, self.open@, self.closed@, q as int, idx);
            reveal(ordered);
            lemma_cells_edits(self.nodes@, self.open@, 0, q as int, idx, n);
            lemma_cells_edits(old_nodes, self.open@, 0, 0, 0, n);
            lemma_cells_edits(old_nodes, self.closed@, 0, 0, 0, n);
            lemma_seq_insert(cells_of(self.nodes@, self.open@), q as int, (nx, ny));
            assert(old_nodes.push(n) == self.nodes@);
            assert(cells_of(self.nodes@, self.open@) == cells_of(old_nodes, self.open@));
            assert(pos(self.nodes@[idx as int]) == (nx, ny));
            lemma_entries_edits(self.nodes@, self.open@, 0, q as int, idx, n);
            lemma_entries_edits(old_nodes, self.open@, 0, 0, 0, n);
            lemma_seq_insert(entries_of(self.nodes@, self.open@), q as int, ((nx, ny), g, f));
            assert(entries_of(self.nodes@, self.open@) == entries_of(old_nodes, self.open@));
            assert(call_ensures(self.heuristic, ((nx, ny), self.end), h));
            assert(reached_from(((nx, ny), g, f), pos(p), p.g, self.heuristic, self.end));
        }
        let ghost open1 = self.open@;
        self.open.insert(q, idx);
        assert(self.open@ == open1.insert(q as int, idx));
        assert(cells_of(self.nodes@, self.open@) == cells_of(self.nodes@, open1).insert(q as int, (nx, ny)));
        assert(cells_of(self.nodes@, self.open@)[q as int] == (nx, ny));
        assert(cells_of(self.nodes@, self.open@).contains((nx, ny)));
        proof {
            let e = ((nx, ny), g, f);
            assert(entries_of(self.nodes@, self.open@) == entries_of(self.nodes@, open1).insert(q as int, e));
            assert(entries_of(self.nodes@, self.open@)[q as int] == e);
            assert(entries_of(self.nodes@, self.open@).contains(e));
            assert(no_dearer(e, p.g, self.heuristic, self.end));
        }
    }

    /// Advances the search by one expansion. While searching, takes the node of
    /// lowest priority off the open set (the earliest added among equals); with
    /// none left the search has failed. Otherwise the node is expanded: if it
    /// stands at the goal the search has succeeded, else each clear, unexpanded
    /// cell sharing an edge with it (up, left, right, down) enters the open set
    /// at cost one more. Once the search has ended, a step changes nothing.
    pub fn step(&mut self) -> (r: SearchStatus)
        requires
            old(self).wf(),
        ensures
            final(self).wf(),
            final(self).status() == r,
            final(self).start() == old(self).start(),
            final(self).goal() == old(self).goal(),
            final(self).map_model() == old(self).map_model(),
            final(self).heuristic() == old(self).heuristic(),
            ascending(final(self).open_entries()),
            old(self).status() != SearchStatus::Searching ==> *final(self) == *old(self) && r == old(self).status(),
            old(self).status() == SearchStatus::Searching ==> match old(self).next_pos() {
                None => r == SearchStatus::NoPath && final(self).closed_count() == old(self).closed_count(),
                Some(p) => {
                    &&& final(self).closed_count() == old(self).closed_count() + 1
                    &&& forall|c: (usize, usize)|
                        #[trigger] final(self).closed_cells().contains(c) <==> old(self).closed_cells().contains(c) || c == p
                    &&& p != old(self).goal() ==> {
                        &&& forall|c: (usize, usize)|
                            old(self).open_cells().drop_first().contains(c) ==> #[trigger] final(self).open_cells().contains(c)
                        &&& forall|c: (usize, usize)|
                            #[trigger] final(self).open_cells().contains(c) ==> old(self).open_cells().drop_first().contains(c)
                                || adjacent(p, c)
                        &&& forall|e: ((usize, usize), usize, usize)|
                            #[trigger] final(self).open_entries().contains(e) ==> old(self).open_entries().drop_first().contains(e)
                                || reached_from(e, p, old(self).open_entries()[0].1, old(self).heuristic(), old(self).goal())
                        &&& forall|d: Direction|
                            #![trigger stepped(d, p.0 as int, p.1 as int)]
                            eligible(final(self).map_model(), final(self).closed_cells(), stepped(d, p.0 as int, p.1 as int))
                                ==> final(self).open_cells().contains(
                                (stepped(d, p.0 as int, p.1 as int).0 as usize, stepped(d, p.0 as int, p.1 as int).1 as usize),
                            )
                        &&& forall|d: Direction|
                            #![trigger stepped(d, p.0 as int, p.1 as int)]
                            eligible(final(self).map_model(), final(self).closed_cells(), stepped(d, p.0 as int, p.1 as int))
                                ==> exists|e: ((usize, usize), usize, usize)|
                                #[trigger] final(self).open_entries().contains(e) && e.0 == (
                                    stepped(d, p.0 as int, p.1 as int).0 as usize,
                                    stepped(d, p.0 as int, p.1 as int).1 as usize,
                                ) && no_dearer(e, old(self).open_entries()[0].1, old(self).heuristic(), old(self).goal())
                    }
                    &&& p == old(self).goal() ==> r == SearchStatus::Found && final(self).found_path()
                        == old(self).next_path() && final(self).found_path().len() == old(self).open_entries()[0].1 + 1
                    &&& p != old(self).goal() ==> r == SearchStatus::Searching
                },
            },
            r == SearchStatus::Found ==> is_path(final(self).map_model(), final(self).start(), final(self).goal(), final(self).found_path()),
    {
        proof {
            lemma_ordered_ascending(self.nodes@, self.open@);
        }
        let ghost before = *self;
        if self.status != SearchStatus::Searching {
            proof {
                if self.status == SearchStatus::Found {
                    lemma_path_to(self.nodes@, self.map.model(), self.start, self.found as int);
                }
            }
            return self.status;
        }
        if self.open.len() == 0 {
            self.status = SearchStatus::NoPath;
            return SearchStatus::NoPath;
        }
        proof {
            reveal(ordered);
            lemma_remove_keeps_order(self.nodes@, self.open@, self.closed@, 0);
            lemma_remove_drops_pos(self.nodes@, self.open@, 0);
            reveal(apart);
        }
        let ghost c0 = cells_of(self.nodes@, self.open@);
        let ghost e0 = entries_of(self.nodes@, self.open@);
        let ghost cl0 = cells_of(self.nodes@, self.closed@);
        let ghost open0 = self.open@;
        let ghost closed0 = self.closed@;
        let idx = self.open.remove(0);
        let n = self.nodes[idx];
        let ghost p = pos(n);
        let q = Self::entry_point(&self.nodes, &self.closed, n.f, false);
        proof {
            lemma_apart_symmetric(self.nodes@, self.open@, self.closed@);
            lemma_insert_keeps_order(self.nodes@, self.closed@, self.open@, q as int, idx);
            lemma_cells_edits(self.nodes@, open0, 0, 0, 0, n);
            lemma_cells_edits(self.nodes@, closed0, 0, q as int, idx, n);
            assert(c0.remove(0) =~= c0.drop_first());
            lemma_entries_edits(self.nodes@, open0, 0, 0, 0, n);
            assert(e0.remove(0) =~= e0.drop_first());
            lemma_seq_insert(cl0, q as int, p);
        }
        self.closed.insert(q, idx);
        proof {
            lemma_apart_symmetric(self.nodes@, self.closed@, self.open@);
            assert(cells_of(self.nodes@, self.closed@) == cl0.insert(q as int, p));
            assert(cells_of(self.nodes@, self.open@) == c0.drop_first());
            assert(c0[0] == p);
            lemma_seq_remove(c0, 0);
            assert(c0.remove(0) == c0.drop_first());
            assert(cells_of(self.nodes@, self.closed@)[q as int] == p);
            assert(cells_of(self.nodes@, self.open@).contains(self.start) || cells_of(self.nodes@, self.closed@).contains(self.start));
        }
        if n.x == self.end.0 && n.y == self.end.1 {
            self.status = SearchStatus::Found;
            self.found = idx;
            proof {
                lemma_path_to(self.nodes@, self.map.model(), self.start, idx as int);
                assert(e0[0].1 == self.nodes@[idx as int].g);
            }
            proof {
                lemma_ordered_ascending(self.nodes@, self.open@);
            }
            return SearchStatus::Found;
        }
        let ghost o1 = cells_of(self.nodes@, self.open@);
        let ghost f1 = entries_of(self.nodes@, self.open@);
        assert(f1 == e0.drop_first());
        self.consider(idx, Direction::Up);
        let ghost o2 = cells_of(self.nodes@, self.open@);
        let ghost en2 = entries_of(self.nodes@, self.open@);
        self.consider(idx, Direction::Left);
        let ghost o3 = cells_of(self.nodes@, self.open@);
        let ghost en3 = entries_of(self.nodes@, self.open@);
        self.consider(idx, Direction::Right);
        let ghost o4 = cells_of(self.nodes@, self.open@);
        let ghost en4 = entries_of(self.nodes@, self.open@);
        self.consider(idx, Direction::Down);
        proof {
            let en5 = entries_of(self.nodes@, self.open@);
            let g0 = e0[0].1;
            assert(g0 == n.g);
            let hr = self.heuristic;
            let goal = self.end;
            let closed_now = cells_of(self.nodes@, self.closed@);
            assert forall|d: Direction|
                #![trigger stepped(d, p.0 as int, p.1 as int)]
                eligible(self.map.model(), closed_now, stepped(d, p.0 as int, p.1 as int)) implies exists|e: ((usize, usize), usize, usize)|
                #[trigger] en5.contains(e) && e.0 == (
                    stepped(d, p.0 as int, p.1 as int).0 as usize,
                    stepped(d, p.0 as int, p.1 as int).1 as usize,
                ) && no_dearer(e, g0, hr, goal) by {
                let t = stepped(d, p.0 as int, p.1 as int);
                let c = (t.0 as usize, t.1 as usize);
                match d {
                    Direction::Up => {
                        let e = choose|e: ((usize, usize), usize, usize)| #[trigger] en2.contains(e) && e.0 == c && no_dearer(e, g0, hr, goal);
                        assert(en3.contains(e));
                        assert(en4.contains(e));
                        assert(en5.contains(e));
                    },
                    Direction::Left => {
                        let e = choose|e: ((usize, usize), usize, usize)| #[trigger] en3.contains(e) && e.0 == c && no_dearer(e, g0, hr, goal);
                        assert(en4.contains(e));
                        assert(en5.contains(e));
                    },
                    Direction::Right => {
                        let e = choose|e: ((usize, usize), usize, usize)| #[trigger] en4.contains(e) && e.0 == c && no_dearer(e, g0, hr, goal);
                        assert(en5.contains(e));
                    },
                    Direction::Down => {
                        let e = choose|e: ((usize, usize), usize, usize)| #[trigger] en5.contains(e) && e.0 == c && no_dearer(e, g0, hr, goal);
                        assert(en5.contains(e));
                    },
                }
            }
            assert(en5 == self.open_entries());
            assert(closed_now == self.closed_cells());
            assert(g0 == before.open_entries()[0].1);
            assert(hr == before.heuristic());
            assert(goal == before.goal());
            assert(self.map.model() == self.map_model());
            assert(forall|d: Direction|
                #![trigger stepped(d, p.0 as int, p.1 as int)]
                eligible(self.map_model(), self.closed_cells(), stepped(d, p.0 as int, p.1 as int))
                    ==> exists|e: ((usize, usize), usize, usize)|
                    #[trigger] self.open_entries().contains(e) && e.0 == (
                        stepped(d, p.0 as int, p.1 as int).0 as usize,
                        stepped(d, p.0 as int, p.1 as int).1 as usize,
                    ) && no_dearer(e, before.open_entries()[0].1, before.heuristic(), before.goal()));
        }
        proof {
            lemma_ordered_ascending(self.nodes@, self.open@);
            let o5 = cells_of(self.nodes@, self.open@);
            assert forall|c: (usize, usize)| #[trigger] o5.contains(c) implies o1.contains(c) || adjacent(p, c) by {
                if !o1.contains(c) {
                    if o2.contains(c) {
                        lemma_stepped_adjacent(Direction::Up, p, c);
                    } else if o3.contains(c) {
                        lemma_stepped_adjacent(Direction::Left, p, c);
                    } else if o4.contains(c) {
                        lemma_stepped_adjacent(Direction::Right, p, c);
                    } else {
                        lemma_stepped_adjacent(Direction::Down, p, c);
                    }
                }
            }
            assert forall|c: (usize, usize)| o1.contains(c) implies #[trigger] o5.contains(c) by {
                assert(o2.contains(c));
                assert(o3.contains(c));
                assert(o4.contains(c));
            }
            assert forall|d: Direction|
                #![trigger stepped(d, p.0 as int, p.1 as int)]
                eligible(self.map.model(), cells_of(self.nodes@, self.closed@), stepped(d, p.0 as int, p.1 as int)) implies o5.contains(
                (stepped(d, p.0 as int, p.1 as int).0 as usize, stepped(d, p.0 as int, p.1 as int).1 as usize),
            ) by {
                let t = stepped(d, p.0 as int, p.1 as int);
                let c = (t.0 as usize, t.1 as usize);
                match d {
                    Direction::Up => {
                        assert(o2.contains(c));
                        assert(o3.contains(c));
                        assert(o4.contains(c));
                    },
                    Direction::Left => {
                        assert(o3.contains(c));
                        assert(o4.contains(c));
                    },
                    Direction::Right => {
                        assert(o4.contains(c));
                    },
                    Direction::Down => {},
                }
            }
            let closed1 = cells_of(self.nodes@, self.closed@);
            assert(!closed1.contains(self.end));
            assert forall|c: (usize, usize), t: (usize, usize)|
                #[trigger] closed1.contains(c) && adjacent(c, t) && self.map.model().in_bounds(t.0 as int, t.1 as int)
                    && self.map.model().cell(t.0 as int, t.1 as int) == MapCell::Clear implies o5.contains(t)
                    || #[trigger] closed1.contains(t) by {
                if !closed1.contains(t) {
                    if cl0.contains(c) {
                        assert(c0.contains(t) || cl0.contains(t));
                        assert(t != p);
                        assert(o1.contains(t));
                    } else {
                        assert(c == p);
                        lemma_adjacent_direction(p, t);
                        let d = choose|d: Direction| #[trigger] stepped(d, p.0 as int, p.1 as int) == (t.0 as int, t.1 as int);
                        assert(eligible(self.map.model(), closed1, stepped(d, p.0 as int, p.1 as int)));
                    }
                }
            }
        }
        SearchStatus::Searching
    }

    /// The path found, from the start to the goal, once the search has succeeded;
    /// `None` before, or if it failed.
    pub fn path(&self) -> (r: Option<Vec<(usize, usize)>>)
        requires
            self.wf(),
        ensures
            match r {
                Some(v) => self.status() == SearchStatus::Found && v@ == self.found_path(),
                None => self.status() != SearchStatus::Found,
            },
    {
        if self.status != SearchStatus::Found {
            return None;
        }
        let ghost full = path_to(self.nodes@, self.found as int);
        let mut out: Vec<(usize, usize)> = Vec::new();
        let mut cur: usize = self.found;
        let mut done = false;
        assert(tree_ok(self.nodes@, self.map.model(), self.start));
        while !done
            invariant
                tree_ok(self.nodes@, self.map.model(), self.start),
                cur < self.nodes@.len(),
                done ==> out@ == full,
                !done ==> path_to(self.nodes@, cur as int) + out@ == full,
            decreases cur + (if done { 0int } else { 1int }),
        {
            proof {
                reveal(tree_ok);
            }
            let n = self.nodes[cur];
            assert(self.nodes@[cur as int] == n);
            out.insert(0, (n.x, n.y));
            if cur == 0 {
                assert(path_to(self.nodes@, 0) =~= seq![pos(n)]);
                assert(out@ =~= full);
                done = true;
            } else {
                let prev = match n.prev {
                    Some(p) => p,
                    None => 0,
                };
                assert(path_to(self.nodes@, cur as int) == path_to(self.nodes@, prev as int).push(pos(n)));
                assert(path_to(self.nodes@, prev as int) + out@ =~= full);
                cur = prev;
            }
        }
        Some(out)
    }

    /// The path to the node that the next step expands leads from the start to
    /// that node's cell over clear cells, one move at a time, and has one more
    /// coordinate than the node's cost.
    pub proof fn lemma_next_path(&self)
        requires
            self.wf(),
            self.open_entries().len() > 0,
        ensures
            is_path(self.map_model(), self.start(), self.open_entries()[0].0, self.next_path()),
            self.next_path().len() == self.open_entries()[0].1 + 1,
    {
        reveal(ordered);
        lemma_path_to(self.nodes@, self.map.model(), self.start, self.open@[0] as int);
    }

    /// A failed search leaves no path of clear cells from the start to the goal:
    /// every cell such a path could reach was expanded, and the goal never was.
    pub proof fn lemma_no_path_when_failed(&self, path: Seq<(usize, usize)>)
        requires
            self.wf(),
            self.status() == SearchStatus::NoPath,
        ensures
            !is_path(self.map_model(), self.start(), self.goal(), path),
    {
        let open = cells_of(self.nodes@, self.open@);
        let closed = cells_of(self.nodes@, self.closed@);
        assert(open =~= Seq::<(usize, usize)>::empty());
        assert(!open.contains(self.start));
        if is_path(self.map_model(), self.start(), self.goal(), path) {
            assert forall|c: (usize, usize), t: (usize, usize)|
                #[trigger] closed.contains(c) && adjacent(c, t) && self.map.model().in_bounds(t.0 as int, t.1 as int)
                    && self.map.model().cell(t.0 as int, t.1 as int) == MapCell::Clear implies #[trigger] closed.contains(t) by {
                assert(!open.contains(t));
            }
            lemma_path_stays_closed(self.map.model(), closed, self.start, self.end, path, path.len() - 1);
            assert(path[path.len() - 1] == self.end);
        }
    }

    /// The search is as `new` leaves it: the start node alone, in the open set.
    pub closed spec fn is_fresh(&self) -> bool {
        &&& self.status == SearchStatus::Searching
        &&& self.nodes@.len() == 1
        &&& self.open@ == seq![0usize]
        &&& self.closed@.len() == 0
    }

    /// A fresh search whose start is its goal expands the start first, and its
    /// path is the start alone: the next step reports success with that path.
    pub proof fn lemma_start_at_goal(&self)
        requires
            self.wf(),
            self.is_fresh(),
            self.start() == self.goal(),
        ensures
            self.status() == SearchStatus::Searching,
            self.next_pos() == Some(self.goal()),
            self.next_path() == seq![self.start()],
    {
        reveal(tree_ok);
        assert(self.nodes@[0] == self.nodes@[0]);
        assert(path_to(self.nodes@, 0) =~= seq![self.start]);
    }

    /// Where every cell sharing an edge with the goal is blocked, and the start is
    /// not the goal, no node ever stands at the goal: a search never succeeds, and
    /// each step is one towards failure.
    pub proof fn lemma_enclosed_goal_unreached(&self)
        requires
            self.wf(),
            self.start() != self.goal(),
            forall|p: (usize, usize)|
                adjacent(p, self.goal()) && self.map_model().in_bounds(p.0 as int, p.1 as int) ==> self.map_model().cell(
                    p.0 as int,
                    p.1 as int,
                ) == MapCell::Obstacle,
        ensures
            self.status() != SearchStatus::Found,
            self.next_pos() != Some(self.goal()),
    {
        reveal(tree_ok);
        reveal(ordered);
        assert forall|i: int| 0 <= i < self.nodes@.len() implies pos(#[trigger] self.nodes@[i]) != self.end by {
            if i > 0 {
                let p = self.nodes@[i].prev->0 as int;
                assert(self.nodes@[p] == self.nodes@[p]);
                assert(adjacent(pos(self.nodes@[i]), pos(self.nodes@[p]))) by {
                    assert(manhattan(pos(self.nodes@[i]), pos(self.nodes@[p])) == manhattan(pos(self.nodes@[p]), pos(self.nodes@[i])));
                }
            }
        }
        if self.open@.len() > 0 {
            assert(self.nodes@[self.open@[0] as int] == self.nodes@[self.open@[0] as int]);
        }
        if self.status == SearchStatus::Found {
            assert(self.nodes@[self.found as int] == self.nodes@[self.found as int]);
        }
    }

    /// A search expands each cell at most once, so it expands no more nodes than
    /// the map has cells. As each step that neither succeeds nor fails expands one
    /// node, a search ends within that many steps, plus one.
    pub proof fn lemma_expansions_bounded(&self)
        requires
            self.wf(),
        ensures
            self.closed_count() <= self.map_model().width * self.map_model().height,
    {
        lemma_distinct_cells_bounded(self.nodes@, self.closed@, self.map.model(), self.start);
    }

    /// Creates a search on `map` from `start` to `end`, both cells of the map,
    /// `start` a clear one, estimating the distance left with `heuristic`. The
    /// open set holds the start node alone.
    pub fn new(map: ItemGrid<MapCell>, start: (usize, usize), end: (usize, usize), heuristic: H) -> (r: AStarSearch<H>)
        requires
            map.model().wf(),
            map.model().in_bounds(start.0 as int, start.1 as int),
            map.model().in_bounds(end.0 as int, end.1 as int),
            map.model().cell(start.0 as int, start.1 as int) == MapCell::Clear,
            forall|a: (usize, usize), b: (usize, usize)| call_requires(heuristic, (a, b)),
        ensures
            r.wf(),
            r.status() == SearchStatus::Searching,
            r.start() == start,
            r.goal() == end,
            r.map_model() == map.model(),
            r.next_pos() == Some(start),
            r.next_path() == seq![start],
            r.closed_count() == 0,
            r.is_fresh(),
            r.heuristic() == heuristic,
            ascending(r.open_entries()),
            r.open_entries().len() == 1,
            r.open_entries()[0].0 == start,
            r.open_entries()[0].1 == 0,
            call_ensures(heuristic, (start, end), r.open_entries()[0].2),
    {
        let h = heuristic(start, end);
        let mut nodes: Vec<Node> = Vec::new();
        nodes.push(Node { x: start.0, y: start.1, g: 0, h, f: h, prev: None });
        let mut open: Vec<usize> = Vec::new();
        open.push(0);
        let r = AStarSearch {
            nodes,
            open,
            closed: Vec::new(),
            map,
            start,
            end,
            heuristic,
            status: SearchStatus::Searching,
            found: 0,
        };
        assert(r.next_path() =~= seq![start]);
        assert(r.open_entries()[0] == (start, 0usize, h));
        assert(cells_of(r.nodes@, r.open@)[0] == start);
        assert(cells_of(r.nodes@, r.closed@) =~= Seq::<(usize, usize)>::empty());
        proof {
            reveal(tree_ok);
            reveal(ordered);
            reveal(apart);
            lemma_ordered_ascending(r.nodes@, r.open@);
        }
        r
    }
}

} // verus!
