use gridkit::const_size_grid::ConstSizeGrid;
use gridkit::grid::Grid;
use gridkit::item_grid::ItemGrid;
use gridkit::neighborhood::{moore_neighborhood, von_neumann_neighborhood, NeighborhoodMember};

fn numbered_3x3() -> ConstSizeGrid<3, 3, u32> {
    ConstSizeGrid::<3, 3, u32>::populated_with(|x, y| (10 * x + y) as u32)
}

#[test]
fn set_then_get_returns_value() {
    let mut g = ConstSizeGrid::<4, 2, i32>::filled_with(0);
    assert_eq!(g.set_checked(3, 1, 7), Some(0));
    assert_eq!(g.get_checked(3, 1), Some(&7));
    assert_eq!(g.set_checked(3, 1, 9), Some(7));
    assert_eq!(*g.get(3, 1), 9);
    assert_eq!(*g.get(0, 0), 0);

    let mut d: ItemGrid<char> = ItemGrid::from_text("ab\ncd", |c| c);
    assert_eq!(d.set_checked(1, 0, 'z'), Some('b'));
    assert_eq!(d.get_checked(1, 0), Some(&'z'));
    assert_eq!(d.get_checked(0, 1), Some(&'c'));
}

#[test]
fn checked_accessors_report_absence_out_of_bounds() {
    let mut g = ConstSizeGrid::<2, 3, u8>::filled_with(1);
    assert_eq!(g.get_checked(2, 0), None);
    assert_eq!(g.get_checked(0, 3), None);
    assert!(g.get_mut_checked(5, 5).is_none());
    assert_eq!(g.set_checked(2, 2, 4), None);
    assert_eq!(g.set_checked(1, 3, 4), None);
    assert_eq!(g.find(|v, _, _| *v != 1), None);

    let mut d: ItemGrid<u8> = ItemGrid::new();
    assert_eq!(d.get_checked(0, 0), None);
    assert_eq!(d.set_checked(0, 0, 3), None);
    assert_eq!(d.width(), 0);
    assert_eq!(d.height(), 0);
}

#[test]
fn get_mut_changes_one_cell() {
    let mut g = numbered_3x3();
    *g.get_mut(2, 1) = 99;
    if let Some(v) = g.get_mut_checked(0, 2) {
        *v = 55;
    }
    assert_eq!(*g.get(2, 1), 99);
    assert_eq!(*g.get(0, 2), 55);
    assert_eq!(*g.get(1, 1), 11);
    assert_eq!(g.set(1, 1, 0), 11);
    assert_eq!(*g.get(1, 1), 0);
}

#[test]
fn const_size_constructors() {
    let cols = ConstSizeGrid::<2, 3, u8>::new_with_cols([[1, 2, 3], [4, 5, 6]]);
    assert_eq!((cols.width(), cols.height()), (2, 3));
    assert_eq!(*cols.get(0, 2), 3);
    assert_eq!(*cols.get(1, 0), 4);

    let rows = ConstSizeGrid::<2, 3, u8>::new_with_rows([[1, 2], [3, 4], [5, 6]]);
    assert_eq!((rows.width(), rows.height()), (2, 3));
    assert_eq!(*rows.get(1, 0), 2);
    assert_eq!(*rows.get(0, 2), 5);

    let g = numbered_3x3();
    assert_eq!(*g.get(2, 1), 21);
}

#[test]
fn rows_appended_set_the_shape() {
    let mut g: ItemGrid<u8> = ItemGrid::new();
    for r in 0..4u8 {
        g.add_row(vec![r, r + 10, r + 20]);
        assert_eq!(g.width(), 3);
        assert_eq!(g.height(), (r + 1) as usize);
    }
    assert_eq!(*g.get(2, 3), 23);
    assert_eq!(*g.get(0, 1), 1);
}

#[test]
fn cols_appended_set_the_shape() {
    let mut g: ItemGrid<u8> = ItemGrid::new();
    for c in 0..5u8 {
        g.add_col(vec![c, c + 10]);
        assert_eq!(g.height(), 2);
        assert_eq!(g.width(), (c + 1) as usize);
    }
    assert_eq!(*g.get(4, 1), 14);
    g.add_row(vec![7, 7, 7, 7, 7]);
    assert_eq!((g.width(), g.height()), (5, 3));
    assert_eq!(*g.get(3, 2), 7);
    g.shrink_to_fit();
    assert_eq!(*g.get(4, 1), 14);
}

#[test]
fn moore_neighborhood_of_center_and_corner() {
    let g = numbered_3x3();
    let center = g.get_neighborhood(1, 1, &moore_neighborhood());
    assert_eq!(center.len(), 8);
    let expected = [(-1, -1), (0, -1), (1, -1), (-1, 0), (1, 0), (-1, 1), (0, 1), (1, 1)];
    for (m, (dx, dy)) in center.iter().zip(expected.iter()) {
        assert_eq!((m.rel_x, m.rel_y), (*dx, *dy));
        assert_eq!(m.abs_x as isize, 1 + dx);
        assert_eq!(m.abs_y as isize, 1 + dy);
        assert_eq!(*g.get(m.abs_x, m.abs_y), (10 * m.abs_x + m.abs_y) as u32);
    }

    let corner = g.get_neighborhood(0, 0, &moore_neighborhood());
    assert_eq!(
        corner,
        vec![
            NeighborhoodMember { rel_x: 1, rel_y: 0, abs_x: 1, abs_y: 0 },
            NeighborhoodMember { rel_x: 0, rel_y: 1, abs_x: 0, abs_y: 1 },
            NeighborhoodMember { rel_x: 1, rel_y: 1, abs_x: 1, abs_y: 1 },
        ]
    );
}

#[test]
fn von_neumann_neighborhood_at_edge() {
    let g = numbered_3x3();
    let n = g.get_neighborhood(2, 1, &von_neumann_neighborhood());
    let coords: Vec<(usize, usize)> = n.iter().map(|m| (m.abs_x, m.abs_y)).collect();
    assert_eq!(coords, vec![(2, 0), (1, 1), (2, 2)]);
    let far = g.get_neighborhood(7, 7, &von_neumann_neighborhood());
    assert!(far.is_empty());
}

#[test]
fn find_scans_column_by_column() {
    let g = numbered_3x3();
    assert_eq!(g.find(|_, _, _| false), None);
    assert_eq!(g.find(|v, _, _| *v == 12), Some((&12, 1, 2)));
    assert_eq!(g.find(|v, _, _| *v >= 2), Some((&2, 0, 2)));
    assert_eq!(g.find(|_, x, y| x == 2 && y == 0), Some((&20, 2, 0)));
}

#[test]
fn find_each_lists_matches_in_scan_order() {
    let g = numbered_3x3();
    assert_eq!(g.find_each(|v, _, _| *v % 10 == 1), vec![(0, 1), (1, 1), (2, 1)]);
    assert_eq!(g.find_each(|v, _, _| *v > 100), vec![]);
    assert_eq!(g.find_each(|_, x, y| x == y).len(), 3);
}

#[test]
fn text_lines_become_rows() {
    let g: ItemGrid<char> = ItemGrid::from_text("abc\r\ndef\nghi\n", |c| c);
    assert_eq!((g.width(), g.height()), (3, 3));
    assert_eq!(*g.get(2, 0), 'c');
    assert_eq!(*g.get(0, 1), 'd');
    assert_eq!(*g.get(1, 2), 'h');

    let empty: ItemGrid<char> = ItemGrid::from_text("", |c| c);
    assert_eq!((empty.width(), empty.height()), (0, 0));

    let digits: ItemGrid<u32> = ItemGrid::from_text("12\n34", |c| c as u32 - '0' as u32);
    assert_eq!(*digits.get(1, 1), 4);
    assert_eq!(digits.find(|v, _, _| *v == 3), Some((&3, 0, 1)));
}
