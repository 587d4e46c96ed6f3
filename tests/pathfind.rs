use gridkit::grid::Grid;
use gridkit::item_grid::ItemGrid;
use gridkit::pathfind::{euclidiean_distance, manhattan_distance, AStarSearch, MapCell, SearchStatus};

fn map_of(text: &str) -> ItemGrid<MapCell> {
    ItemGrid::from_text(text, |c| if c == '#' { MapCell::Obstacle } else { MapCell::Clear })
}

fn run<H: Fn((usize, usize), (usize, usize)) -> usize>(search: &mut AStarSearch<H>, limit: usize) -> (SearchStatus, usize) {
    let mut steps = 0;
    loop {
        let status = search.step();
        steps += 1;
        if status != SearchStatus::Searching || steps > limit {
            return (status, steps);
        }
    }
}

fn assert_valid_path(map: &ItemGrid<MapCell>, path: &[(usize, usize)]) {
    for w in path.windows(2) {
        let (a, b) = (w[0], w[1]);
        assert_eq!(a.0.abs_diff(b.0) + a.1.abs_diff(b.1), 1);
    }
    for p in path {
        assert_eq!(*map.get(p.0, p.1), MapCell::Clear);
    }
}

#[test]
fn distances() {
    assert_eq!(manhattan_distance((0, 0), (4, 4)), 8);
    assert_eq!(manhattan_distance((7, 2), (3, 5)), 7);
    assert_eq!(manhattan_distance((0, 0), (usize::MAX, 1)), usize::MAX);
    assert_eq!(euclidiean_distance((0, 0), (3, 4)), 5);
    assert_eq!(euclidiean_distance((1, 1), (3, 3)), 2);
    assert_eq!(euclidiean_distance((2, 2), (2, 2)), 0);
    assert_eq!(euclidiean_distance((0, 0), (0, 9)), 9);
    assert_eq!(euclidiean_distance((0, 0), (usize::MAX, usize::MAX)), usize::MAX);
}

#[test]
fn clear_grid_shortest_path() {
    let map = map_of(".....\n.....\n.....\n.....\n.....");
    let mut search = AStarSearch::new(map_of(".....\n.....\n.....\n.....\n....."), (0, 0), (4, 4), manhattan_distance);
    assert_eq!(search.path(), None);
    let (status, _) = run(&mut search, 100);
    assert_eq!(status, SearchStatus::Found);
    let path = search.path().unwrap();
    assert_eq!(path.len(), 9);
    assert_eq!(path[0], (0, 0));
    assert_eq!(path[8], (4, 4));
    assert_valid_path(&map, &path);
    assert_eq!(search.step(), SearchStatus::Found);
    assert_eq!(search.path().unwrap(), path);
}

#[test]
fn start_at_goal_succeeds_on_first_step() {
    let mut search = AStarSearch::new(map_of("...\n.#.\n..."), (2, 1), (2, 1), euclidiean_distance);
    assert_eq!(search.step(), SearchStatus::Found);
    assert_eq!(search.path(), Some(vec![(2, 1)]));
}

#[test]
fn enclosed_goal_fails() {
    let map = map_of(".....\n..#..\n.#.#.\n..#..\n.....");
    let cells = map.width() * map.height();
    let mut search = AStarSearch::new(map, (0, 0), (2, 2), manhattan_distance);
    let (status, steps) = run(&mut search, cells + 1);
    assert_eq!(status, SearchStatus::NoPath);
    assert!(steps <= cells + 1);
    assert_eq!(search.path(), None);
    assert_eq!(search.step(), SearchStatus::NoPath);
}

#[test]
fn path_goes_around_a_wall() {
    let text = "....\n###.\n....\n.###\n....";
    let map = map_of(text);
    let mut search = AStarSearch::new(map_of(text), (0, 0), (3, 4), manhattan_distance);
    let (status, _) = run(&mut search, 100);
    assert_eq!(status, SearchStatus::Found);
    let path = search.path().unwrap();
    assert_eq!(path.len(), 14);
    assert_eq!(path[0], (0, 0));
    assert_eq!(*path.last().unwrap(), (3, 4));
    assert_valid_path(&map, &path);
}

#[test]
fn zero_heuristic_is_breadth_first() {
    let mut search = AStarSearch::new(map_of("......\n.####.\n......"), (0, 1), (5, 1), |_, _| 0);
    let (status, _) = run(&mut search, 100);
    assert_eq!(status, SearchStatus::Found);
    assert_eq!(search.path().unwrap().len(), 8);
}
