use torchbearer::bresenham::BresenhamLine;
use torchbearer::path::{astar_path_fourwaygrid, PathMap};
use torchbearer::Point;

struct SampleMap {
    width: i32,
    height: i32,
    walkable: Vec<bool>,
}

impl SampleMap {
    fn new(width: i32, height: i32) -> Self {
        SampleMap {
            width,
            height,
            walkable: vec![true; (width * height) as usize],
        }
    }

    fn build_wall(&mut self, from: Point, to: Point) {
        let bresenham = BresenhamLine::new(from, to);
        for (x, y) in bresenham.points() {
            self.walkable[(x + y * self.width) as usize] = false;
        }
    }
}

impl PathMap for SampleMap {
    fn dimensions(&self) -> (i32, i32) {
        (self.width, self.height)
    }

    fn is_walkable(&self, (x, y): Point) -> bool {
        self.walkable[(x + y * self.width) as usize]
    }
}

#[test]
fn astar_find_path() {
    let mut map = SampleMap::new(10, 10);
    map.build_wall((3, 3), (3, 6));
    map.build_wall((0, 3), (3, 3));

    let from = (0, 4);
    let to = (5, 4);

    let path = astar_path_fourwaygrid(&map, from, to);
    assert!(path.is_some());

    if let Some(path) = path {
        assert_eq!(from, path[0]);
        assert_eq!(to, path[path.len() - 1]);

        assert_eq!(
            path,
            [
                (0, 4),
                (0, 5),
                (1, 5),
                (1, 6),
                (2, 6),
                (2, 7),
                (3, 7),
                (4, 7),
                (5, 7),
                (5, 6),
                (5, 5),
                (5, 4)
            ]
        );
    }
}

#[test]
fn astar_no_path() {
    let mut map = SampleMap::new(10, 10);
    map.build_wall((3, 3), (3, 6));
    map.build_wall((0, 3), (3, 3));
    map.build_wall((0, 6), (3, 6));

    let from = (0, 4);
    let to = (5, 4);

    let path = astar_path_fourwaygrid(&map, from, to);
    assert!(path.is_none());
}

#[test]
fn astar_open_grid_length_is_manhattan() {
    // on an open grid the path visits Manhattan-distance plus one nodes
    let map = SampleMap::new(10, 10);
    let from = (1, 2);
    let to = (7, 8);

    let path = astar_path_fourwaygrid(&map, from, to).expect("an open grid always has a path");
    assert_eq!(path.len() as i32, (7 - 1i32).abs() + (8 - 2i32).abs() + 1);
    assert_eq!(path[0], from);
    assert_eq!(path[path.len() - 1], to);
}

#[test]
fn astar_same_origin_and_destination() {
    let map = SampleMap::new(4, 4);
    let path = astar_path_fourwaygrid(&map, (2, 2), (2, 2));
    assert_eq!(path, Some(vec![(2, 2)]));
}

#[test]
fn astar_steps_are_four_connected_and_walkable() {
    let mut map = SampleMap::new(12, 12);
    map.build_wall((4, 0), (4, 8));
    map.build_wall((8, 3), (8, 11));

    let path = astar_path_fourwaygrid(&map, (1, 1), (10, 10)).expect("a gap is left open");
    for window in path.windows(2) {
        let (a, b) = (window[0], window[1]);
        assert_eq!((b.0 - a.0).abs() + (b.1 - a.1).abs(), 1);
        assert!(map.is_walkable(b));
    }
}
