use std::fmt::Debug;

use rand::prelude::StdRng;
use rand::{Rng, SeedableRng};
use torchbearer::fov::{field_of_view, VisionMap};
use torchbearer::Point;

const WIDTH: i32 = 45;
const HEIGHT: i32 = 45;
const POSITION_X: i32 = 22;
const POSITION_Y: i32 = 22;
const RADIUS: i32 = 24;
const RANDOM_WALLS: i32 = 10;

pub struct SampleMap {
    /// Vector to store the transparent tiles.
    transparent: Vec<bool>,
    /// Vector to store the computed field of vision.
    vision: Vec<bool>,
    /// The width of the map
    width: i32,
    /// The height of the map
    height: i32,
    /// The last position where the field of view was calculated.
    /// If never calculated, initialized to (-1, -1).
    last_origin: (i32, i32),
}

impl VisionMap for SampleMap {
    fn dimensions(&self) -> (i32, i32) {
        (self.width, self.height)
    }

    fn is_transparent(&self, (x, y): Point) -> bool {
        let index = (x + y * self.width) as usize;
        self.transparent[index]
    }
}

impl SampleMap {
    pub fn new(width: i32, height: i32) -> Self {
        if width <= 0 && height <= 0 {
            panic!("Width and height should be > 0, got ({},{})", width, height);
        }
        SampleMap {
            transparent: vec![true; (width * height) as usize],
            vision: vec![false; (width * height) as usize],
            width,
            height,
            last_origin: (-1, -1),
        }
    }

    /// Flag a tile as transparent or visible.
    pub fn set_transparent(&mut self, x: i32, y: i32, is_transparent: bool) {
        self.transparent[(x + y * self.width) as usize] = is_transparent;
    }

    pub fn calculate_fov(&mut self, x: i32, y: i32, radius: i32) {
        for see in self.vision.iter_mut() {
            *see = false;
        }

        let visibles = field_of_view(self, (x, y), radius);

        for (x, y) in visibles {
            self.vision[(x + y * self.width) as usize] = true
        }
        self.last_origin = (x, y);
    }

    pub fn calculate_fov2(&mut self, x: i32, y: i32, radius: i32) {
        for see in self.vision.iter_mut() {
            *see = false;
        }

        let visibles = field_of_view(self, (x, y), radius);

        for (x, y) in visibles {
            self.vision[(x + y * self.width) as usize] = true
        }
        self.last_origin = (x, y);
    }
}

impl Debug for SampleMap {
    fn fmt(&self, f: &mut std::fmt::Formatter<'_>) -> std::fmt::Result {
        let (width, _height) = self.dimensions();

        let last_origin_index = if self.last_origin.0 >= 0 && self.last_origin.1 >= 0 {
            Some((self.last_origin.0 + self.last_origin.1 * width) as usize)
        } else {
            None
        };

        let mut display_string = String::from("+");
        display_string.push_str("-".repeat(self.width as usize).as_str());
        display_string.push_str("+\n");
        for index in 0..self.vision.len() {
            if index % self.width as usize == 0 {
                display_string.push('|');
            }

            let is_last_origin = if let Some(last_origin_index) = last_origin_index {
                last_origin_index == index
            } else {
                false
            };
            let tile = match (is_last_origin, self.transparent[index], self.vision[index]) {
                (true, _, _) => '*',
                (_, true, true) => ' ',
                (_, false, true) => '□',
                _ => '?',
            };
            display_string.push(tile);
            if index > 0 && (index + 1) % self.width as usize == 0 {
                display_string.push_str("|\n");
            }
        }
        display_string.truncate(display_string.len() - 1);
        display_string.push('\n');
        display_string.push('+');
        display_string.push_str("-".repeat(self.width as usize).as_str());
        display_string.push('+');

        f.write_str(&display_string)
    }
}

#[test]
fn fov_with_sample_map() {
    let mut fov = SampleMap::new(10, 10);
    for x in 1..10 {
        fov.set_transparent(x, 3, false);
    }
    for y in 0..10 {
        fov.set_transparent(9, y, false);
    }
    fov.calculate_fov(3, 2, 10);

    println!("{:?}", fov);
}

#[test]
fn fov_with_sample_map2() {
    let mut fov = SampleMap::new(10, 10);
    for x in 1..10 {
        fov.set_transparent(x, 3, false);
    }
    for y in 0..10 {
        fov.set_transparent(9, y, false);
    }
    fov.calculate_fov2(3, 2, 10);

    println!("{:?}", fov);
}

#[test]
fn fov_to_vector() {
    let mut fov = SampleMap::new(WIDTH, HEIGHT);

    fov.calculate_fov(POSITION_X, POSITION_Y, RADIUS);
}

#[test]
fn fov_with_wall_to_vector() {
    let mut fov = SampleMap::new(WIDTH, HEIGHT);
    let mut rng = StdRng::seed_from_u64(42);
    for _ in 0..RANDOM_WALLS {
        let (x, y) = (rng.gen_range(0..WIDTH), rng.gen_range(0..HEIGHT));
        fov.set_transparent(x, y, false);
    }
    fov.set_transparent(POSITION_X, POSITION_Y, true);

    fov.calculate_fov(POSITION_X, POSITION_Y, RADIUS);

    println!("{:?}", fov);
}

#[test]
fn fov_radius_zero_sees_only_origin() {
    let map = SampleMap::new(10, 10);
    let visible = field_of_view(&map, (4, 5), 0);
    assert_eq!(visible, vec![(4, 5)]);
}

#[test]
fn fov_stays_in_bounds_and_radius() {
    let mut map = SampleMap::new(8, 6);
    map.set_transparent(4, 3, false);
    let visible = field_of_view(&map, (6, 2), 5);
    for (x, y) in visible {
        assert!(0 <= x && x < 8);
        assert!(0 <= y && y < 6);
        assert!((x - 6).abs() <= 5);
        assert!((y - 2).abs() <= 5);
    }
}

#[test]
fn fov_has_no_duplicates_and_contains_origin() {
    let mut map = SampleMap::new(12, 12);
    map.set_transparent(5, 5, false);
    map.set_transparent(6, 5, false);
    let visible = field_of_view(&map, (3, 4), 6);
    assert!(visible.contains(&(3, 4)));
    let mut sorted = visible.clone();
    sorted.sort();
    sorted.dedup();
    assert_eq!(sorted.len(), visible.len());
}

#[test]
fn fov_open_map_is_circle_bounded_box() {
    // on a fully open map the visible set is the clipped bounding box with
    // the corners rounded off by the boundary circle
    let map = SampleMap::new(9, 9);
    let mut visible = field_of_view(&map, (4, 4), 3);
    visible.sort();
    let outside_circle = [
        (1, 1),
        (1, 2),
        (1, 6),
        (1, 7),
        (2, 1),
        (2, 7),
        (6, 1),
        (6, 7),
        (7, 1),
        (7, 2),
        (7, 6),
        (7, 7),
    ];
    let mut expected = Vec::new();
    for y in 1..8 {
        for x in 1..8 {
            if !outside_circle.contains(&(x, y)) {
                expected.push((x, y));
            }
        }
    }
    expected.sort();
    assert_eq!(visible, expected);
}

#[test]
fn fov_collapsed_box_is_empty() {
    // an origin in a one-row map collapses the scan box
    let map = SampleMap::new(10, 1);
    let visible = field_of_view(&map, (5, 0), 3);
    assert!(visible.is_empty());
}

#[test]
fn fov_wall_blocks_but_is_visible() {
    let mut map = SampleMap::new(11, 11);
    for y in 0..11 {
        if y != 20 {
            map.set_transparent(7, y, false);
        }
    }
    let visible = field_of_view(&map, (5, 5), 4);
    // the wall cells in range are seen
    assert!(visible.contains(&(7, 5)));
    // nothing behind the wall on the same row is seen
    assert!(!visible.contains(&(8, 5)));
    assert!(!visible.contains(&(9, 5)));
}
