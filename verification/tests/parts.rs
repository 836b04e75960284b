use std::cell::RefCell;
use watershed::colour_map::make_colour_map;
use watershed::decimal::append_decimal;
use watershed::flooding::{
    colour_pixels, coloured_neighbours, find_px, flood, flood_round, flood_round_with, pick_colour,
    window_colour, Step,
};
use watershed::grid::{Canvas, Image};
use watershed::lakes::{colour_range, count_lakes, UNCOLOURED};
use watershed::levels::{
    sample_level, window_minimum, WatershedUtils, ALWAYS_FILL, NEVER_FILL, NORMAL_MAX,
};
use watershed::merging::{find_merge, identity_map, merge_touching, recolour, window_merger};
use watershed::neighbours::{neighbours_4con, neighbours_8con};
use watershed::prelude::TransformBuilder;
use watershed::sorted::sort_and_dedup;
use watershed::transform::{draw_colours, paint_seeds};
use watershed::window::{cell, edge_values, outer_values};

fn canvas(rows: usize, columns: usize, colours: &[usize]) -> Canvas {
    let mut at: Vec<(usize, usize)> = Vec::new();
    for i in 0..rows {
        for j in 0..columns {
            at.push((i, j));
        }
    }
    paint_seeds((rows, columns), &at, &colours.to_vec())
}

fn image(rows: usize, columns: usize, levels: &[u8]) -> Image {
    Image::from_shape_vec((rows, columns), levels.to_vec()).unwrap()
}

#[test]
fn neighbours_that_share_an_edge() {
    assert_eq!(neighbours_4con(&(1, 1)), vec![(2, 1), (1, 2), (1, 0), (0, 1)]);
    assert_eq!(neighbours_4con(&(0, 0)), vec![(1, 0), (0, 1)]);
    assert_eq!(neighbours_4con(&(0, 5)), vec![(1, 5), (0, 6), (0, 4)]);
}

#[test]
fn neighbours_all_around() {
    assert_eq!(
        neighbours_8con(&(1, 1)),
        vec![(2, 1), (2, 2), (2, 0), (1, 2), (1, 0), (0, 1), (0, 2), (0, 0)]
    );
    assert_eq!(neighbours_8con(&(0, 0)), vec![(1, 0), (1, 1), (0, 1)]);
}

#[test]
fn values_of_a_window() {
    let window: Vec<u8> = vec![0, 1, 2, 3, 4, 5, 6, 7, 8];
    assert_eq!(cell(&window, (1, 1)), 4);
    assert_eq!(cell(&window, (2, 0)), 6);
    assert_eq!(edge_values(&window), vec![7, 5, 3, 1]);
    assert_eq!(outer_values(&window), vec![7, 8, 6, 5, 3, 1, 2, 0]);
}

#[test]
fn sorting_removes_repeats() {
    let mut items: Vec<usize> = vec![3, 1, 3, 2, 1, 9];
    sort_and_dedup(&mut items);
    assert_eq!(items, vec![1, 2, 3, 9]);
    let mut none: Vec<usize> = vec![];
    sort_and_dedup(&mut none);
    assert!(none.is_empty());
}

#[test]
fn an_image_takes_as_many_levels_as_it_has_pixels() {
    let img = image(2, 3, &[1, 2, 3, 4, 5, 6]);
    assert_eq!(img.dim(), (2, 3));
    assert!(Image::from_shape_vec((2, 3), vec![1, 2, 3, 4, 5]).is_none());
    assert!(Image::from_shape_vec((2, 3), vec![0; 7]).is_none());
    assert!(Image::from_shape_vec((0, 3), vec![]).is_some());
    assert!(Image::from_shape_vec((0, usize::MAX), vec![]).is_none());
}

#[test]
fn seeds_are_painted_in_order() {
    let painted = paint_seeds((2, 3), &[(0, 1), (1, 2), (0, 1)], &vec![4, 5, 6]);
    assert_eq!(painted.dim(), (2, 3));
    assert_eq!(painted.to_vec(), vec![0, 6, 0, 0, 0, 5]);
}

#[test]
fn drawn_colours_are_a_permutation() {
    let mut moved = false;
    for _ in 0..20 {
        let colours = draw_colours(40);
        let mut sorted = colours.clone();
        sorted.sort();
        assert_eq!(sorted, (1..=40).collect::<Vec<usize>>());
        moved = moved || colours != sorted;
    }
    assert!(moved);
    assert!(draw_colours(0).is_empty());
}

#[test]
fn a_draw_decides_between_colours() {
    assert_eq!(pick_colour(&vec![7, 7, 7], 2), 7);
    assert_eq!(pick_colour(&vec![7, 8, 9], 0), 7);
    assert_eq!(pick_colour(&vec![7, 8, 9], 2), 9);
}

#[test]
fn coloured_neighbours_are_in_order() {
    assert_eq!(coloured_neighbours(&vec![9, 1, 9, 0, 9, 3, 9, 4, 9]), vec![4, 3, 1]);
    assert!(coloured_neighbours(&vec![1, 0, 1, 0, 1, 0, 1, 0, 1]).is_empty());
}

#[test]
fn a_window_fills_from_the_edge_only() {
    let low: Vec<u8> = vec![9, 9, 9, 9, 5, 9, 9, 9, 9];
    assert_eq!(window_colour(&vec![0, 0, 0, 2, 0, 0, 0, 0, 0], &low, 5), Some(2));
    assert_eq!(window_colour(&vec![0, 0, 0, 2, 0, 0, 0, 0, 0], &low, 4), None);
    assert_eq!(window_colour(&vec![0, 0, 0, 2, 1, 0, 0, 0, 0], &low, 5), None);
    assert_eq!(window_colour(&vec![2, 0, 2, 0, 0, 0, 2, 0, 2], &low, 5), None);
}

#[test]
fn chance_decides_between_lakes() {
    let low: Vec<u8> = vec![0; 9];
    let window: Vec<usize> = vec![0, 0, 0, 3, 0, 8, 0, 0, 0];
    let mut three = false;
    let mut eight = false;
    for _ in 0..200 {
        match window_colour(&window, &low, 0) {
            Some(3) => three = true,
            Some(8) => eight = true,
            other => panic!("{:?}", other),
        }
    }
    assert!(three && eight);
}

#[test]
fn pixels_that_water_flows_onto() {
    let img = image(4, 4, &[0, 0, 0, 0, 0, 0, 1, 0, 0, 2, 3, 0, 0, 0, 0, 0]);
    let cols = paint_seeds((4, 4), &[(1, 1)], &vec![1]);
    assert!(find_px(&img, &cols, 0).is_empty());
    assert_eq!(find_px(&img, &cols, 1), vec![((1, 2), 1)]);
    let mut both = find_px(&img, &cols, 2);
    both.sort();
    assert_eq!(both, vec![((1, 2), 1), ((2, 1), 1)]);
    let small = image(2, 5, &[0; 10]);
    let wet = paint_seeds((2, 5), &[(0, 2)], &vec![1]);
    assert!(find_px(&small, &wet, 9).is_empty());
}

#[test]
fn colouring_changes_the_listed_pixels() {
    let mut cols = canvas(2, 2, &[1, 2, 3, 4]);
    colour_pixels(&mut cols, &vec![((0, 1), 8), ((1, 0), 9)]);
    assert_eq!(cols.to_vec(), vec![1, 8, 9, 4]);
}

#[test]
fn a_flood_covers_a_plateau_but_not_the_ring() {
    let img = image(4, 5, &[3; 20]);
    let mut cols = paint_seeds((4, 5), &[(1, 1)], &vec![1]);
    flood(&img, &mut cols, 2);
    assert_eq!(cols.to_vec().iter().filter(|&&c| c == 1).count(), 1);
    flood(&img, &mut cols, 3);
    assert_eq!(
        cols.to_vec(),
        vec![0, 0, 0, 0, 0, 0, 1, 1, 1, 0, 0, 1, 1, 1, 0, 0, 0, 0, 0, 0]
    );
}

#[test]
fn a_flood_stops_at_a_ridge() {
    let img = image(3, 7, &[0, 0, 0, 0, 0, 0, 0, 0, 0, 0, 9, 0, 0, 0, 0, 0, 0, 0, 0, 0, 0]);
    let mut cols = paint_seeds((3, 7), &[(1, 1)], &vec![1]);
    flood(&img, &mut cols, 8);
    assert_eq!(cols.to_vec()[7..14], [0, 1, 1, 0, 0, 0, 0]);
    flood(&img, &mut cols, 9);
    assert_eq!(cols.to_vec()[7..14], [0, 1, 1, 1, 1, 1, 0]);
}

#[test]
fn colours_that_meet_at_a_window() {
    assert_eq!(window_merger(&vec![0, 5, 0, 2, 3, 0, 0, 5, 0]), Some(vec![2, 3, 5]));
    assert_eq!(window_merger(&vec![0, 3, 0, 3, 3, 0, 0, 3, 0]), None);
    assert_eq!(window_merger(&vec![0, 5, 0, 2, 0, 0, 0, 5, 0]), None);
    assert_eq!(window_merger(&vec![5, 0, 5, 0, 3, 0, 5, 0, 5]), None);
}

#[test]
fn mergers_of_a_canvas() {
    let cols = canvas(3, 5, &[0, 0, 0, 0, 0, 0, 1, 1, 2, 0, 0, 0, 0, 3, 0]);
    let mut mergers = find_merge(&cols);
    mergers.sort();
    assert_eq!(mergers, vec![vec![1, 2], vec![1, 2, 3]]);
    assert!(find_merge(&canvas(3, 3, &[1, 2, 3, 4, 0, 5, 6, 7, 8])).is_empty());
}

#[test]
fn neighbouring_mergers_make_one_region() {
    let mut map: Vec<usize> = (0..7).collect();
    make_colour_map(&mut map, vec![vec![1, 2, 3], vec![2, 4, 5]]);
    assert_eq!(map, vec![0, 1, 1, 1, 1, 1, 6]);
}

#[test]
fn chained_mergers_make_one_region() {
    let mut map: Vec<usize> = (0..6).collect();
    make_colour_map(&mut map, vec![vec![1, 2], vec![2, 3], vec![3, 4], vec![4, 5]]);
    assert_eq!(map, vec![0, 1, 1, 1, 1, 1]);
}

#[test]
fn the_order_of_mergers_makes_no_difference() {
    let mergers: Vec<Vec<usize>> = vec![vec![4, 5], vec![1, 2], vec![7, 8], vec![3, 4], vec![2, 3]];
    let mut map: Vec<usize> = (0..10).collect();
    make_colour_map(&mut map, mergers.clone());
    assert_eq!(map, vec![0, 1, 1, 1, 1, 1, 6, 7, 7, 9]);
    let mut other: Vec<usize> = (0..10).collect();
    make_colour_map(&mut other, mergers.into_iter().rev().collect());
    assert_eq!(map, other);
}

#[test]
fn colours_without_mergers_keep_their_entry() {
    let mut map: Vec<usize> = vec![0, 9, 8, 7, 6];
    make_colour_map(&mut map, vec![vec![3, 2], vec![]]);
    assert_eq!(map, vec![0, 9, 2, 2, 6]);
}

#[test]
fn a_region_takes_a_colour_that_stays() {
    let mut map: Vec<usize> = (0..8).collect();
    make_colour_map(&mut map, vec![vec![6, 3], vec![3, 7]]);
    for c in [3, 6, 7] {
        assert_eq!(map[c], 3);
        assert_eq!(map[map[c]], map[c]);
    }
}

#[test]
fn recolouring_looks_up_each_pixel() {
    let mut cols = canvas(2, 3, &[0, 1, 2, 2, 1, 0]);
    recolour(&mut cols, vec![0, 7, 5]);
    assert_eq!(cols.to_vec(), vec![0, 7, 5, 5, 7, 0]);
    assert_eq!(identity_map(3), vec![0, 1, 2, 3]);
}

#[test]
fn lakes_that_touch_become_one() {
    let mut cols = canvas(3, 8, &[
        0, 0, 0, 0, 0, 0, 0, 0, //
        0, 4, 2, 5, 0, 3, 3, 0, //
        0, 0, 0, 0, 0, 0, 0, 0,
    ]);
    merge_touching(&mut cols, 5);
    assert_eq!(cols.to_vec()[8..16], [0, 2, 2, 2, 0, 3, 3, 0]);
    assert!(find_merge(&cols).is_empty());
}

#[test]
fn lakes_that_do_not_touch_stay() {
    let mut cols = canvas(3, 5, &[0, 0, 0, 0, 0, 0, 2, 0, 1, 0, 0, 0, 0, 0, 0]);
    merge_touching(&mut cols, 2);
    assert_eq!(cols.to_vec()[5..10], [0, 2, 0, 1, 0]);
}

#[test]
fn lake_sizes() {
    let cols = canvas(2, 4, &[0, 3, 3, 1, 3, 0, 0, 0]);
    let sizes = count_lakes(&cols, 5);
    assert_eq!(sizes, vec![4, 1, 0, 3, 0]);
    assert_eq!(sizes.iter().sum::<usize>(), 8);
    assert_eq!(UNCOLOURED, 0);
}

#[test]
fn levels_of_samples() {
    assert_eq!(sample_level(Some(17), false, false), 17);
    assert_eq!(sample_level(None, true, true), ALWAYS_FILL);
    assert_eq!(sample_level(None, true, false), NEVER_FILL);
    assert_eq!(sample_level(None, false, false), NEVER_FILL);
    assert_eq!(sample_level(None, false, true), NEVER_FILL);
    assert_eq!((ALWAYS_FILL, NORMAL_MAX, NEVER_FILL), (0, 254, 255));
}

#[test]
fn local_minima_are_lower_than_their_surroundings() {
    assert!(window_minimum(&vec![2, 2, 2, 2, 1, 2, 2, 2, 2]));
    assert!(!window_minimum(&vec![1, 2, 2, 2, 1, 2, 2, 2, 2]));
    assert!(!window_minimum(&vec![1, 1, 1, 1, 2, 1, 1, 1, 1]));
    let utils = TransformBuilder::new_merging().build().unwrap();
    let img = image(5, 6, &[
        9, 9, 9, 9, 9, 9, //
        9, 3, 9, 9, 9, 9, //
        9, 9, 9, 9, 4, 9, //
        9, 5, 5, 9, 9, 9, //
        9, 9, 9, 9, 9, 0,
    ]);
    let mut minima = utils.find_local_minima(&img);
    minima.sort();
    assert_eq!(minima, vec![(1, 1), (2, 4)]);
    assert!(utils.find_local_minima(&image(2, 2, &[1, 2, 3, 4])).is_empty());
}

#[test]
fn a_flood_goes_round_by_round() {
    let img = image(3, 6, &[3; 18]);
    let mut cols = paint_seeds((3, 6), &[(1, 1)], &vec![1]);
    assert!(!flood_round(&img, &mut cols, 2));
    assert_eq!(cols.to_vec()[6..12], [0, 1, 0, 0, 0, 0]);
    let steps: RefCell<Vec<Step>> = RefCell::new(vec![]);
    let observe = |step: Step| steps.borrow_mut().push(step);
    assert!(flood_round_with(&img, &mut cols, 3, &observe));
    assert_eq!(cols.to_vec()[6..12], [0, 1, 1, 0, 0, 0]);
    assert!(flood_round(&img, &mut cols, 3));
    assert!(flood_round(&img, &mut cols, 3));
    assert_eq!(cols.to_vec()[6..12], [0, 1, 1, 1, 1, 0]);
    assert!(!flood_round_with(&img, &mut cols, 3, &observe));
    assert_eq!(*steps.borrow(), vec![Step::Search, Step::Colour, Step::Search]);
}

#[test]
fn repeated_and_turned_mergers_make_no_difference() {
    let mut map: Vec<usize> = (0..7).collect();
    make_colour_map(&mut map, vec![vec![1, 2, 3], vec![3, 5]]);
    let mut other: Vec<usize> = (0..7).collect();
    make_colour_map(&mut other, vec![vec![5, 3, 3], vec![3, 1, 2], vec![3, 5], vec![2, 1, 3]]);
    assert_eq!(map, vec![0, 1, 1, 1, 4, 1, 6]);
    assert_eq!(map, other);
}

#[test]
fn the_range_of_colours_holds_the_uncoloured() {
    assert_eq!(colour_range(&vec![4, 2, 7, 3]), (0, 7));
    assert_eq!(colour_range(&vec![]), (0, 0));
}

#[test]
fn numbers_are_written_out() {
    for n in 0..=255u8 {
        let mut text = format!("<");
        append_decimal(&mut text, n);
        assert_eq!(text, format!("<{n}"));
    }
}
