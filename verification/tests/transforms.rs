use std::cell::RefCell;
use watershed::builder::{BuildError, TransformBuilder};
use watershed::flooding::{flood, Step};
use watershed::grid::Image;
use watershed::levels::{WatershedUtils, NEVER_FILL, NORMAL_MAX};
use watershed::merging::find_merge;
use watershed::neighbours::{neighbours_4con, neighbours_8con};
use watershed::transform::{draw_colours, paint_seeds, raise, raise_with, Watershed};

fn image(rows: usize, columns: usize, levels: &[u8]) -> Image {
    Image::from_shape_vec((rows, columns), levels.to_vec()).unwrap()
}

/// Two basins with a ridge of level three between them.
fn two_basins() -> Image {
    image(3, 7, &[
        9, 9, 9, 9, 9, 9, 9, //
        9, 0, 1, 3, 1, 0, 9, //
        9, 9, 9, 9, 9, 9, 9,
    ])
}

#[test]
fn segmenting_keeps_two_basins_apart() {
    let watershed = TransformBuilder::new_segmenting().set_max_water_lvl(5).build().unwrap();
    let levels = watershed.transform(&two_basins(), &[(1, 1), (1, 5)]);
    assert_eq!(levels.len(), 5);
    assert_eq!(levels[0], (0, vec![19, 1, 1, 0]));
    assert_eq!(levels[1], (1, vec![17, 2, 2, 0]));
    assert_eq!(levels[2], (2, vec![17, 2, 2, 0]));
    for l in [3, 4] {
        let (level, mut sizes) = levels[l].clone();
        assert_eq!(level as usize, l);
        assert_eq!(sizes.len(), 4);
        assert_eq!((sizes[0], sizes[3]), (16, 0));
        sizes[1..3].sort();
        assert_eq!(sizes[1..3], [2, 3]);
    }
    assert_eq!(levels[3].1, levels[4].1);
}

#[test]
fn merging_joins_two_basins_at_the_ridge() {
    let watershed = TransformBuilder::new_merging().set_max_water_lvl(4).build().unwrap();
    let levels = watershed.transform(&two_basins(), &[(1, 1), (1, 5)]);
    assert_eq!(
        levels,
        vec![
            (0, vec![19, 1, 1, 0]),
            (1, vec![17, 2, 2, 0]),
            (2, vec![17, 2, 2, 0]),
            (3, vec![16, 5, 0, 0]),
        ]
    );
}

#[test]
fn a_lake_that_touches_none_outlives_a_merger() {
    let img = image(3, 9, &[
        9, 9, 9, 9, 9, 9, 9, 9, 9, //
        9, 0, 0, 9, 0, 8, 8, 0, 9, //
        9, 9, 9, 9, 9, 9, 9, 9, 9,
    ]);
    for _ in 0..30 {
        let watershed = TransformBuilder::new_merging().set_max_water_lvl(9).build().unwrap();
        let levels = watershed.transform(&img, &[(1, 1), (1, 4), (1, 7)]);
        let mut sizes = levels[8].1.clone();
        assert_eq!(sizes.len(), 5);
        assert_eq!(sizes[0], 21);
        sizes.remove(0);
        sizes.sort();
        assert_eq!(sizes, vec![0, 0, 2, 4]);
    }
}

#[test]
fn a_transform_without_seeds_counts_dry_pixels() {
    let watershed = TransformBuilder::new_merging().set_max_water_lvl(2).build().unwrap();
    let levels = watershed.transform(&two_basins(), &[]);
    assert_eq!(levels, vec![(0, vec![21, 0]), (1, vec![21, 0])]);
}

#[test]
fn a_pixel_that_is_a_seed_twice_has_one_lake() {
    let watershed = TransformBuilder::new_segmenting().set_max_water_lvl(1).build().unwrap();
    let (level, mut sizes) = watershed.transform(&two_basins(), &[(1, 1), (1, 1)]).remove(0);
    assert_eq!(level, 0);
    assert_eq!(sizes[0], 20);
    sizes.sort();
    assert_eq!(sizes, vec![0, 0, 1, 20]);
}

fn bumpy() -> Image {
    let levels: Vec<u8> = (0..12 * 11).map(|k: usize| ((k * 37 + k / 7 * 13) % 29) as u8).collect();
    image(12, 11, &levels)
}

#[test]
fn sizes_add_up_at_each_level() {
    for builder in [TransformBuilder::new_segmenting(), TransformBuilder::new_merging()] {
        let watershed = builder.set_max_water_lvl(30).build().unwrap();
        let seeds = watershed.find_local_minima(&bumpy());
        assert!(seeds.len() > 1);
        for (_, sizes) in watershed.transform(&bumpy(), &seeds) {
            assert_eq!(sizes.iter().sum::<usize>(), 12 * 11);
            assert_eq!(sizes.len(), seeds.len() + 2);
            assert_eq!(sizes[seeds.len() + 1], 0);
        }
    }
}

#[test]
fn the_water_does_not_depend_on_chance() {
    let merging = TransformBuilder::new_merging().set_max_water_lvl(30).build().unwrap();
    let segmenting = TransformBuilder::new_segmenting().set_max_water_lvl(30).build().unwrap();
    let seeds = merging.find_local_minima(&bumpy());
    let dry = |watershed: &dyn Watershed| -> Vec<usize> {
        watershed.transform(&bumpy(), &seeds).iter().map(|(_, sizes)| sizes[0]).collect()
    };
    let first = dry(&*merging);
    assert_eq!(first, dry(&*merging));
    assert_eq!(first, dry(&*segmenting));
    for l in 1..30 {
        assert!(first[l] <= first[l - 1]);
    }
    assert!(first[29] < first[0]);
}

#[test]
fn segmented_lakes_only_grow() {
    let watershed = TransformBuilder::new_segmenting().set_max_water_lvl(30).build().unwrap();
    let seeds = watershed.find_local_minima(&bumpy());
    let levels = watershed.transform(&bumpy(), &seeds);
    for l in 0..30 {
        for c in 1..=seeds.len() {
            assert!(levels[l].1[c] > 0);
            assert!(l == 0 || levels[l - 1].1[c] <= levels[l].1[c]);
        }
    }
}

#[test]
fn merged_lakes_do_not_come_back() {
    let watershed = TransformBuilder::new_merging().set_max_water_lvl(30).build().unwrap();
    let seeds = watershed.find_local_minima(&bumpy());
    let levels = watershed.transform(&bumpy(), &seeds);
    let mut lakes = seeds.len();
    for l in 1..30 {
        for c in 1..=seeds.len() {
            assert!(levels[l - 1].1[c] > 0 || levels[l].1[c] == 0);
        }
        let left = levels[l].1[1..].iter().filter(|&&size| size > 0).count();
        assert!(left <= lakes);
        lakes = left;
    }
    assert_eq!(lakes, 1);
}

#[test]
fn merged_sizes_do_not_depend_on_chance() {
    let watershed = TransformBuilder::new_merging().set_max_water_lvl(30).build().unwrap();
    let seeds = watershed.find_local_minima(&bumpy());
    let sizes = || -> Vec<Vec<usize>> {
        let levels = watershed.transform(&bumpy(), &seeds);
        levels
            .iter()
            .map(|(_, sizes)| {
                let mut lakes = sizes[1..].to_vec();
                lakes.sort();
                lakes
            })
            .collect()
    };
    let first = sizes();
    for _ in 0..20 {
        assert_eq!(first, sizes());
    }
}

/// The number of pixels that water of the same colour connects to `from`.
fn piece(canvas: &[usize], rows: usize, columns: usize, from: (usize, usize)) -> usize {
    let inner = |p: &(usize, usize)| {
        1 <= p.0 && p.0 + 1 < rows && 1 <= p.1 && p.1 + 1 < columns
    };
    let mut seen = vec![from];
    let mut next = 0;
    while next < seen.len() {
        let p = seen[next];
        next += 1;
        for q in neighbours_4con(&p) {
            if q.0 < rows
                && q.1 < columns
                && (inner(&p) || inner(&q))
                && canvas[q.0 * columns + q.1] == canvas[p.0 * columns + p.1]
                && !seen.contains(&q)
            {
                seen.push(q);
            }
        }
    }
    seen.len()
}

#[test]
fn lakes_are_in_one_piece() {
    let img = bumpy();
    let utils = TransformBuilder::new_segmenting().build().unwrap();
    let seeds = utils.find_local_minima(&img);
    for merging in [false, true] {
        let mut canvas = paint_seeds(img.dim(), &seeds, &draw_colours(seeds.len()));
        for lvl in 0..30 {
            let sizes = raise(&img, &mut canvas, lvl, merging, seeds.len());
            let colours = canvas.to_vec();
            for k in 0..colours.len() {
                if colours[k] != 0 {
                    assert_eq!(piece(&colours, 12, 11, (k / 11, k % 11)), sizes[colours[k]]);
                }
            }
        }
    }
}

#[test]
fn minima_lie_apart() {
    let utils = TransformBuilder::new_merging().build().unwrap();
    let minima = utils.find_local_minima(&bumpy());
    for p in &minima {
        assert!(neighbours_8con(p).iter().all(|q| !minima.contains(q)));
    }
}

#[test]
fn merging_leaves_no_lakes_that_touch() {
    let img = bumpy();
    let utils = TransformBuilder::new_merging().build().unwrap();
    let seeds = utils.find_local_minima(&img);
    let mut canvas = paint_seeds(img.dim(), &seeds, &draw_colours(seeds.len()));
    for lvl in 0..30 {
        raise(&img, &mut canvas, lvl, true, seeds.len());
        assert!(find_merge(&canvas).is_empty());
    }
}

#[test]
fn a_flood_keeps_the_colours_of_water() {
    let img = bumpy();
    let mut canvas = paint_seeds(img.dim(), &[(2, 2), (0, 0), (9, 8)], &vec![3, 1, 2]);
    let before = canvas.to_vec();
    flood(&img, &mut canvas, 28);
    for (old, new) in before.iter().zip(canvas.to_vec()) {
        assert!(*old == 0 || *old == new);
    }
    assert_eq!(canvas.to_vec()[0], 1);
}

#[test]
fn a_pixel_that_is_never_filled_stays_dry() {
    let img = image(3, 5, &[
        0, 0, 0, 0, 0, //
        0, 0, NEVER_FILL, 0, 0, //
        0, 0, 0, 0, 0,
    ]);
    let watershed = TransformBuilder::new_merging().set_max_water_lvl(255).build().unwrap();
    let levels = watershed.transform(&img, &[(1, 1)]);
    assert_eq!(levels.len(), 255);
    assert_eq!(levels[254], (254, vec![14, 1, 0]));
}

#[test]
fn one_level_at_a_time() {
    let img = two_basins();
    let colours = draw_colours(2);
    let mut canvas = paint_seeds(img.dim(), &[(1, 1), (1, 5)], &colours);
    assert_eq!(raise(&img, &mut canvas, 1, true, 2), vec![17, 2, 2, 0]);
    assert_eq!(raise(&img, &mut canvas, 3, true, 2), vec![16, 5, 0, 0]);
    assert_eq!(canvas.to_vec()[7..14], [0, 1, 1, 1, 1, 1, 0]);
}

#[test]
fn builders() {
    let merging = TransformBuilder::new_merging();
    assert!(merging.merges_lakes());
    assert_eq!(merging.max_water_level(), NORMAL_MAX);
    let built = merging.build().unwrap();
    assert_eq!(built.transform(&two_basins(), &[(1, 1), (1, 5)]).len(), 254);
    let segmenting = TransformBuilder::new_segmenting().set_max_water_lvl(3).clone();
    assert!(!segmenting.merges_lakes());
    assert_eq!(segmenting.max_water_level(), 3);
    assert_eq!(segmenting.build().unwrap().transform(&two_basins(), &[]).len(), 3);
    let default = TransformBuilder::default();
    assert!(default.merges_lakes());
    assert_eq!(default.max_water_level(), 0);
    assert!(default.build().unwrap().transform(&two_basins(), &[(1, 1)]).is_empty());
    assert!(TransformBuilder::new_merging().set_max_water_lvl(255).build().is_ok());
}

#[test]
fn builders_of_transforms_that_plot() {
    let seeds = [(1, 1), (1, 5)];
    let merging = TransformBuilder::new_merging().set_max_water_lvl(4);
    let built = merging.build_plotting(true, true).unwrap();
    assert_eq!(built.transform(&two_basins(), &seeds)[3].1, vec![16, 5, 0, 0]);
    let segmenting = TransformBuilder::new_segmenting().set_max_water_lvl(4);
    let built = segmenting.build_plotting(true, true).unwrap();
    assert_ne!(built.transform(&two_basins(), &seeds)[3].1, vec![16, 5, 0, 0]);
    let error = |lvl: u8, folder: bool, map: bool| {
        TransformBuilder::new_segmenting().set_max_water_lvl(lvl).build_plotting(folder, map).err()
    };
    assert_eq!(error(255, false, false), Some(BuildError::WaterLevelTooHigh(255)));
    assert_eq!(error(254, false, false), Some(BuildError::NoPlotFolder));
    assert_eq!(error(254, true, false), Some(BuildError::NoColourMap));
    assert_eq!(error(254, true, true), None);
}

#[test]
fn messages_of_build_errors() {
    assert_eq!(
        BuildError::WaterLevelTooHigh(255).message(),
        "Max water level was set at 255, which is higher than the allowed maximum (254)."
    );
    assert_eq!(
        BuildError::NoPlotFolder.message(),
        "Cannot configure watershed transform to plot without specifying an output path for the plots. Please disable the `plots` feature or specify an output path."
    );
    assert_eq!(
        BuildError::NoColourMap.message(),
        "No colour map to be used for plotting of watershed transform was specified. This is a library bug."
    );
}

#[test]
fn the_order_of_the_seeds_makes_no_difference_to_the_water() {
    let watershed = TransformBuilder::new_merging().set_max_water_lvl(30).build().unwrap();
    let seeds = watershed.find_local_minima(&bumpy());
    let mut other: Vec<(usize, usize)> = seeds.iter().rev().copied().collect();
    other.push(seeds[0]);
    let levels = watershed.transform(&bumpy(), &seeds);
    let other_levels = watershed.transform(&bumpy(), &other);
    for l in 0..30 {
        assert_eq!(levels[l].1[0], other_levels[l].1[0]);
        let lakes = |sizes: &Vec<usize>| {
            let mut lakes: Vec<usize> = sizes[1..].iter().copied().filter(|&s| s > 0).collect();
            lakes.sort();
            lakes
        };
        assert_eq!(lakes(&levels[l].1), lakes(&other_levels[l].1));
    }
}

#[test]
fn levels_can_be_shifted() {
    let shifted: Vec<u8> =
        (0..12 * 11).map(|k: usize| ((k * 37 + k / 7 * 13) % 29) as u8 + 5).collect();
    let shifted = image(12, 11, &shifted);
    let watershed = TransformBuilder::new_segmenting().set_max_water_lvl(40).build().unwrap();
    let seeds = watershed.find_local_minima(&bumpy());
    let levels = watershed.transform(&bumpy(), &seeds);
    let other_levels = watershed.transform(&shifted, &seeds);
    for l in 0..35 {
        assert_eq!(levels[l].1[0], other_levels[l + 5].1[0]);
    }
}

#[test]
fn from_one_seed_both_transforms_agree() {
    let merging = TransformBuilder::new_merging().set_max_water_lvl(30).build().unwrap();
    let segmenting = TransformBuilder::new_segmenting().set_max_water_lvl(30).build().unwrap();
    let seeds = [(4, 5)];
    let levels = merging.transform(&bumpy(), &seeds);
    assert_eq!(levels, segmenting.transform(&bumpy(), &seeds));
    assert!(levels[29].1[1] > levels[0].1[1]);
    let shorter = TransformBuilder::new_segmenting().set_max_water_lvl(12).build().unwrap();
    assert_eq!(levels[..12].to_vec(), shorter.transform(&bumpy(), &seeds));
}

#[test]
fn the_water_of_a_level_is_what_the_seeds_reach() {
    let img = image(4, 6, &[
        0, 0, 0, 0, 0, 0, //
        0, 2, 1, 4, 2, 0, //
        0, 5, 5, 1, 2, 0, //
        0, 0, 0, 0, 0, 0,
    ]);
    let watershed = TransformBuilder::new_segmenting().set_max_water_lvl(6).build().unwrap();
    let dry: Vec<usize> =
        watershed.transform(&img, &[(1, 1)]).iter().map(|(_, sizes)| sizes[0]).collect();
    assert_eq!(dry, vec![23, 22, 22, 22, 18, 16]);
}

#[test]
fn a_rise_tells_of_its_steps() {
    let img = two_basins();
    for merging in [false, true] {
        let mut canvas = paint_seeds(img.dim(), &[(1, 1), (1, 5)], &vec![1, 2]);
        let steps: RefCell<Vec<Step>> = RefCell::new(vec![]);
        let observe = |step: Step| steps.borrow_mut().push(step);
        let sizes = raise_with(&img, &mut canvas, 1, merging, 2, &observe);
        assert_eq!(sizes, vec![17, 2, 2, 0]);
        let mut expected = vec![Step::Search, Step::Colour, Step::Search];
        if merging {
            expected.push(Step::Merge);
        }
        expected.push(Step::Count);
        assert_eq!(*steps.borrow(), expected);
    }
}

#[test]
fn a_shorter_run_is_the_start_of_a_longer_one() {
    let seeds = [(1, 1), (1, 5)];
    let short = TransformBuilder::new_merging().set_max_water_lvl(2).build().unwrap();
    let long = TransformBuilder::new_merging().set_max_water_lvl(7).build().unwrap();
    let levels = long.transform(&two_basins(), &seeds);
    assert_eq!(levels.len(), 7);
    assert_eq!(levels[..2].to_vec(), short.transform(&two_basins(), &seeds));
}
