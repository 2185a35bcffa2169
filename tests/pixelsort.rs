use std::ops::Range;

use pixelsort::interval::{
    intervals_from_image, mask, random, split_by_widths, split_equal, threshold, IntervalSet,
};
use pixelsort::options::{IntervalFunction, Rotation};
use pixelsort::raster::{GrayRaster, RgbaRaster};
use pixelsort::sorting::{chan_max, chan_min, intensity, lightness, SortingMode};
use pixelsort::{sort_by_keys, sort_image, SortError};

fn ranges(set: &IntervalSet) -> Vec<Range<usize>> {
    set.iter().to_vec()
}

fn gray(v: u8) -> [u8; 4] {
    [v, v, v, 255]
}

#[test]
fn new_holds_one_full_range() {
    let set = IntervalSet::new(10);
    assert_eq!(ranges(&set), vec![0..10]);
    assert_eq!(set.start(), 0);
    assert_eq!(set.end(), 10);
    assert_eq!(set.full_range(), 0..10);
}

#[test]
fn new_of_zero_is_empty() {
    let set = IntervalSet::new(0);
    assert!(ranges(&set).is_empty());
    assert_eq!(set.full_range(), 0..0);
}

#[test]
fn split_inside_a_range() {
    let mut set = IntervalSet::new(10);
    assert_eq!(set.split_at(4), Some((0, 1)));
    assert_eq!(ranges(&set), vec![0..4, 4..10]);
}

#[test]
fn split_at_a_boundary_changes_nothing() {
    let mut set = IntervalSet::new(10);
    set.split_at(4);
    assert_eq!(set.split_at(4), Some((1, 1)));
    assert_eq!(set.split_at(0), Some((0, 0)));
    assert_eq!(ranges(&set), vec![0..4, 4..10]);
}

#[test]
fn split_outside_returns_none() {
    let mut set = IntervalSet::new(10);
    assert_eq!(set.split_at(10), None);
    assert_eq!(set.split_at(25), None);
    set.remove_range(Some(3), Some(6));
    assert_eq!(set.split_at(4), None);
    assert_eq!(ranges(&set), vec![0..3, 6..10]);
}

#[test]
fn split_twice_same_as_once() {
    let mut once = IntervalSet::new(8);
    once.split_at(3);
    let mut twice = IntervalSet::new(8);
    twice.split_at(3);
    twice.split_at(3);
    assert_eq!(ranges(&once), ranges(&twice));
}

#[test]
fn split_every_point_concatenates_back() {
    let n: usize = 7;
    let mut set = IntervalSet::new(n);
    for p in 1..n {
        set.split_at(p);
    }
    let rs = ranges(&set);
    assert_eq!(rs.len(), n);
    assert_eq!(rs[0].start, 0);
    assert_eq!(rs[n - 1].end, n);
    for i in 0..n - 1 {
        assert_eq!(rs[i].end, rs[i + 1].start);
    }
}

#[test]
fn remove_range_leaves_two_ranges() {
    let mut set = IntervalSet::new(10);
    set.remove_range(Some(2), Some(5));
    assert_eq!(ranges(&set), vec![0..2, 5..10]);
}

#[test]
fn remove_range_over_a_gap_drops_enclosed_ranges() {
    let set_ranges = vec![0..2, 4..6, 8..10];
    let mut set = IntervalSet::from_vec(set_ranges);
    set.remove_range(Some(3), Some(7));
    assert_eq!(ranges(&set), vec![0..2, 8..10]);
    set.remove_range(Some(1), Some(9));
    assert_eq!(ranges(&set), vec![0..1, 9..10]);
}

#[test]
fn remove_empty_region_is_noop() {
    let mut set = IntervalSet::new(10);
    set.remove_range(Some(5), Some(5));
    set.remove_range(Some(20), Some(30));
    assert_eq!(ranges(&set), vec![0..10]);
}

#[test]
fn pop_index_in_and_out_of_bounds() {
    let mut set = IntervalSet::new(10);
    set.split_at(5);
    assert_eq!(set.pop_index(2), None);
    assert_eq!(set.pop_index(0), Some(0..5));
    assert_eq!(ranges(&set), vec![5..10]);
    assert_eq!(set.start(), 5);
}

#[test]
fn mask_keeps_white_runs() {
    let row = vec![255u8, 255, 0, 0, 255, 255, 255, 0, 0, 0];
    let m = GrayRaster::new(10, vec![row]).unwrap();
    let mut sets = vec![IntervalSet::new(10)];
    mask(&mut sets, &m);
    assert_eq!(ranges(&sets[0]), vec![0..2, 4..7]);
}

#[test]
fn mask_drops_unclosed_white_tail_and_leading_black() {
    let row = vec![0u8, 0, 255, 128, 0, 9, 255, 255];
    let m = GrayRaster::new(8, vec![row]).unwrap();
    let mut sets = vec![IntervalSet::new(8), IntervalSet::new(8)];
    mask(&mut sets, &m);
    assert_eq!(ranges(&sets[0]), vec![2..4]);
    assert_eq!(ranges(&sets[1]), vec![0..8]);
}

#[test]
fn mask_row_without_white_removes_all() {
    let m = GrayRaster::new(4, vec![vec![0u8, 0, 7, 0]]).unwrap();
    let mut sets = vec![IntervalSet::new(4)];
    mask(&mut sets, &m);
    assert!(ranges(&sets[0]).is_empty());
}

#[test]
fn threshold_keeps_lightness_in_range() {
    let row = vec![gray(10), gray(100), gray(120), gray(250), gray(5)];
    let img = RgbaRaster::new(5, vec![row]).unwrap();
    let mut sets = intervals_from_image(&img);
    threshold(&mut sets, &img, 50, 200);
    assert_eq!(ranges(&sets[0]), vec![1..3]);
}

#[test]
fn split_equal_splits_by_row_count() {
    let mut sets: Vec<IntervalSet> = (0..4).map(|_| IntervalSet::new(10)).collect();
    split_equal(&mut sets, 2);
    for set in &sets {
        assert_eq!(ranges(set), vec![0..2, 2..10]);
    }
}

#[test]
fn split_equal_with_as_many_parts_as_rows() {
    let mut sets: Vec<IntervalSet> = (0..3).map(|_| IntervalSet::new(10)).collect();
    split_equal(&mut sets, 3);
    for set in &sets {
        assert_eq!(ranges(set), vec![0..1, 1..2, 2..10]);
    }
}

#[test]
fn split_equal_with_too_many_parts_is_noop() {
    let mut sets: Vec<IntervalSet> = (0..3).map(|_| IntervalSet::new(10)).collect();
    split_equal(&mut sets, 4);
    split_equal(&mut sets, 0);
    for set in &sets {
        assert_eq!(ranges(set), vec![0..10]);
    }
}

#[test]
fn random_partition_covers_whole_row() {
    let mut sets: Vec<IntervalSet> = (0..5).map(|_| IntervalSet::new(50)).collect();
    random(&mut sets, 1, 6);
    let widest = sets
        .iter()
        .flat_map(|set| set.iter().iter().map(|r| r.end - r.start).collect::<Vec<_>>())
        .max()
        .unwrap();
    assert!(widest > 1);
    for set in &sets {
        let rs = ranges(set);
        assert_eq!(rs[0].start, 0);
        assert_eq!(rs[rs.len() - 1].end, 50);
        for i in 0..rs.len() - 1 {
            assert_eq!(rs[i].end, rs[i + 1].start);
        }
        for r in &rs[..rs.len() - 1] {
            assert!(r.end - r.start >= 1 && r.end - r.start < 6);
        }
        assert!(rs[rs.len() - 1].end - rs[rs.len() - 1].start < 6);
    }
}

#[test]
fn random_degenerate_bounds_do_nothing() {
    let mut sets = vec![IntervalSet::new(20)];
    random(&mut sets, 0, 0);
    random(&mut sets, 5, 5);
    random(&mut sets, 0, 4);
    assert_eq!(ranges(&sets[0]), vec![0..20]);
}

#[test]
fn sort_full_row_by_lightness() {
    let row = vec![gray(10), gray(40), gray(20), gray(30)];
    let mut img = RgbaRaster::new(4, vec![row]).unwrap();
    let sets = intervals_from_image(&img);
    assert_eq!(sort_image(&mut img, sets, SortingMode::Lightness), Ok(()));
    assert_eq!(img.rows[0], vec![gray(10), gray(20), gray(30), gray(40)]);
}

#[test]
fn sort_is_stable_for_equal_keys() {
    let row = vec![
        [50, 50, 50, 1],
        [50, 50, 50, 2],
        [50, 50, 50, 3],
        [50, 50, 50, 4],
        [50, 50, 50, 5],
    ];
    let mut img = RgbaRaster::new(5, vec![row.clone()]).unwrap();
    let sets = intervals_from_image(&img);
    assert_eq!(sort_image(&mut img, sets, SortingMode::Lightness), Ok(()));
    assert_eq!(img.rows[0], row);
}

#[test]
fn sort_touches_only_the_ranges() {
    let row = vec![gray(9), gray(8), gray(7), gray(6), gray(5), gray(4)];
    let mut img = RgbaRaster::new(6, vec![row.clone(), row]).unwrap();
    let mut set = IntervalSet::new(6);
    set.remove_range(Some(0), Some(1));
    set.remove_range(Some(3), Some(4));
    let sets = vec![set];
    assert_eq!(sort_image(&mut img, sets, SortingMode::Intensity), Ok(()));
    assert_eq!(img.rows[0], vec![gray(9), gray(7), gray(8), gray(6), gray(4), gray(5)]);
    assert_eq!(img.rows[1], vec![gray(9), gray(8), gray(7), gray(6), gray(5), gray(4)]);
}

#[test]
fn sort_rejects_range_past_width() {
    let row = vec![gray(3), gray(2), gray(1)];
    let mut img = RgbaRaster::new(3, vec![row.clone()]).unwrap();
    let sets = vec![IntervalSet::new(5)];
    assert_eq!(
        sort_image(&mut img, sets, SortingMode::Lightness),
        Err(SortError::OutOfBounds)
    );
    assert_eq!(img.rows[0], row);
}

#[test]
fn sort_ignores_rows_past_the_image() {
    let mut img = RgbaRaster::new(2, vec![vec![gray(2), gray(1)]]).unwrap();
    let sets = vec![IntervalSet::new(2), IntervalSet::new(9)];
    assert_eq!(sort_image(&mut img, sets, SortingMode::Lightness), Ok(()));
    assert_eq!(img.rows[0], vec![gray(1), gray(2)]);
}

#[test]
fn sort_keys_on_one_pixel() {
    let p = [10u8, 200, 30, 40];
    assert_eq!(intensity(&p), 280);
    assert_eq!(chan_min(&p), 10);
    assert_eq!(chan_max(&p), 200);
    assert_eq!(lightness(&[255, 0, 0, 255]), 54);
    assert_eq!(lightness(&[0, 0, 0, 0]), 0);
    assert_eq!(SortingMode::Minimum.function(&p), 10);
    assert_eq!(SortingMode::Maximum.function(&p), 200);
    assert_eq!(SortingMode::Intensity.function(&p), 280);
}

#[test]
fn raster_rejects_ragged_rows() {
    assert!(RgbaRaster::new(2, vec![vec![gray(1)]]).is_none());
    assert!(GrayRaster::new(1, vec![vec![1u8], vec![]]).is_none());
    assert_eq!(RgbaRaster::new(1, vec![vec![gray(1)]]).unwrap().height(), 1);
}

#[test]
fn rotation_from_degrees() {
    assert_eq!(Rotation::from_degrees(0), Some(Rotation::Zero));
    assert_eq!(Rotation::from_degrees(450), Some(Rotation::Quarter));
    assert_eq!(Rotation::from_degrees(-180), Some(Rotation::Half));
    assert_eq!(Rotation::from_degrees(-90), Some(Rotation::NegQuarter));
    assert_eq!(Rotation::from_degrees(45), None);
}

#[test]
fn names_select_modes() {
    assert_eq!(IntervalFunction::from_name("split"), Some(IntervalFunction::SplitEqual));
    assert_eq!(IntervalFunction::from_name("edge"), Some(IntervalFunction::Edges));
    assert_eq!(IntervalFunction::from_name("edges"), None);
    assert_eq!(SortingMode::from_name("maximum"), Some(SortingMode::Maximum));
    assert_eq!(SortingMode::from_name(""), None);
}

#[test]
fn sort_by_given_keys_is_stable() {
    let mut pixels = vec![gray(1), gray(2), gray(3), gray(4), gray(5)];
    let mut keys = vec![3u32, 1, 3, 0, 1];
    sort_by_keys(&mut pixels, &mut keys);
    assert_eq!(pixels, vec![gray(4), gray(2), gray(5), gray(1), gray(3)]);
    assert_eq!(keys, vec![0, 1, 1, 3, 3]);
}

#[test]
fn intervals_from_image_one_set_per_row() {
    let img = RgbaRaster::new(3, vec![vec![gray(0); 3]; 4]).unwrap();
    let sets = intervals_from_image(&img);
    assert_eq!(sets.len(), 4);
    for set in &sets {
        assert_eq!(ranges(set), vec![0..3]);
    }
}

#[test]
fn sort_by_minimum_and_maximum_channel() {
    let row = vec![[0u8, 0, 200, 0], [100, 100, 100, 100], [50, 60, 70, 80]];
    let mut img = RgbaRaster::new(3, vec![row.clone()]).unwrap();
    let sets = intervals_from_image(&img);
    assert_eq!(sort_image(&mut img, sets, SortingMode::Minimum), Ok(()));
    assert_eq!(img.rows[0], vec![[0, 0, 200, 0], [50, 60, 70, 80], [100, 100, 100, 100]]);
    let mut img = RgbaRaster::new(3, vec![row]).unwrap();
    let sets = intervals_from_image(&img);
    assert_eq!(sort_image(&mut img, sets, SortingMode::Maximum), Ok(()));
    assert_eq!(img.rows[0], vec![[50, 60, 70, 80], [100, 100, 100, 100], [0, 0, 200, 0]]);
}

#[test]
fn split_by_widths_splits_at_running_sums() {
    let mut set = IntervalSet::new(10);
    split_by_widths(&mut set, &vec![3, 4]);
    assert_eq!(ranges(&set), vec![0..3, 3..7, 7..10]);
    split_by_widths(&mut set, &vec![1, 2, 0, 20]);
    assert_eq!(ranges(&set), vec![0..1, 1..3, 3..7, 7..10]);
}

#[test]
fn remove_range_with_open_ends() {
    let mut set = IntervalSet::from_vec(vec![2..4, 6..9]);
    set.remove_range(Some(7), None);
    assert_eq!(ranges(&set), vec![2..4, 6..7]);
    set.remove_range(None, Some(3));
    assert_eq!(ranges(&set), vec![3..4, 6..7]);
    set.remove_range(None, None);
    assert!(ranges(&set).is_empty());
    assert_eq!(set.start(), 0);
    assert_eq!(set.end(), 0);
}
