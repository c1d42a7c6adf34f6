use blockflat::bound::Bound;
use blockflat::compressor::{flatten, Compressor};
use blockflat::partition::HeapItem;
use blockflat::raster::{Raster, RasterError};
use blockflat::stats::{compute_mean, compute_variance};

fn raster_from(width: usize, height: usize, pixels: Vec<u8>) -> Raster {
    Raster::new(width, height, pixels).unwrap()
}

/// A raster whose pixels vary in a fixed, irregular pattern.
fn patterned(width: usize, height: usize) -> Raster {
    let mut pixels = Vec::new();
    for y in 0..height {
        for x in 0..width {
            let v = (x * 37 + y * 91 + (x * y) % 13) as u8;
            pixels.extend_from_slice(&[v, v.wrapping_mul(3), 255 - v, (x * 17) as u8]);
        }
    }
    raster_from(width, height, pixels)
}

fn gray_row(values: &[u8]) -> Raster {
    let mut pixels = Vec::new();
    for &v in values {
        pixels.extend_from_slice(&[v, v, v, v]);
    }
    raster_from(values.len(), 1, pixels)
}

#[test]
fn uniform_input_nonzero_tolerance() {
    let mut pixels = Vec::new();
    for _ in 0..16 {
        pixels.extend_from_slice(&[10, 20, 30, 255]);
    }
    let input = pixels.clone();
    let (out, leaves) = flatten(raster_from(4, 4, pixels), 128);
    assert_eq!(leaves, 1);
    assert_eq!(out.pixels, input);
}

#[test]
fn zero_tolerance_exact_split() {
    let pixels = vec![
        255, 0, 0, 255, 0, 255, 0, 255, //
        0, 0, 255, 255, 255, 255, 255, 255,
    ];
    let input = pixels.clone();
    let mut c = Compressor::new(raster_from(2, 2, pixels));
    c.compress(0);
    assert_eq!(c.split_count(), 3);
    assert_eq!(c.leaf_count(), 4);
    for item in c.queue.iter() {
        assert_eq!(item.bound.x_max - item.bound.x_min, 1);
        assert_eq!(item.bound.y_max - item.bound.y_min, 1);
        assert_eq!(item.var, 0);
    }
    let out = c.reconstruct();
    assert_eq!(out.pixels, input);
}

#[test]
fn tolerance_saturation_gives_flat_mean() {
    let img = patterned(6, 5);
    let whole = Bound::new(0, 6, 0, 5);
    let score = compute_variance(&img, &whole);
    let mean = compute_mean(&img, &whole);
    let (out, leaves) = flatten(img, score);
    assert_eq!(leaves, 1);
    for p in out.pixels.chunks(4) {
        for k in 0..4 {
            assert_eq!(p[k] as u64, mean[k]);
        }
    }
}

#[test]
fn saturation_leaves_queue_untouched() {
    let img = patterned(3, 3);
    let score = compute_variance(&img, &Bound::new(0, 3, 0, 3));
    let mut c = Compressor::new(img);
    c.compress(score);
    assert_eq!(c.split_count(), 0);
    assert_eq!(c.leaf_count(), 1);
}

#[test]
fn determinism_of_flatten() {
    let a = flatten(patterned(9, 7), 500);
    let b = flatten(patterned(9, 7), 500);
    assert_eq!(a.0.pixels, b.0.pixels);
    assert_eq!(a.1, b.1);
}

#[test]
fn leaves_cover_every_pixel_once() {
    let (w, h) = (11, 6);
    let mut c = Compressor::new(patterned(w, h));
    c.compress(300);
    let mut claims = vec![0u32; w * h];
    for item in c.queue.iter() {
        let b = item.bound;
        assert!(b.x_min < b.x_max && b.y_min < b.y_max);
        assert!(b.x_max <= w && b.y_max <= h);
        for y in b.y_min..b.y_max {
            for x in b.x_min..b.x_max {
                claims[y * w + x] += 1;
            }
        }
    }
    assert!(claims.iter().all(|&n| n == 1));
}

#[test]
fn split_steps_are_bounded_by_area() {
    for tol in [0u64, 1, 100, 10_000] {
        let mut c = Compressor::new(patterned(7, 5));
        c.compress(tol);
        assert!(c.split_count() <= 7 * 5 - 1);
        assert_eq!(c.leaf_count(), c.split_count() + 1);
        assert!(c.queue.iter().all(|item| item.var <= tol));
    }
}

#[test]
fn zero_tolerance_reproduces_input() {
    let img = patterned(5, 4);
    let input = img.pixels.clone();
    let (out, _) = flatten(img, 0);
    assert_eq!(out.pixels, input);
}

#[test]
fn variance_score_exact_value() {
    let img = gray_row(&[0, 2]);
    assert_eq!(compute_mean(&img, &Bound::new(0, 2, 0, 1)), [1, 1, 1, 1]);
    assert_eq!(compute_variance(&img, &Bound::new(0, 2, 0, 1)), 8);
}

#[test]
fn mean_truncates() {
    let img = gray_row(&[0, 1, 1]);
    assert_eq!(compute_mean(&img, &Bound::new(0, 3, 0, 1)), [0, 0, 0, 0]);
    assert_eq!(compute_variance(&img, &Bound::new(0, 3, 0, 1)), 8);
}

#[test]
fn split_with_truncated_means_can_raise_score() {
    let img = gray_row(&[1, 2, 0, 1, 1]);
    let parent = compute_variance(&img, &Bound::new(0, 5, 0, 1));
    let left = compute_variance(&img, &Bound::new(0, 2, 0, 1));
    let right = compute_variance(&img, &Bound::new(2, 5, 0, 1));
    assert_eq!(parent, 8);
    assert_eq!(left + right, 12);
    assert!(left + right <= parent + 4 * 5);
}

#[test]
fn split_lowers_score_on_smooth_gradient() {
    let img = gray_row(&[0, 10, 20, 30, 40, 50, 60, 70]);
    let parent = compute_variance(&img, &Bound::new(0, 8, 0, 1));
    let left = compute_variance(&img, &Bound::new(0, 4, 0, 1));
    let right = compute_variance(&img, &Bound::new(4, 8, 0, 1));
    assert!(left + right <= parent);
}

#[test]
fn tie_between_axes_splits_vertically() {
    let mut pixels = Vec::new();
    for _ in 0..4 {
        pixels.extend_from_slice(&[7, 7, 7, 7]);
    }
    let mut c = Compressor::new(raster_from(2, 2, pixels));
    assert!(c.add_detail());
    let bounds: Vec<Bound> = c.queue.iter().map(|i| i.bound).collect();
    assert_eq!(bounds, vec![Bound::new(0, 1, 0, 2), Bound::new(1, 2, 0, 2)]);
}

#[test]
fn smaller_total_picks_horizontal_split() {
    let pixels = vec![
        0, 0, 0, 0, 0, 0, 0, 0, //
        200, 200, 200, 200, 200, 200, 200, 200,
    ];
    let mut c = Compressor::new(raster_from(2, 2, pixels));
    assert!(c.add_detail());
    let bounds: Vec<Bound> = c.queue.iter().map(|i| i.bound).collect();
    assert_eq!(bounds, vec![Bound::new(0, 2, 0, 1), Bound::new(0, 2, 1, 2)]);
}

#[test]
fn single_pixel_is_never_split() {
    let mut c = Compressor::new(raster_from(1, 1, vec![1, 2, 3, 4]));
    assert!(!c.add_detail());
    assert_eq!(c.leaf_count(), 1);
    assert_eq!(c.split_count(), 0);
}

#[test]
fn only_vertical_split_on_a_row() {
    let mut c = Compressor::new(gray_row(&[0, 100, 200]));
    assert!(c.add_detail());
    let bounds: Vec<Bound> = c.queue.iter().map(|i| i.bound).collect();
    assert_eq!(bounds, vec![Bound::new(0, 1, 0, 1), Bound::new(1, 3, 0, 1)]);
}

#[test]
fn largest_score_is_split_first() {
    let mut c = Compressor::new(gray_row(&[5, 5, 0, 250]));
    assert!(c.add_detail());
    assert!(c.add_detail());
    let bounds: Vec<Bound> = c.queue.iter().map(|i| i.bound).collect();
    assert!(bounds.contains(&Bound::new(0, 2, 0, 1)));
    assert!(bounds.contains(&Bound::new(2, 3, 0, 1)));
    assert!(bounds.contains(&Bound::new(3, 4, 0, 1)));
}

#[test]
fn heap_item_scores_its_bound() {
    let img = gray_row(&[0, 2]);
    let item = HeapItem::new(&img, Bound::new(0, 2, 0, 1));
    assert_eq!(item.var, 8);
    assert_eq!(item.bound, Bound::new(0, 2, 0, 1));
}

#[test]
fn reconstruct_writes_region_means() {
    let img = gray_row(&[0, 10, 100, 101]);
    let mut c = Compressor::new(img);
    c.compress(200);
    assert_eq!(c.leaf_count(), 2);
    let out = c.reconstruct();
    let expected: Vec<u8> = [5u8, 5, 100, 100].iter().flat_map(|&v| [v, v, v, v]).collect();
    assert_eq!(out.pixels, expected);
}

#[test]
fn invalid_raster_is_refused() {
    assert_eq!(Raster::new(0, 2, vec![]).unwrap_err(), RasterError::InvalidRaster);
    assert_eq!(Raster::new(2, 0, vec![]).unwrap_err(), RasterError::InvalidRaster);
    assert_eq!(Raster::new(2, 2, vec![0; 15]).unwrap_err(), RasterError::InvalidRaster);
    assert_eq!(Raster::new(usize::MAX, 2, vec![0; 8]).unwrap_err(), RasterError::InvalidRaster);
    assert!(Raster::new(2, 2, vec![0; 16]).is_ok());
}

#[test]
fn try_new_refuses_malformed_raster() {
    let bad = Raster { width: 3, height: 2, pixels: vec![0; 8] };
    assert_eq!(Compressor::try_new(bad).err().map(|_| ()), Some(()));
    let empty = Raster { width: 0, height: 5, pixels: vec![] };
    assert!(matches!(Compressor::try_new(empty), Err(RasterError::InvalidRaster)));
    let good = Raster { width: 2, height: 1, pixels: vec![1, 2, 3, 4, 5, 6, 7, 8] };
    let c = Compressor::try_new(good).ok().unwrap();
    assert_eq!(c.leaf_count(), 1);
    assert_eq!(c.split_count(), 0);
}

#[test]
fn split_with_exact_means_does_not_raise_score() {
    let img = gray_row(&[0, 2, 4, 6, 10, 20]);
    let parent = compute_variance(&img, &Bound::new(0, 6, 0, 1));
    let left = compute_variance(&img, &Bound::new(0, 3, 0, 1));
    let right = compute_variance(&img, &Bound::new(3, 6, 0, 1));
    assert_eq!(compute_mean(&img, &Bound::new(0, 3, 0, 1)), [2, 2, 2, 2]);
    assert_eq!(compute_mean(&img, &Bound::new(3, 6, 0, 1)), [12, 12, 12, 12]);
    assert!(left + right <= parent);
}
