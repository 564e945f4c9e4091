use mask_refine::components::connected_components;
use mask_refine::connectivity::neighbors_8;
use mask_refine::grid::{Color, GrayGrid, Mask};
use mask_refine::morpho::{dilate, erode, morpho_mask};
use mask_refine::otsu::{otsu_in_mask, otsu_level};
use mask_refine::overlap::{find_overlapping_region, get_overlapping_region_with_mask};
use mask_refine::partition::quadtree_bounding_boxes;
use mask_refine::quadtree::BBox;
use mask_refine::raster::{mask_from_rgba_alpha, mask_to_rgba};
use mask_refine::segmentation::{edge_detection, get_quad_tree_bbox, otsu_segmentation};
use mask_refine::smoothing::{crf_initial_mask, distance_transform_l1, neighbor_coords};
use mask_refine::RefineError;

fn mask_of(width: usize, height: usize, cells: &[(usize, usize)]) -> Mask {
    let mut data = vec![false; width * height];
    for &(x, y) in cells {
        data[y * width + x] = true;
    }
    Mask::from_vec(width, height, data).unwrap()
}

fn solid_rect(width: usize, height: usize, b: (usize, usize, usize, usize)) -> Mask {
    let mut data = vec![false; width * height];
    for y in b.1..b.3 {
        for x in b.0..b.2 {
            data[y * width + x] = true;
        }
    }
    Mask::from_vec(width, height, data).unwrap()
}

fn bbox(xmin: u32, ymin: u32, xmax: u32, ymax: u32) -> BBox {
    BBox { xmin, ymin, xmax, ymax }
}

#[test]
fn otsu_level_uniform_intensity_picks_first_split() {
    // All pixels share one intensity: every between-class variance is
    // zero, so the scan settles on split 0 and nothing is cut away.
    assert_eq!(otsu_level(&vec![7, 7, 7, 7]), 0);
    assert_eq!(otsu_level(&vec![200]), 0);
}

#[test]
fn otsu_level_two_cluster_distribution() {
    // Classes {10} and {200}: every split between them gives the same
    // variance, the first one wins.
    assert_eq!(otsu_level(&vec![10, 200]), 10);
    assert_eq!(otsu_level(&vec![10, 10, 200, 200, 200]), 10);
    // Extremes: splitting 0s away from 255s.
    assert_eq!(otsu_level(&vec![0, 0, 255, 255]), 0);
}

#[test]
fn otsu_in_mask_dimension_mismatch() {
    let img = GrayGrid::from_vec(2, 2, vec![0, 0, 0, 0]).unwrap();
    let m = mask_of(2, 1, &[(0, 0)]);
    assert!(matches!(otsu_in_mask(&img, &m, false), Err(RefineError::DimensionMismatch)));
}

#[test]
fn otsu_in_mask_empty_mask() {
    let img = GrayGrid::from_vec(2, 2, vec![0, 0, 0, 0]).unwrap();
    let m = mask_of(2, 2, &[]);
    assert!(matches!(otsu_in_mask(&img, &m, false), Err(RefineError::EmptyInput)));
}

#[test]
fn otsu_in_mask_thresholds_whole_image() {
    let img = GrayGrid::from_vec(2, 2, vec![10, 200, 10, 200]).unwrap();
    let m = mask_of(2, 2, &[(0, 0), (1, 0), (0, 1), (1, 1)]);
    let out = otsu_in_mask(&img, &m, false).unwrap();
    assert_eq!(out.data, vec![false, true, false, true]);
}

#[test]
fn otsu_in_mask_inverse_flips_classes() {
    let img = GrayGrid::from_vec(2, 2, vec![10, 200, 10, 200]).unwrap();
    let m = mask_of(2, 2, &[(0, 0), (1, 0), (0, 1), (1, 1)]);
    let out = otsu_in_mask(&img, &m, true).unwrap();
    assert_eq!(out.data, vec![true, false, true, false]);
}

#[test]
fn otsu_in_mask_intersects_with_mask() {
    // The threshold is computed from the masked pixels but reapplied
    // image-wide, then intersected with the mask.
    let img = GrayGrid::from_vec(2, 2, vec![10, 200, 200, 200]).unwrap();
    let m = mask_of(2, 2, &[(0, 0), (1, 0)]);
    let out = otsu_in_mask(&img, &m, false).unwrap();
    assert_eq!(out.data, vec![false, true, false, false]);
}

#[test]
fn erode_dilate_small_shapes() {
    // A single pixel is erased by erosion with radius 1 and spread into
    // an L1 ball by dilation.
    let m = mask_of(5, 5, &[(2, 2)]);
    let e = erode(&m, 1);
    assert!(e.data.iter().all(|&v| !v));
    let d = dilate(&m, 1);
    assert!(d.get(2, 2) && d.get(1, 2) && d.get(3, 2) && d.get(2, 1) && d.get(2, 3));
    assert!(!d.get(1, 1) && !d.get(0, 2));
}

#[test]
fn morpho_opening_removes_isolated_pixel() {
    let m = mask_of(5, 5, &[(2, 2)]);
    let out = morpho_mask(&m, true, false, 1);
    assert!(out.data.iter().all(|&v| !v));
}

#[test]
fn morpho_keeps_largest_component() {
    // A 2x2 block and a lone pixel: only the block survives.
    let m = mask_of(5, 5, &[(0, 0), (1, 0), (0, 1), (1, 1), (4, 4)]);
    let out = morpho_mask(&m, false, true, 1);
    assert!(out.get(0, 0) && out.get(1, 0) && out.get(0, 1) && out.get(1, 1));
    assert!(!out.get(4, 4));
}

#[test]
fn morpho_tie_goes_to_first_component_in_raster_order() {
    let m = mask_of(5, 5, &[(4, 0), (0, 4)]);
    let out = morpho_mask(&m, false, true, 1);
    assert!(out.get(4, 0));
    assert!(!out.get(0, 4));
}

#[test]
fn morpho_single_component_result_is_connected() {
    // Law check: after enforcing connectedness the result has at most
    // one 8-connected component.
    let m = mask_of(6, 6, &[(0, 0), (1, 1), (2, 2), (5, 5), (5, 4), (0, 5)]);
    let out = morpho_mask(&m, false, true, 1);
    let (_, count) = connected_components(&out);
    assert!(count <= 1);
}

#[test]
fn morpho_all_background_stays_background() {
    let m = mask_of(4, 4, &[]);
    let out = morpho_mask(&m, true, true, 2);
    assert!(out.data.iter().all(|&v| !v));
}

#[test]
fn components_labels_in_raster_order() {
    // Two components; the one met first in raster order gets label 1.
    let m = mask_of(5, 1, &[(4, 0), (0, 0)]);
    let (labels, count) = connected_components(&m);
    assert_eq!(count, 2);
    assert_eq!(labels[0], 1);
    assert_eq!(labels[4], 2);
    assert_eq!(labels[1], 0);
}

#[test]
fn components_diagonals_are_connected() {
    let m = mask_of(3, 3, &[(0, 0), (1, 1), (2, 2)]);
    let (labels, count) = connected_components(&m);
    assert_eq!(count, 1);
    assert_eq!(labels[0], 1);
    assert_eq!(labels[4], 1);
    assert_eq!(labels[8], 1);
}

#[test]
fn neighbors_8_clips_at_border() {
    let center = neighbors_8(1, 1, 3, 3);
    assert_eq!(center.len(), 8);
    let corner = neighbors_8(0, 0, 3, 3);
    assert_eq!(corner.len(), 3);
    assert!(corner.contains(&(1, 0)) && corner.contains(&(0, 1)) && corner.contains(&(1, 1)));
}

#[test]
fn partition_two_squares_returns_their_tight_boxes() {
    // Two disjoint 2x2 squares at opposite corners of a 10x10 mask.
    let mut cells = Vec::new();
    for (x, y) in [(0, 0), (1, 0), (0, 1), (1, 1), (8, 8), (9, 8), (8, 9), (9, 9)] {
        cells.push((x, y));
    }
    let m = mask_of(10, 10, &cells);
    let boxes = quadtree_bounding_boxes(&m, 4, 1);
    assert_eq!(boxes.len(), 2);
    assert!(boxes.contains(&bbox(0, 0, 2, 2)));
    assert!(boxes.contains(&bbox(8, 8, 10, 10)));
}

#[test]
fn partition_solid_grid_merges_to_one_box() {
    // A perfect 2x2 grid of solid rectangles with no gaps is one solid
    // rectangle; the merge stage collapses it to a single box.
    let m = solid_rect(8, 8, (1, 1, 7, 7));
    let boxes = quadtree_bounding_boxes(&m, 8, 1);
    assert_eq!(boxes, vec![bbox(1, 1, 7, 7)]);
}

#[test]
fn partition_empty_mask_returns_nothing() {
    let m = mask_of(6, 6, &[]);
    let boxes = quadtree_bounding_boxes(&m, 4, 1);
    assert!(boxes.is_empty());
}

#[test]
fn partition_rerun_on_reconstruction_covers_the_union() {
    // Idempotence on coverage: refill the returned boxes solid, rerun
    // with the same parameters, and check the union is still covered.
    let m = mask_of(10, 10, &[(0, 0), (1, 0), (0, 1), (1, 1), (8, 8), (9, 8), (8, 9), (9, 9)]);
    let boxes = quadtree_bounding_boxes(&m, 4, 1);
    let mut refilled = vec![false; 100];
    for b in &boxes {
        for y in b.ymin..b.ymax {
            for x in b.xmin..b.xmax {
                refilled[(y * 10 + x) as usize] = true;
            }
        }
    }
    let m2 = Mask::from_vec(10, 10, refilled.clone()).unwrap();
    let again = quadtree_bounding_boxes(&m2, 4, 1);
    for y in 0u32..10 {
        for x in 0u32..10 {
            if refilled[(y * 10 + x) as usize] {
                assert!(again.iter().any(|b| {
                    b.xmin <= x && x < b.xmax && b.ymin <= y && y < b.ymax
                }));
            }
        }
    }
}

#[test]
fn overlap_single_pixel_component() {
    // A 4x4 label with one pixel at (1, 1) and a query mask hitting the
    // same pixel: only that pixel comes back white.
    let mut label = vec![0u8; 64];
    let idx = 4 * (1 * 4 + 1);
    label[idx] = 255;
    label[idx + 1] = 255;
    label[idx + 2] = 255;
    label[idx + 3] = 255;
    let mut query = vec![0u8; 64];
    query[idx] = 255;
    let out = find_overlapping_region(label, query, 4, 4).unwrap();
    for p in 0..16 {
        let expected = if p == 5 { 255 } else { 0 };
        assert_eq!(out[4 * p], expected);
        assert_eq!(out[4 * p + 3], expected);
    }
}

#[test]
fn overlap_returns_whole_touched_component() {
    // The query touches one pixel of the left component; the whole
    // component is returned and the untouched one stays transparent.
    let mut label = vec![0u8; 4 * 5];
    for x in [0usize, 1, 4] {
        let idx = 4 * x;
        label[idx] = 255;
        label[idx + 1] = 255;
        label[idx + 2] = 255;
        label[idx + 3] = 255;
    }
    let mut query = vec![0u8; 4 * 5];
    query[0] = 1;
    let out = find_overlapping_region(label, query, 5, 1).unwrap();
    assert_eq!(out[0], 255);
    assert_eq!(out[4], 255);
    assert_eq!(out[8], 0);
    assert_eq!(out[16], 0);
}

#[test]
fn overlap_rejects_malformed_buffers() {
    assert_eq!(
        find_overlapping_region(vec![0; 10], vec![0; 16], 2, 2),
        Err(RefineError::DecodeFailure)
    );
}

#[test]
fn overlap_region_flood_fills_from_first_query_pixel() {
    // Union of label and mask, flooded from the first query pixel in
    // raster order: only the seed's region is returned.
    let label = vec![
        true, true, false, false, false,
        false, false, false, false, false,
        false, false, false, true, true,
    ];
    let mut mask = vec![false; 15];
    mask[1] = true;
    let out = get_overlapping_region_with_mask(label, mask, 5, 3).unwrap();
    assert_eq!(out[0], 255);
    assert_eq!(out[1], 255);
    assert_eq!(out[2], 0);
    assert_eq!(out[13], 0);
    assert_eq!(out[14], 0);
}

#[test]
fn overlap_region_without_query_is_empty() {
    let label = vec![true, true, false, false];
    let mask = vec![false; 4];
    let out = get_overlapping_region_with_mask(label, mask, 2, 2).unwrap();
    assert!(out.iter().all(|&v| v == 0));
}

#[test]
fn overlap_region_rejects_malformed_buffers() {
    assert_eq!(
        get_overlapping_region_with_mask(vec![false; 3], vec![false; 4], 2, 2),
        Err(RefineError::DecodeFailure)
    );
}

#[test]
fn raster_mask_round_trip() {
    let m = mask_of(2, 2, &[(1, 0)]);
    let col = Color { r: 9, g: 8, b: 7, a: 200 };
    let buf = mask_to_rgba(&m, col);
    assert_eq!(buf, vec![0, 0, 0, 0, 9, 8, 7, 200, 0, 0, 0, 0, 0, 0, 0, 0]);
    let back = mask_from_rgba_alpha(&buf, 2, 2).unwrap();
    assert_eq!(back.data, m.data);
}

#[test]
fn distance_transform_exact_values() {
    let m = mask_of(3, 3, &[(0, 0)]);
    let d = distance_transform_l1(&m);
    assert_eq!(d, vec![0, 1, 2, 1, 2, 3, 2, 3, 4]);
}

#[test]
fn distance_transform_saturates_without_foreground() {
    let m = mask_of(2, 2, &[]);
    let d = distance_transform_l1(&m);
    assert_eq!(d, vec![255, 255, 255, 255]);
}

#[test]
fn neighbor_coords_window_shape() {
    // 7x7 window minus the 3x3 center: 40 cells in the interior.
    let center = neighbor_coords(5, 5, 11, 11);
    assert_eq!(center.len(), 40);
    assert!(center.contains(&(2, 2)) && center.contains(&(8, 8)));
    assert!(!center.contains(&(4, 4)) && !center.contains(&(5, 5)));
    // At the corner only the in-bounds quarter remains.
    let corner = neighbor_coords(0, 0, 11, 11);
    assert_eq!(corner.len(), 12);
    assert!(corner.contains(&(3, 3)) && corner.contains(&(2, 0)));
    assert!(!corner.contains(&(1, 1)));
}

#[test]
fn crf_initial_mask_keeps_pixels_near_the_skeleton() {
    // Zero smoothing iterations: the mask thresholded directly from the
    // initial unary field. A thick bar thins to a line; pixels close to
    // that line stay, the ones farthest from it are cut, so the result
    // is a strict, non-empty subset of the coarse mask.
    let m = solid_rect(11, 7, (1, 2, 10, 5));
    let out = crf_initial_mask(&m);
    let kept = out.data.iter().filter(|&&v| v).count();
    let masked = m.data.iter().filter(|&&v| v).count();
    assert!(kept > 0);
    assert!(kept < masked);
    for i in 0..77 {
        if out.data[i] {
            assert!(m.data[i]);
        }
    }
}

#[test]
fn otsu_segmentation_end_to_end() {
    // Two dark and two bright pixels, all masked with a red display
    // color: the bright pixels come back painted, the dark ones
    // transparent.
    let mut image = vec![0u8; 16];
    for (p, v) in [(0usize, 10u8), (1, 200), (2, 10), (3, 200)] {
        image[4 * p] = v;
        image[4 * p + 1] = v;
        image[4 * p + 2] = v;
        image[4 * p + 3] = 255;
    }
    let mut mask = vec![0u8; 16];
    for p in 0..4 {
        mask[4 * p] = 255;
        mask[4 * p + 3] = 255;
    }
    let out = otsu_segmentation(image, mask, false, false, 0, false, 2, 2).unwrap();
    assert_eq!(&out[0..4], &[0, 0, 0, 0]);
    assert_eq!(&out[4..8], &[255, 0, 0, 255]);
    assert_eq!(&out[8..12], &[0, 0, 0, 0]);
    assert_eq!(&out[12..16], &[255, 0, 0, 255]);
}

#[test]
fn otsu_segmentation_reports_empty_mask() {
    let image = vec![0u8; 16];
    let mask = vec![0u8; 16];
    assert_eq!(
        otsu_segmentation(image, mask, false, false, 0, false, 2, 2),
        Err(RefineError::EmptyInput)
    );
}

#[test]
fn otsu_segmentation_rejects_malformed_buffers() {
    assert_eq!(
        otsu_segmentation(vec![0; 15], vec![0; 16], false, false, 0, false, 2, 2),
        Err(RefineError::DecodeFailure)
    );
}

#[test]
fn quad_tree_bbox_resizes_then_partitions() {
    // An all-white 2x2 mask resized to 4x4 stays all-white, so the
    // partition is one box covering the resized grid.
    let mask = vec![255u8; 16];
    let boxes = get_quad_tree_bbox(mask, 2, 2, 4, 4, 4, 1).unwrap();
    assert_eq!(boxes, vec![bbox(0, 0, 4, 4)]);
}

#[test]
fn quad_tree_bbox_rejects_malformed_buffers() {
    assert_eq!(
        get_quad_tree_bbox(vec![0; 15], 2, 2, 4, 4, 4, 1),
        Err(RefineError::DecodeFailure)
    );
}

#[test]
fn edge_detection_draws_the_gradient_ball() {
    // A single red pixel: its channel dilates to an L1 ball of radius 3,
    // erosion survives nowhere, so the edge is white exactly on the ball.
    let mut rgb = vec![0u8; 3 * 81];
    rgb[3 * (4 * 9 + 4)] = 200;
    let out = edge_detection(rgb, 9, 9).unwrap();
    for y in 0i32..9 {
        for x in 0i32..9 {
            let i = 3 * (y * 9 + x) as usize;
            let inside = (x - 4).abs() + (y - 4).abs() <= 3;
            assert_eq!(out[i], if inside { 255 } else { 0 });
            assert_eq!(out[i + 1], 0);
            assert_eq!(out[i + 2], 0);
        }
    }
}

#[test]
fn edge_detection_rejects_malformed_buffers() {
    assert_eq!(edge_detection(vec![0; 10], 2, 2), Err(RefineError::DecodeFailure));
}
