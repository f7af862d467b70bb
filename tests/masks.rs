use cocotools::codec::{decode, encode};
use cocotools::raster::PolygonSet;
use cocotools::segmentation::Segmentation;
use cocotools::types::{BinaryMask, EncodedRLE, MaskError, PixelBox, RLE};
use cocotools::visualize::{draw_box, visualize_img};

fn rle(height: u32, width: u32, counts: Vec<u32>) -> RLE {
    RLE { size: vec![height, width], counts }
}

fn encoded(height: u32, width: u32, counts: &str) -> EncodedRLE {
    EncodedRLE { size: vec![height, width], counts: counts.to_string() }
}

fn mask(width: u32, height: u32, fg: &[(u32, u32)]) -> BinaryMask {
    let mut data = vec![0u8; (width * height) as usize];
    for &(x, y) in fg {
        data[(x * height + y) as usize] = 1;
    }
    BinaryMask { width, height, data }
}

fn pbox(left: u32, top: u32, width: u32, height: u32) -> PixelBox {
    PixelBox { left, top, width, height }
}

#[test]
fn single_pixel_runs_area_and_box() {
    let m = mask(4, 4, &[(1, 1)]);
    let r = RLE::from_mask(&m);
    assert_eq!(r.size, vec![4, 4]);
    assert_eq!(r.counts, vec![5, 1, 10]);
    assert_eq!(r.area(), Ok(1));
    assert_eq!(r.bbox(), Ok(pbox(1, 1, 1, 1)));
}

#[test]
fn full_mask_runs_area_and_box() {
    let m = mask(2, 2, &[(0, 0), (0, 1), (1, 0), (1, 1)]);
    let r = RLE::from_mask(&m);
    assert_eq!(r.counts, vec![0, 4]);
    assert_eq!(r.area(), Ok(4));
    assert_eq!(r.bbox(), Ok(pbox(0, 0, 2, 2)));
}

#[test]
fn square_polygon_fills_grid() {
    let s = 1024;
    let p = PolygonSet { width: 2, height: 2, polygons: vec![vec![0, 0, 2 * s, 0, 2 * s, 2 * s, 0, 2 * s]] };
    let m = p.rasterize().unwrap();
    assert_eq!(m.data, vec![1, 1, 1, 1]);
    let seg = Segmentation::Polygon(p);
    assert_eq!(seg.area(), Ok(4));
    assert_eq!(seg.to_bbox(), Ok(pbox(0, 0, 2, 2)));
    let runs = Segmentation::RLE(rle(2, 2, vec![0, 4]));
    assert_eq!(runs.area(), Ok(4));
}

#[test]
fn byte_outside_alphabet_is_malformed() {
    assert_eq!(decode(&encoded(4, 4, "51p")).err(), Some(MaskError::MalformedEncoding));
    assert_eq!(decode(&encoded(4, 4, "5 5")).err(), Some(MaskError::MalformedEncoding));
    assert_eq!(decode(&encoded(4, 4, "5é5")).err(), Some(MaskError::MalformedEncoding));
}

#[test]
fn run_sum_mismatch_is_shape_mismatch() {
    let r = rle(4, 4, vec![5, 1, 9]);
    assert_eq!(r.check_shape(), Err(MaskError::ShapeMismatch));
    assert_eq!(r.area(), Err(MaskError::ShapeMismatch));
    assert_eq!(r.bbox().err(), Some(MaskError::ShapeMismatch));
    assert!(r.to_mask().is_err());
    assert!(encode(&r).is_err());
    assert_eq!(rle(4, 4, vec![5, 1, 10]).check_shape(), Ok(()));
}

#[test]
fn encode_exact_characters() {
    let e = encode(&rle(4, 4, vec![5, 1, 10])).unwrap();
    assert_eq!(e.counts, "515");
    assert_eq!(e.size, vec![4, 4]);
    let e = encode(&rle(5, 3, vec![10, 2, 3])).unwrap();
    assert_eq!(e.counts, ":2I");
    let e = encode(&rle(10, 10, vec![0, 100])).unwrap();
    assert_eq!(e.counts, "0T3");
}

#[test]
fn decode_exact_runs() {
    let r = decode(&encoded(4, 4, "515")).unwrap();
    assert_eq!(r.counts, vec![5, 1, 10]);
    assert_eq!(r.size, vec![4, 4]);
    let r = decode(&encoded(5, 3, ":2I")).unwrap();
    assert_eq!(r.counts, vec![10, 2, 3]);
    let r = decode(&encoded(10, 10, "0T3")).unwrap();
    assert_eq!(r.counts, vec![0, 100]);
}

#[test]
fn encode_decode_round_trip() {
    let counts = vec![245, 5, 35, 5, 35, 5, 35, 5, 35, 5, 1190];
    let e = encode(&rle(40, 40, counts.clone())).unwrap();
    let back = decode(&e).unwrap();
    assert_eq!(back.counts, counts);
    let counts = vec![0, 70000, 1, 99_999, 30_000];
    let e = encode(&rle(200_000, 1, counts.clone())).unwrap();
    assert_eq!(decode(&e).unwrap().counts, counts);
}

#[test]
fn decode_failures() {
    assert_eq!(decode(&encoded(4, 4, "51")).err(), Some(MaskError::MalformedEncoding));
    assert_eq!(decode(&encoded(4, 4, "51P")).err(), Some(MaskError::MalformedEncoding));
    assert_eq!(decode(&encoded(4, 4, "5I")).err(), Some(MaskError::MalformedEncoding));
    assert_eq!(decode(&encoded(4, 4, "oooooooooooo0")).err(), Some(MaskError::MalformedEncoding));
    let bad_size = EncodedRLE { size: vec![4], counts: "515".to_string() };
    assert_eq!(decode(&bad_size).err(), Some(MaskError::ShapeMismatch));
}

#[test]
fn runs_mask_runs() {
    let r = rle(3, 4, vec![2, 3, 1, 4, 2]);
    let m = r.to_mask().unwrap();
    assert_eq!(m.width, 4);
    assert_eq!(m.height, 3);
    assert_eq!(m.data, vec![0, 0, 1, 1, 1, 0, 1, 1, 1, 1, 0, 0]);
    assert_eq!(RLE::from_mask(&m).counts, r.counts);
}

#[test]
fn mask_runs_mask() {
    let m = mask(3, 2, &[(0, 1), (2, 0), (2, 1)]);
    let r = RLE::from_mask(&m);
    assert_eq!(r.counts, vec![1, 1, 2, 2]);
    let back = r.to_mask().unwrap();
    assert_eq!(back.data, m.data);
    assert_eq!((back.width, back.height), (3, 2));
}

#[test]
fn empty_grid_runs() {
    let m = BinaryMask { width: 0, height: 5, data: vec![] };
    let r = RLE::from_mask(&m);
    assert_eq!(r.counts, vec![0]);
    assert_eq!(r.area(), Ok(0));
    assert_eq!(r.bbox(), Ok(pbox(0, 0, 0, 0)));
}

#[test]
fn area_counts_mask_pixels() {
    let r = rle(5, 5, vec![3, 4, 2, 7, 9]);
    let m = r.to_mask().unwrap();
    assert_eq!(r.area(), Ok(11));
    assert_eq!(m.area(), 11);
}

#[test]
fn bbox_of_run_across_columns() {
    // rows 3..4 of column 0 and rows 0..1 of column 1
    let r = rle(5, 3, vec![3, 4, 8]);
    assert_eq!(r.bbox(), Ok(pbox(0, 0, 2, 5)));
    let m = r.to_mask().unwrap();
    assert_eq!(m.bbox(), pbox(0, 0, 2, 5));
    // two runs in separate columns
    let r = rle(5, 3, vec![6, 2, 6, 1]);
    assert_eq!(r.bbox(), Ok(pbox(1, 1, 2, 4)));
    assert_eq!(r.to_mask().unwrap().bbox(), pbox(1, 1, 2, 4));
}

#[test]
fn all_background_box() {
    let r = rle(3, 3, vec![9]);
    assert_eq!(r.bbox(), Ok(pbox(0, 0, 0, 0)));
    assert_eq!(r.area(), Ok(0));
}

#[test]
fn triangle_polygon_even_odd() {
    let s = 1024;
    // right triangle over a 4x4 grid: (0,0), (4,0), (0,4)
    let p = PolygonSet { width: 4, height: 4, polygons: vec![vec![0, 0, 4 * s, 0, 0, 4 * s]] };
    let m = p.rasterize().unwrap();
    let mut fg = 0;
    for x in 0..4u32 {
        for y in 0..4u32 {
            let inside = (x + y) < 4 && ((x as i64) * 2 + 1) + ((y as i64) * 2 + 1) < 8;
            assert_eq!(m.data[(x * 4 + y) as usize] == 1, inside, "pixel {} {}", x, y);
            if inside {
                fg += 1;
            }
        }
    }
    assert_eq!(m.area(), fg);
}

#[test]
fn overlapping_polygons_union() {
    let s = 1024;
    let a = vec![0, 0, 2 * s, 0, 2 * s, 2 * s, 0, 2 * s];
    let b = vec![s, 0, 3 * s, 0, 3 * s, 2 * s, s, 2 * s];
    let p = PolygonSet { width: 3, height: 2, polygons: vec![a, b] };
    assert_eq!(p.rasterize().unwrap().data, vec![1, 1, 1, 1, 1, 1]);
    let empty = PolygonSet { width: 3, height: 2, polygons: vec![] };
    assert_eq!(empty.rasterize().unwrap().data, vec![0; 6]);
    let odd = PolygonSet { width: 3, height: 2, polygons: vec![vec![0, 0, s]] };
    assert_eq!(odd.rasterize().err(), Some(MaskError::ShapeMismatch));
    let off_grid = PolygonSet { width: 3, height: 2, polygons: vec![vec![0, 0, 4 * s, 0, 0, s]] };
    assert_eq!(off_grid.rasterize().err(), Some(MaskError::ShapeMismatch));
    let negative = PolygonSet { width: 3, height: 2, polygons: vec![vec![0, -1, s, 0, 0, s]] };
    assert_eq!(Segmentation::Polygon(negative).area(), Err(MaskError::ShapeMismatch));
}

#[test]
fn encoded_segmentation_area_and_box() {
    let seg = Segmentation::EncodedRLE(encoded(4, 4, "515"));
    assert_eq!(seg.area(), Ok(1));
    assert_eq!(seg.to_bbox(), Ok(pbox(1, 1, 1, 1)));
    let m = seg.to_mask().unwrap();
    assert_eq!(m.data[5], 1);
    assert_eq!(m.area(), 1);
    let bad = Segmentation::EncodedRLE(encoded(4, 4, "516"));
    assert_eq!(bad.area(), Err(MaskError::MalformedEncoding));
    let bad = Segmentation::RLE(rle(4, 4, vec![1]));
    assert_eq!(bad.to_bbox(), Err(MaskError::ShapeMismatch));
}

#[test]
fn visualize_paints_masks() {
    // 2x1 image: red, green
    let rgb = vec![255, 0, 0, 0, 255, 0];
    let m = BinaryMask { width: 2, height: 1, data: vec![0, 1] };
    let buf = visualize_img(&rgb, 2, 1, &vec![m], &vec![(0, 0, 255)]).unwrap();
    assert_eq!(buf, vec![0xFFFF_0000, 0xFF00_00FF]);
    let plain = visualize_img(&rgb, 2, 1, &vec![], &vec![]).unwrap();
    assert_eq!(plain, vec![0xFFFF_0000, 0xFF00_FF00]);
    assert_eq!(visualize_img(&rgb, 3, 1, &vec![], &vec![]), Err(MaskError::ShapeMismatch));
}

#[test]
fn visualize_row_major_against_column_major_mask() {
    // 2 wide, 2 high; mask marks pixel (x=1, y=0): column-major index 2
    let rgb = vec![0u8; 12];
    let m = BinaryMask { width: 2, height: 2, data: vec![0, 0, 1, 0] };
    let buf = visualize_img(&rgb, 2, 2, &vec![m], &vec![(1, 2, 3)]).unwrap();
    assert_eq!(buf, vec![0xFF00_0000, 0xFF01_0203, 0xFF00_0000, 0xFF00_0000]);
}

#[test]
fn outlines_rasterize_back_to_mask() {
    let m = mask(4, 3, &[(0, 0), (0, 1), (1, 1), (2, 0), (2, 2), (3, 0), (3, 1), (3, 2)]);
    let p = PolygonSet::from_mask(&m);
    assert_eq!((p.width, p.height), (4, 3));
    assert_eq!(p.polygons.len(), 5);
    assert_eq!(p.polygons[0], vec![0, 0, 1024, 0, 1024, 2048, 0, 2048]);
    let back = p.rasterize().unwrap();
    assert_eq!(back.data, m.data);
}

#[test]
fn outlines_of_empty_and_full_masks() {
    let empty = mask(3, 3, &[]);
    let p = PolygonSet::from_mask(&empty);
    assert!(p.polygons.is_empty());
    assert_eq!(p.rasterize().unwrap().data, empty.data);
    let full = mask(2, 2, &[(0, 0), (0, 1), (1, 0), (1, 1)]);
    let p = PolygonSet::from_mask(&full);
    assert_eq!(p.polygons.len(), 2);
    assert_eq!(Segmentation::Polygon(p).area(), Ok(4));
}

#[test]
fn long_groups_decode() {
    let r = decode(&encoded(1, 1, "QPPPPPPPPPPP0")).unwrap();
    assert_eq!(r.counts, vec![1]);
    let r = decode(&encoded(3, 3, "51noooooooooO")).unwrap();
    assert_eq!(r.counts, vec![5, 1, 3]);
    assert_eq!(encode(&r).unwrap().counts, "51N");
}

#[test]
fn full_mask_compact_string() {
    let m = mask(2, 2, &[(0, 0), (0, 1), (1, 0), (1, 1)]);
    let e = encode(&RLE::from_mask(&m)).unwrap();
    assert_eq!(e.counts, "04");
    assert_eq!(e.size, vec![2, 2]);
}

#[test]
fn box_outline_painted() {
    let mut frame = vec![0u32; 16];
    draw_box(&mut frame, 4, 4, pbox(0, 1, 3, 3), (0, 0, 1)).unwrap();
    let c = 0xFF00_0001;
    assert_eq!(
        frame,
        vec![0, 0, 0, 0, c, c, c, 0, c, 0, c, 0, c, c, c, 0]
    );
    let mut small = vec![0u32; 3];
    assert_eq!(draw_box(&mut small, 2, 2, pbox(0, 0, 1, 1), (0, 0, 1)), Err(MaskError::ShapeMismatch));
    assert_eq!(small, vec![0, 0, 0]);
}
