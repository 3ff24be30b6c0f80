use pico::{
    calculate_iou, classify_region, cluster, fixed_from_f32_bits, parse_cascade, scan, Cascade,
    Cluster, Detection, FormatError, Image, Pico, RunParams, ScanError, FIXED_ONE, MEMORY_SLOTS,
    REJECT,
};

fn header(depth: i32, count: i32) -> Vec<u8> {
    let mut b = vec![0u8; 8];
    b.extend_from_slice(&depth.to_le_bytes());
    b.extend_from_slice(&count.to_le_bytes());
    b
}

fn push_tree(b: &mut Vec<u8>, codes: &[i8], preds: &[f32], thresh: f32) {
    b.extend_from_slice(&[0, 0, 0, 0]);
    for c in codes {
        b.push(*c as u8);
    }
    for p in preds {
        b.extend_from_slice(&p.to_le_bytes());
    }
    b.extend_from_slice(&thresh.to_le_bytes());
}

fn scenario_a_bytes() -> Vec<u8> {
    let mut b = header(1, 1);
    push_tree(&mut b, &[0, -1, 0, 1], &[0.5, -0.5], -1.0);
    b
}

/// A model whose single tree sends every window to a leaf worth 1.0.
fn accept_all_bytes() -> Vec<u8> {
    let mut b = header(1, 1);
    push_tree(&mut b, &[0, 0, 0, 0], &[-5.0, 1.0], -1.0);
    b
}

fn uniform_image(side: usize, value: u8) -> Image {
    Image::new(side as i32, side, side, vec![value; side * side])
}

fn det(row: i32, col: i32, scale: u32, score: i64) -> Detection {
    Detection { row, col, scale, score }
}

#[test]
fn parse_scenario_a() {
    let m = parse_cascade(&scenario_a_bytes()).unwrap();
    assert_eq!(m.depth, 1);
    assert_eq!(m.ntrees, 1);
    assert_eq!(m.leaves, 2);
    assert_eq!(m.codes, vec![0, 0, 0, 0, 0, -1, 0, 1]);
    assert_eq!(m.preds, vec![FIXED_ONE / 2, -FIXED_ONE / 2]);
    assert_eq!(m.thresh, vec![-FIXED_ONE]);
}

#[test]
fn classify_scenario_b() {
    let m = parse_cascade(&scenario_a_bytes()).unwrap();
    let img = uniform_image(4, 100);
    assert_eq!(classify_region(&m, 2, 2, 1000, &img), Some(32768));
}

#[test]
fn classify_pruned_tree_rejects_regardless_of_later_trees() {
    let mut b = header(1, 2);
    push_tree(&mut b, &[0, 0, 0, 0], &[0.0, -2.0], -1.0);
    push_tree(&mut b, &[0, 0, 0, 0], &[100.0, 100.0], -100.0);
    let m = parse_cascade(&b).unwrap();
    let img = uniform_image(8, 7);
    assert_eq!(classify_region(&m, 4, 4, 2000, &img), Some(REJECT));
}

#[test]
fn classify_two_trees_passing() {
    let mut b = header(1, 2);
    push_tree(&mut b, &[0, 0, 0, 0], &[0.0, 0.25], -1.0);
    push_tree(&mut b, &[0, 0, 0, 0], &[0.0, 0.5], 0.5);
    let m = parse_cascade(&b).unwrap();
    let img = uniform_image(8, 7);
    assert_eq!(classify_region(&m, 4, 4, 2000, &img), Some(FIXED_ONE as i64 / 4));
}

#[test]
fn classify_left_brighter_takes_left_child() {
    let m = parse_cascade(&scenario_a_bytes()).unwrap();
    let mut pixels = vec![100u8; 16];
    pixels[9] = 200;
    let img = Image::new(4, 4, 4, pixels);
    assert_eq!(classify_region(&m, 2, 2, 1000, &img), Some(FIXED_ONE as i64 * 3 / 2));
}

#[test]
fn classify_degenerate_models_reject() {
    let empty = Cascade::empty();
    let img = uniform_image(4, 1);
    assert_eq!(classify_region(&empty, 2, 2, 1000, &img), Some(REJECT));
    let mut b = header(0, 1);
    push_tree(&mut b, &[], &[3.0], -1.0);
    let m = parse_cascade(&b).unwrap();
    assert_eq!(m.leaves, 1);
    assert_eq!(classify_region(&m, 2, 2, 1000, &img), Some(REJECT));
}

#[test]
fn classify_probe_outside_buffer() {
    let mut b = header(1, 1);
    push_tree(&mut b, &[100, 0, 0, 0], &[1.0, 1.0], -1.0);
    let m = parse_cascade(&b).unwrap();
    let img = uniform_image(4, 1);
    assert_eq!(classify_region(&m, 2, 2, 1000, &img), Some(2 * FIXED_ONE as i64));
    assert_eq!(classify_region(&m, 2, 2, 100000, &img), None);
}

#[test]
fn parse_errors() {
    assert_eq!(parse_cascade(&vec![0u8; 11]).err(), Some(FormatError::TruncatedHeader));
    let mut short = vec![0u8; 8];
    short.extend_from_slice(&1i32.to_le_bytes());
    assert_eq!(parse_cascade(&short).err(), Some(FormatError::TruncatedHeader));
    assert_eq!(parse_cascade(&header(-1, 1)).err(), Some(FormatError::NegativeDepth));
    assert_eq!(parse_cascade(&header(31, 1)).err(), Some(FormatError::TruncatedCodes));
    assert_eq!(parse_cascade(&header(i32::MAX, 1)).err(), Some(FormatError::TruncatedCodes));
    let full = scenario_a_bytes();
    assert_eq!(parse_cascade(&full[..19].to_vec()).err(), Some(FormatError::TruncatedCodes));
    assert_eq!(parse_cascade(&full[..27].to_vec()).err(), Some(FormatError::TruncatedPredictions));
    assert_eq!(parse_cascade(&full[..33].to_vec()).err(), Some(FormatError::TruncatedThreshold));
    assert!(parse_cascade(&full).is_ok());
}

#[test]
fn parse_deep_model_without_trees() {
    let mut p = Pico::new();
    assert_eq!(p.unpack_cascade(header(31, 0)), Ok(()));
    assert_eq!(p.model.depth, 31);
    assert_eq!(p.model.ntrees, 0);
    let m = parse_cascade(&header(i32::MAX, -4)).unwrap();
    assert_eq!(m.ntrees, 0);
    let img = uniform_image(4, 1);
    assert_eq!(classify_region(&m, 2, 2, 1000, &img), Some(REJECT));
}

#[test]
fn parse_negative_count_means_no_trees() {
    let m = parse_cascade(&header(2, -3)).unwrap();
    assert_eq!(m.ntrees, 0);
    assert_eq!(m.depth, 2);
    assert!(m.codes.is_empty());
}

#[test]
fn fixed_point_conversion() {
    assert_eq!(fixed_from_f32_bits(0.5f32.to_bits()), 32768);
    assert_eq!(fixed_from_f32_bits((-1.0f32).to_bits()), -65536);
    assert_eq!(fixed_from_f32_bits(1.5f32.to_bits()), 98304);
    assert_eq!(fixed_from_f32_bits(0.0f32.to_bits()), 0);
    assert_eq!(fixed_from_f32_bits(1e-6f32.to_bits()), 0);
    assert_eq!(fixed_from_f32_bits(f32::NAN.to_bits()), 0);
    assert_eq!(fixed_from_f32_bits(f32::INFINITY.to_bits()), i32::MAX);
    assert_eq!(fixed_from_f32_bits(f32::NEG_INFINITY.to_bits()), i32::MIN);
    assert_eq!(fixed_from_f32_bits(1e9f32.to_bits()), i32::MAX);
    for x in [0.3f32, -0.7, 12.345, -1000.5, 32767.0] {
        assert_eq!(fixed_from_f32_bits(x.to_bits()), (x * 65536.0) as i32);
    }
}

#[test]
fn scan_scenario_c_grid() {
    let m = parse_cascade(&accept_all_bytes()).unwrap();
    let img = uniform_image(20, 50);
    let params = RunParams::new(4000, 4000, 1100, 500);
    let dets = scan(&m, &img, &params).unwrap();
    let mut expected = Vec::new();
    let mut r = 3;
    while r <= 17 {
        let mut c = 3;
        while c <= 17 {
            expected.push(det(r, c, 4000, 2 * FIXED_ONE as i64));
            c += 2;
        }
        r += 2;
    }
    assert_eq!(dets, expected);
}

#[test]
fn scan_scales_grow() {
    let m = parse_cascade(&accept_all_bytes()).unwrap();
    let img = uniform_image(10, 50);
    let params = RunParams::new(6000, 4000, 1500, 100);
    let dets = scan(&m, &img, &params).unwrap();
    let scales: Vec<u32> = dets.iter().map(|d| d.scale).collect();
    assert_eq!(dets.len(), 25 + 9);
    assert!(scales[..25].iter().all(|s| *s == 4000));
    assert!(scales[25..].iter().all(|s| *s == 6000));
    assert_eq!((dets[25].row, dets[25].col), (4, 4));
}

#[test]
fn scan_small_image_has_no_windows() {
    let m = parse_cascade(&accept_all_bytes()).unwrap();
    let img = uniform_image(3, 50);
    let params = RunParams::new(4000, 4000, 1100, 100);
    assert_eq!(scan(&m, &img, &params).unwrap(), vec![]);
}

#[test]
fn scan_errors() {
    let m = parse_cascade(&accept_all_bytes()).unwrap();
    let img = uniform_image(10, 50);
    assert_eq!(scan(&m, &img, &RunParams::new(4000, 0, 1100, 100)), Err(ScanError::InvalidParams));
    assert_eq!(scan(&m, &img, &RunParams::new(4000, 4000, 1000, 100)), Err(ScanError::InvalidParams));
    let bad = Image::new(10, 10, 10, vec![0; 99]);
    assert_eq!(scan(&m, &bad, &RunParams::new(4000, 4000, 1100, 100)), Err(ScanError::InvalidImage));
    let mut b = header(1, 1);
    push_tree(&mut b, &[127, 0, 0, 0], &[1.0, 1.0], -1.0);
    let far = parse_cascade(&b).unwrap();
    let narrow = Image::new(2, 10, 10, vec![50; 20]);
    assert_eq!(scan(&far, &narrow, &RunParams::new(4000, 4000, 1100, 100)), Err(ScanError::ProbeOutsideImage));
}

#[test]
fn iou_is_symmetric() {
    let a = det(10, 12, 8000, 1);
    let b = det(13, 9, 5000, 1);
    assert_eq!(calculate_iou(&a, &b), calculate_iou(&b, &a));
    let (num, den) = calculate_iou(&a, &b);
    assert!(num > 0 && den > num);
}

#[test]
fn iou_identical_is_one() {
    let a = det(40, 40, 24000, 3);
    let (num, den) = calculate_iou(&a, &a);
    assert_eq!(num, den);
    assert_eq!(num, 4 * 24000 * 24000);
}

#[test]
fn iou_disjoint_is_zero() {
    let a = det(10, 10, 4000, 1);
    let b = det(30, 10, 4000, 1);
    let (num, den) = calculate_iou(&a, &b);
    assert_eq!(num, 0);
    assert_eq!(den, 2 * 4 * 4000 * 4000);
}

#[test]
fn iou_exact_value() {
    let a = det(50, 50, 10000, 1);
    let b = det(52, 50, 10000, 1);
    // Overlap 8 x 10 pixels; union by the squares' areas 100 + 100 - 80.
    let (num, den) = calculate_iou(&a, &b);
    assert_eq!(num * 120, den * 80);
}

#[test]
fn cluster_scenario_d() {
    let dets = vec![det(50, 50, 10000, 3), det(52, 50, 10000, 2), det(150, 50, 10000, 1)];
    let cs = cluster(&dets, 500);
    assert_eq!(cs.len(), 2);
    assert_eq!(cs[0], Cluster { row_sum: 150, col_sum: 50, scale_sum: 10000, score: 1, count: 1 });
    assert_eq!(cs[1], Cluster { row_sum: 102, col_sum: 100, scale_sum: 20000, score: 5, count: 2 });
    assert_eq!(cs[1].row_sum / cs[1].count as i128, 51);
}

#[test]
fn cluster_counts_cover_all_detections() {
    let dets = vec![
        det(10, 10, 8000, 5),
        det(11, 10, 8000, 2),
        det(40, 40, 8000, 2),
        det(41, 41, 9000, 7),
        det(90, 10, 8000, 1),
        det(10, 11, 8000, 3),
    ];
    let cs = cluster(&dets, 300);
    let total: u64 = cs.iter().map(|c| c.count).sum();
    assert_eq!(total, dets.len() as u64);
    let score: i128 = cs.iter().map(|c| c.score).sum();
    assert_eq!(score, 20);
}

#[test]
fn cluster_empty() {
    assert!(cluster(&vec![], 500).is_empty());
}

#[test]
fn cluster_seed_is_lowest_score_and_single_link() {
    // Sorted: a (1), b (2), c (3). a overlaps b, b overlaps c, a does not overlap c.
    let a = det(10, 10, 10000, 1);
    let b = det(16, 10, 10000, 2);
    let c = det(22, 10, 10000, 3);
    let cs = cluster(&vec![c, b, a], 200);
    assert_eq!(cs.len(), 2);
    assert_eq!((cs[0].row_sum, cs[0].count), (26, 2));
    assert_eq!((cs[1].row_sum, cs[1].count), (22, 1));
}

#[test]
fn stable_order_keeps_ties() {
    let dets = vec![det(1, 0, 1, 5), det(2, 0, 1, 3), det(3, 0, 1, 5), det(4, 0, 1, 3)];
    assert_eq!(pico::stable_order(&dets), vec![1, 3, 0, 2]);
}

#[test]
fn pico_memory_ring() {
    let mut p = Pico::new();
    assert_eq!((p.model.depth, p.model.ntrees, p.model.leaves), (0, 0, 1));
    assert_eq!(p.detections_mem.len(), MEMORY_SLOTS);
    p.unpack_cascade(accept_all_bytes()).unwrap();
    let small = uniform_image(3, 1);
    let big = uniform_image(8, 1);
    let params = RunParams::new(4000, 4000, 1100, 500);
    p.run_cascade(&big, &params).unwrap();
    assert_eq!(p.detections.len(), 4);
    assert_eq!(p.mem_idx, 1);
    assert_eq!(p.detections_mem[0], p.detections);
    for _ in 0..4 {
        p.run_cascade(&small, &params).unwrap();
    }
    assert_eq!(p.mem_idx, 0);
    p.run_cascade(&small, &params).unwrap();
    assert_eq!(p.mem_idx, 1);
    assert!(p.detections_mem[0].is_empty());
    assert_eq!(p.remembered_detections().len(), 0);
}

#[test]
fn pico_clusters_across_scans() {
    let mut p = Pico::new();
    p.unpack_cascade(accept_all_bytes()).unwrap();
    let img = uniform_image(8, 1);
    let params = RunParams::new(4000, 4000, 1100, 500);
    p.run_cascade(&img, &params).unwrap();
    p.run_cascade(&img, &params).unwrap();
    assert_eq!(p.remembered_detections().len(), 8);
    let cs = p.cluster_detections(500);
    let total: u64 = cs.iter().map(|c| c.count).sum();
    assert_eq!(total, 8);
    assert_eq!(cs.len(), 4);
    assert!(cs.iter().all(|c| c.count == 2));
}

#[test]
fn pico_errors_leave_state() {
    let mut p = Pico::new();
    assert_eq!(p.unpack_cascade(vec![1, 2, 3]), Err(FormatError::TruncatedHeader));
    assert_eq!(p.model.ntrees, 0);
    p.unpack_cascade(accept_all_bytes()).unwrap();
    let bad = Image::new(8, 8, 8, vec![0; 10]);
    let params = RunParams::new(4000, 4000, 1100, 500);
    assert_eq!(p.run_cascade(&bad, &params), Err(ScanError::InvalidImage));
    assert_eq!(p.mem_idx, 0);
}
