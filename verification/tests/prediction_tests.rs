use lepton_jpeg::block_based_image::AlignedBlock;
use lepton_jpeg::block_context::NeighborData;
use lepton_jpeg::enabled_features::EnabledFeatures;
use lepton_jpeg::helpers::{u16_bit_length, u32_bit_length};
use lepton_jpeg::idct::run_idct;
use lepton_jpeg::neighbor_summary::NeighborSummary;
use lepton_jpeg::probability_tables::ProbabilityTables;
use lepton_jpeg::probability_tables_set::ProbabilityTablesSet;
use lepton_jpeg::quantization_tables::QuantizationTables;

fn sample_raster() -> [i32; 64] {
    let mut raster = [0i32; 64];
    for (i, v) in [(1, -128), (7, -5), (8, 256), (9, 64), (18, 33), (56, 17), (63, -20)] {
        raster[i] = v;
    }
    raster
}

const SAMPLE_PIXELS: [i16; 64] = [
    362, 244, 86, -153, -311, -483, -548, -601, 349, 230, 146, -120, -212, -451, -497, -588, 297,
    253, 140, 14, -173, -326, -478, -549, 311, 238, 266, 45, 18, -269, -335, -473, 303, 297, 230,
    169, 8, -119, -280, -352, 383, 310, 329, 134, 133, -90, -110, -210, 425, 371, 284, 175, 79,
    -3, -52, -78, 477, 385, 317, 141, 111, 1, 27, 1,
];

fn features(narrow: bool) -> EnabledFeatures {
    EnabledFeatures { use_16bit_adv_predict: narrow }
}

fn neighbors(narrow: bool) -> NeighborData {
    let left_border: [i16; 8] = core::array::from_fn(|i| 1100 + 3 * i as i16);
    let above_border: [i16; 8] = core::array::from_fn(|i| 900 - 7 * i as i16);
    // one summary serves one border: the last lane is set through the border it is read from
    let mut for_left = [0i16; 64];
    let mut for_above = [0i16; 64];
    for i in 0..8 {
        for_left[8 * i + 7] = left_border[i] - 1024;
        for_left[8 * i + 6] = left_border[i] - 1024;
        for_above[56 + i] = above_border[i] - 1024;
        for_above[48 + i] = above_border[i] - 1024;
    }
    let left = NeighborSummary::new(&AlignedBlock::new(for_left), 0, 3, [0; 8], [0; 8], &features(narrow));
    let above = NeighborSummary::new(&AlignedBlock::new(for_above), 0, 9, [0; 8], [0; 8], &features(narrow));
    assert_eq!(left.get_vertical(), &left_border);
    assert_eq!(above.get_horizontal(), &above_border);
    NeighborData {
        above_left: AlignedBlock::default(),
        above: AlignedBlock::default(),
        left: AlignedBlock::default(),
        neighbor_context_above: above,
        neighbor_context_left: left,
    }
}

#[test]
fn idct_of_dc_alone_is_flat() {
    let mut raster = [0i32; 64];
    raster[0] = 800;
    assert_eq!(run_idct(&raster).get_block(), &[804i16; 64]);
    assert_eq!(run_idct(&[0i32; 64]).get_block(), &[4i16; 64]);
}

#[test]
fn idct_of_a_sample() {
    assert_eq!(run_idct(&sample_raster()).get_block(), &SAMPLE_PIXELS);
}

#[test]
fn summary_borders_of_a_sample() {
    for narrow in [false, true] {
        let s = NeighborSummary::new(
            &AlignedBlock::new(SAMPLE_PIXELS),
            240,
            17,
            [1, 2, 3, 4, 5, 6, 7, 8],
            [-1, -2, -3, -4, -5, -6, -7, -8],
            &features(narrow),
        );
        assert_eq!(s.get_horizontal(), &[1767, 1656, 1597, 1388, 1391, 1267, 1330, 1304]);
        assert_eq!(s.get_vertical(), &[637, 631, 680, 722, 876, 1004, 1173, 1252]);
        assert_eq!(s.get_horizontal_coef(), [1, 2, 3, 4, 5, 6, 7, 8]);
        assert_eq!(s.get_vertical_coef(), [-1, -2, -3, -4, -5, -6, -7, -8]);
        assert_eq!(s.get_num_non_zeros(), 17);
    }
}

#[test]
fn dc_prediction_with_both_neighbors() {
    for narrow in [false, true] {
        let pt = ProbabilityTables::new(0, true, true);
        let nd = neighbors(narrow);
        for (q0, expected) in [(1, -135), (3, -45), (0, 0)] {
            let r = pt.adv_predict_dc_pix::<true>(&sample_raster(), q0, &nd, &features(narrow));
            assert_eq!(r.predicted_dc, expected);
            assert_eq!(r.uncertainty, 115);
            assert_eq!(r.uncertainty2, 178);
            assert_eq!(r.advanced_predict_dc_pixels_sans_dc.get_block(), &SAMPLE_PIXELS);
            let same = pt.adv_predict_dc_pix::<false>(&sample_raster(), q0, &nd, &features(narrow));
            assert_eq!(same.predicted_dc, expected);
        }
    }
}

#[test]
fn dc_prediction_with_one_neighbor_or_none() {
    for narrow in [false, true] {
        let nd = neighbors(narrow);
        let left_only = ProbabilityTables::new(0, true, false);
        let r = left_only.adv_predict_dc_pix::<false>(&sample_raster(), 3, &nd, &features(narrow));
        assert_eq!((r.predicted_dc, r.uncertainty, r.uncertainty2), (-104, 26, 0));
        let above_only = ProbabilityTables::new(0, false, true);
        let r = above_only.adv_predict_dc_pix::<false>(&sample_raster(), 3, &nd, &features(narrow));
        assert_eq!((r.predicted_dc, r.uncertainty, r.uncertainty2), (14, 115, 0));
        let alone = ProbabilityTables::new(0, false, false);
        let r = alone.adv_predict_dc_pix::<false>(&sample_raster(), 3, &nd, &features(narrow));
        assert_eq!((r.predicted_dc, r.uncertainty, r.uncertainty2), (0, 0, 0));
        assert_eq!(r.advanced_predict_dc_pixels_sans_dc.get_block(), &SAMPLE_PIXELS);
    }
}

#[test]
fn edge_predictors_of_a_sample() {
    let (h, v) = ProbabilityTables::predict_next_edges(&sample_raster());
    assert_eq!(h, [0, 1369920, 353199, 0, 0, 0, 0, 184464]);
    assert_eq!(v, [-2947348, -1775808, 353199, 0, 0, 0, 0, 4240]);

    let above = NeighborSummary::new(
        &AlignedBlock::default(), 0, 0, [0, 10, 20, 30, 40, 50, 60, 70], [0; 8], &features(true),
    );
    let left = NeighborSummary::new(
        &AlignedBlock::default(), 0, 0, [0; 8],
        [0, -1000, -2000, -3000, -4000, -5000, -6000, -7000], &features(true),
    );
    let nd = NeighborData {
        above_left: AlignedBlock::default(),
        above: AlignedBlock::default(),
        left: AlignedBlock::default(),
        neighbor_context_above: above,
        neighbor_context_left: left,
    };
    let (h, v) = ProbabilityTables::predict_current_edges(&nd, &sample_raster());
    assert_eq!(h, [0, -727222, -353179, 30, 40, 50, 60, 45270]);
    assert_eq!(v, [-2947348, -728232, -355199, -3000, -4000, -5000, -6000, 38200]);
}

#[test]
fn dc_is_folded_into_its_range() {
    assert_eq!(ProbabilityTables::adv_predict_or_unpredict_dc(5, true, 100), 105);
    assert_eq!(ProbabilityTables::adv_predict_or_unpredict_dc(105, false, 100), 5);
    // 1000 + 100 leaves the range upwards and is folded by 2049
    assert_eq!(ProbabilityTables::adv_predict_or_unpredict_dc(1000, true, 100), 1100 - 2049);
    assert_eq!(ProbabilityTables::adv_predict_or_unpredict_dc(-949, false, 100), 1000);
    assert_eq!(ProbabilityTables::adv_predict_or_unpredict_dc(-1000, true, -100), -1100 + 2049);
    assert_eq!(ProbabilityTables::adv_predict_or_unpredict_dc(1024, true, 0), 1024);
    assert_eq!(ProbabilityTables::adv_predict_or_unpredict_dc(-1024, true, 0), -1024);
    assert_eq!(ProbabilityTables::adv_predict_or_unpredict_dc(1024, true, 1), -1024);
}

#[test]
fn context_of_the_count_of_non_zeros() {
    let summary = |n: u8| NeighborSummary::new(&AlignedBlock::default(), 0, n, [0; 8], [0; 8], &features(true));
    let nd = NeighborData {
        above_left: AlignedBlock::default(),
        above: AlignedBlock::default(),
        left: AlignedBlock::default(),
        neighbor_context_above: summary(49),
        neighbor_context_left: summary(10),
    };
    // both: (49 + 10 + 2) / 4 = 15 is in bin 7
    assert_eq!(ProbabilityTables::new(0, true, true).calc_num_non_zeros_7x7_context_bin::<true>(&nd), 7);
    assert_eq!(ProbabilityTables::new(0, true, true).calc_num_non_zeros_7x7_context_bin::<false>(&nd), 7);
    // above only: (49 + 1) / 2 = 25 is in bin 8
    assert_eq!(ProbabilityTables::new(0, false, true).calc_num_non_zeros_7x7_context_bin::<false>(&nd), 8);
    // left only: (10 + 1) / 2 = 5 is in bin 4
    assert_eq!(ProbabilityTables::new(0, true, false).calc_num_non_zeros_7x7_context_bin::<false>(&nd), 4);
    assert_eq!(ProbabilityTables::new(0, false, false).calc_num_non_zeros_7x7_context_bin::<false>(&nd), 0);
    assert_eq!(ProbabilityTables::num_non_zeros_to_bin_7x7(0), 0);
    assert_eq!(ProbabilityTables::num_non_zeros_to_bin_7x7(1), 0);
    assert_eq!(ProbabilityTables::num_non_zeros_to_bin_7x7(7), 4);
    assert_eq!(ProbabilityTables::num_non_zeros_to_bin_7x7(49), 8);
}

#[test]
fn expected_magnitudes_from_the_neighbors() {
    let left = AlignedBlock::new(core::array::from_fn(|i| -(i as i16)));
    let above = AlignedBlock::new(core::array::from_fn(|i| 2 * i as i16));
    let above_left = AlignedBlock::new(core::array::from_fn(|i| 2047 - i as i16));
    let all = ProbabilityTables::new(0, true, true);
    let r = all.calc_coefficient_context_7x7_aavg_block::<true>(&left, &above, &above_left);
    for i in 0..8 {
        assert_eq!(r[i], 0);
    }
    for i in 8..64u16 {
        assert_eq!(r[i as usize], ((i + 2 * i) * 13 + 6 * (2047 - i)) >> 5);
    }
    assert_eq!(r[63], (189 * 13 + 6 * 1984) >> 5);
    let r = ProbabilityTables::new(0, true, false)
        .calc_coefficient_context_7x7_aavg_block::<false>(&left, &above, &above_left);
    assert_eq!(r[63], 63);
    let r = ProbabilityTables::new(0, false, true)
        .calc_coefficient_context_7x7_aavg_block::<false>(&left, &above, &above_left);
    assert_eq!(r[63], 126);
    let r = ProbabilityTables::new(0, false, false)
        .calc_coefficient_context_7x7_aavg_block::<false>(&left, &above, &above_left);
    assert_eq!(r, [0u16; 64]);
    // the largest magnitudes stay within sixteen bits
    let big = AlignedBlock::new([-2047; 64]);
    let r = all.calc_coefficient_context_7x7_aavg_block::<true>(&big, &big, &big);
    assert_eq!(r[9], 2047);
}

#[test]
fn expected_edge_coefficient() {
    let mut zigzag = [4u16; 64];
    zigzag[1] = 0;
    let qt = QuantizationTables::new_from_table(&zigzag);
    let pt = ProbabilityTables::new(0, true, true);
    let pred = [0, 65536 * 3, -65536 * 3 - 1, 7, 8, 9, 10, -(1 << 30)];
    // position 16 is column 2, row 0: pred[2] / (4 << 13), toward zero
    assert_eq!(pt.calc_coefficient_context8_lak::<true, true>(&qt, 16, &pred), -6);
    assert_eq!(pt.calc_coefficient_context8_lak::<true, false>(&qt, 2, &pred), -6);
    assert_eq!(pt.calc_coefficient_context8_lak::<true, false>(&qt, 7, &pred), -32768);
    // the step at raster position 1 is zero
    assert_eq!(qt.get_quantization_table_transposed()[8], 0);
    assert_eq!(pt.calc_coefficient_context8_lak::<true, true>(&qt, 8, &pred), 0);
    let no_above = ProbabilityTables::new(0, true, false);
    assert_eq!(no_above.calc_coefficient_context8_lak::<false, true>(&qt, 16, &pred), 0);
    assert_eq!(no_above.calc_coefficient_context8_lak::<false, false>(&qt, 2, &pred), -6);
}

#[test]
fn tables_and_colors() {
    let pt = ProbabilityTables::new(2, true, false);
    assert!(pt.is_left_present());
    assert!(!pt.is_above_present());
    assert!(!pt.is_all_present());
    assert_eq!(pt.get_color_index(), 1);
    assert_eq!(ProbabilityTables::new(0, true, true).get_color_index(), 0);
    assert!(ProbabilityTables::new(0, true, true).is_all_present());
    let set = ProbabilityTablesSet::new();
    for i in 0..4 {
        assert!(!set.corner[i].is_left_present() && !set.corner[i].is_above_present());
        assert!(set.top[i].is_left_present() && !set.top[i].is_above_present());
        assert!(!set.mid_left[i].is_left_present() && set.mid_left[i].is_above_present());
        assert!(set.middle[i].is_all_present());
        assert!(set.mid_right[i].is_all_present());
        assert!(!set.width_one[i].is_left_present() && set.width_one[i].is_above_present());
        assert_eq!(set.middle[i].get_color_index(), if i == 0 { 0 } else { 1 });
    }
}

#[test]
fn bit_lengths() {
    assert_eq!(u16_bit_length(0), 0);
    assert_eq!(u16_bit_length(1), 1);
    assert_eq!(u16_bit_length(255), 8);
    assert_eq!(u16_bit_length(256), 9);
    assert_eq!(u16_bit_length(65535), 16);
    assert_eq!(u32_bit_length(0), 0);
    assert_eq!(u32_bit_length(2047), 11);
    assert_eq!(u32_bit_length(2048), 12);
    assert_eq!(u32_bit_length(u32::MAX), 32);
}
