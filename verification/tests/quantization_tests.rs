use lepton_jpeg::consts::RASTER_TO_ZIGZAG;
use lepton_jpeg::jpeg_header::{ComponentInfo, JPegHeader};
use lepton_jpeg::quantization_tables::{QuantizationTables, MAX_NORMAL_Q};
use rayon::iter::{IntoParallelIterator, ParallelIterator};

#[test]
fn recip_test() {
    assert!((1..MAX_NORMAL_Q as u64 + 1).into_par_iter().all(|q| {
        let recip = QuantizationTables::recip(q as u16) as u64;
        for i in 0u64..(1 << 19) + 1 {
            if i / q != i * recip >> 31 {
                return false;
            };
        }
        return true;
    }));
}

#[test]
fn recip_of_some_steps() {
    assert_eq!(QuantizationTables::recip(0), 0);
    assert_eq!(QuantizationTables::recip(1), 1 << 31);
    assert_eq!(QuantizationTables::recip(2), 1 << 30);
    assert_eq!(QuantizationTables::recip(3), 715827883);
    assert_eq!(QuantizationTables::recip(4177), 514122);
    assert_eq!(QuantizationTables::recip(65535), 32769);
}

#[test]
fn recip_fails_just_above_the_largest_normal_step() {
    let q = MAX_NORMAL_Q as u64 + 1;
    let recip = QuantizationTables::recip(q as u16) as u64;
    assert!((0u64..(1 << 19) + 1).any(|i| i / q != i * recip >> 31));
}

#[test]
fn tables_are_put_in_raster_and_transposed_order() {
    let zigzag: [u16; 64] = core::array::from_fn(|i| 100 + i as u16);
    let qt = QuantizationTables::new_from_table(&zigzag);
    for row in 0..8 {
        for col in 0..8 {
            let expected = 100 + RASTER_TO_ZIGZAG[row * 8 + col] as u16;
            assert_eq!(qt.get_quantization_table()[row * 8 + col], expected);
            assert_eq!(qt.get_quantization_table_transposed()[col * 8 + row], expected);
        }
    }
    // zigzag order starts 0, 1, 8, 16, 9, 2 in raster terms
    assert_eq!(qt.get_quantization_table()[0], 100);
    assert_eq!(qt.get_quantization_table()[1], 101);
    assert_eq!(qt.get_quantization_table()[8], 102);
    assert_eq!(qt.get_quantization_table()[16], 103);
    assert_eq!(qt.get_quantization_table()[9], 104);
    assert_eq!(qt.get_quantization_table()[2], 105);
    assert!(qt.is_normal_table());
    let horizontal = qt.quantization_table_transposed_recip::<true>();
    let vertical = qt.quantization_table_transposed_recip::<false>();
    for i in 0..8 {
        assert_eq!(horizontal[i], QuantizationTables::recip(qt.get_quantization_table()[i]));
        assert_eq!(vertical[i], QuantizationTables::recip(qt.get_quantization_table()[8 * i]));
    }
    // all steps are above eight: no coefficient is split
    for i in 0..14 {
        assert_eq!(qt.get_min_noise_threshold(i), 0);
    }
}

#[test]
fn noise_thresholds_of_small_steps() {
    // a step of 1 leaves up to ten digits: three of them are coded in context
    let qt = QuantizationTables::new_from_table(&[1; 64]);
    for i in 0..14 {
        assert_eq!(qt.get_min_noise_threshold(i), 3);
    }
    // a step of 4 leaves (931 + 3) / 4 = 233, eight digits: one in context
    let qt = QuantizationTables::new_from_table(&[4; 64]);
    assert_eq!(qt.get_min_noise_threshold(0), 1);
    // a step of 8 leaves (1020 + 7) / 8 = 128, eight digits
    let qt = QuantizationTables::new_from_table(&[8; 64]);
    assert_eq!(qt.get_min_noise_threshold(3), 1);
    // (931 + 7) / 8 = 117 has seven digits: nothing in context
    assert_eq!(qt.get_min_noise_threshold(0), 0);
    // a step of 9 is never split
    let qt = QuantizationTables::new_from_table(&[9; 64]);
    assert_eq!(qt.get_min_noise_threshold(3), 0);
    // a step of zero counts as a step of one on 930
    let qt = QuantizationTables::new_from_table(&[0; 64]);
    assert_eq!(qt.get_min_noise_threshold(0), 3);
}

#[test]
fn large_step_makes_the_table_abnormal() {
    let mut zigzag = [16u16; 64];
    zigzag[40] = 4178;
    assert!(!QuantizationTables::new_from_table(&zigzag).is_normal_table());
    zigzag[40] = 4177;
    assert!(QuantizationTables::new_from_table(&zigzag).is_normal_table());
}

#[test]
fn table_of_a_component_is_taken_from_the_header() {
    let mut q_tables = [[1u16; 64]; 4];
    q_tables[2] = [7u16; 64];
    let info = ComponentInfo { q_table_index: 2, bcv: 1, bch: 1 };
    let header = JPegHeader { q_tables, components: [info; 4] };
    let qt = QuantizationTables::new(&header, 1);
    assert_eq!(qt.get_quantization_table(), &[7u16; 64]);
}
