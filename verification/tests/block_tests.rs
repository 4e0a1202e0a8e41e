use lepton_jpeg::block_based_image::AlignedBlock;
use lepton_jpeg::block_context::NeighborData;
use lepton_jpeg::consts::{UNZIGZAG_49_TR, ZIGZAG_TO_TRANSPOSED};
use lepton_jpeg::enabled_features::EnabledFeatures;
use lepton_jpeg::lepton_decoder::read_coefficient_block;
use lepton_jpeg::lepton_encoder::write_coefficient_block;
use lepton_jpeg::lepton_error::ExitCode;
use lepton_jpeg::model::Model;
use lepton_jpeg::neighbor_summary::NeighborSummary;
use lepton_jpeg::probability_tables::ProbabilityTables;
use lepton_jpeg::quantization_tables::QuantizationTables;
use lepton_jpeg::vpx_bool_reader::VPXBoolReader;
use lepton_jpeg::vpx_bool_writer::VPXBoolWriter;

fn no_neighbors() -> NeighborData {
    NeighborData {
        above_left: AlignedBlock::default(),
        above: AlignedBlock::default(),
        left: AlignedBlock::default(),
        neighbor_context_above: NeighborSummary::default(),
        neighbor_context_left: NeighborSummary::default(),
    }
}

fn flat_table(step: u16) -> QuantizationTables {
    QuantizationTables::new_from_table(&[step; 64])
}

fn same_summary(a: &NeighborSummary, b: &NeighborSummary) {
    assert_eq!(a.get_num_non_zeros(), b.get_num_non_zeros());
    assert_eq!(a.get_horizontal(), b.get_horizontal());
    assert_eq!(a.get_vertical(), b.get_vertical());
    assert_eq!(a.get_horizontal_coef(), b.get_horizontal_coef());
    assert_eq!(a.get_vertical_coef(), b.get_vertical_coef());
}

/// Codes `blocks` one after the other, each with the given tables and
/// neighbours, and reads them back.
fn round_trip(
    pt: &ProbabilityTables,
    blocks: &[(AlignedBlock, NeighborData)],
    qt: &QuantizationTables,
    features: &EnabledFeatures,
) -> Vec<NeighborSummary> {
    let mut writer = VPXBoolWriter::new();
    let mut model = Model::new();
    let mut written = Vec::new();
    for (block, neighbors) in blocks {
        let summary =
            write_coefficient_block::<false>(pt, neighbors, block, &mut model, &mut writer, qt, features)
                .unwrap();
        written.push(summary);
    }
    let data = writer.finish();

    let mut reader = VPXBoolReader::new(data);
    let mut model = Model::new();
    for (i, (block, neighbors)) in blocks.iter().enumerate() {
        let (decoded, summary) =
            read_coefficient_block::<false>(pt, neighbors, &mut model, &mut reader, qt, features)
                .unwrap();
        assert_eq!(decoded.get_block(), block.get_block(), "block {}", i);
        same_summary(&summary, &written[i]);
    }
    written
}

#[test]
fn block_with_dc_only_comes_back() {
    let pt = ProbabilityTables::new(0, false, false);
    let features = EnabledFeatures { use_16bit_adv_predict: true };
    let qt = flat_table(2);
    let mut block = AlignedBlock::default();
    block.set_dc(128);
    let summaries = round_trip(&pt, &[(block, no_neighbors())], &qt, &features);
    assert_eq!(summaries[0].get_num_non_zeros(), 0);
}

#[test]
fn row_of_two_blocks_comes_back() {
    let features = EnabledFeatures { use_16bit_adv_predict: true };
    let qt = flat_table(3);
    let left = AlignedBlock::default();
    let mut right = AlignedBlock::default();
    right.set_transposed_from_zigzag(5, -7);
    assert_eq!(right.get_coefficient(usize::from(ZIGZAG_TO_TRANSPOSED[5])), -7);

    let corner = ProbabilityTables::new(0, false, false);
    let top = ProbabilityTables::new(0, true, false);

    let mut writer = VPXBoolWriter::new();
    let mut model = Model::new();
    let left_summary = write_coefficient_block::<false>(
        &corner, &no_neighbors(), &left, &mut model, &mut writer, &qt, &features,
    )
    .unwrap();
    let beside = NeighborData { left, neighbor_context_left: left_summary, ..no_neighbors() };
    let right_summary = write_coefficient_block::<false>(
        &top, &beside, &right, &mut model, &mut writer, &qt, &features,
    )
    .unwrap();
    let data = writer.finish();

    let mut reader = VPXBoolReader::new(data);
    let mut model = Model::new();
    let (left_back, left_summary_back) = read_coefficient_block::<false>(
        &corner, &no_neighbors(), &mut model, &mut reader, &qt, &features,
    )
    .unwrap();
    assert_eq!(left_back.get_block(), left.get_block());
    same_summary(&left_summary_back, &left_summary);
    let beside = NeighborData {
        left: left_back,
        neighbor_context_left: left_summary_back,
        ..no_neighbors()
    };
    let (right_back, right_summary_back) = read_coefficient_block::<false>(
        &top, &beside, &mut model, &mut reader, &qt, &features,
    )
    .unwrap();
    assert_eq!(right_back.get_block(), right.get_block());
    same_summary(&right_summary_back, &right_summary);
    // zigzag position 5 lies on the first column: the inner count stays zero
    assert_eq!(right_summary_back.get_num_non_zeros(), right.get_count_of_non_zeros_7x7());
}

/// A small generator of pseudo-random numbers.
struct Lcg(u64);

impl Lcg {
    fn next(&mut self) -> u32 {
        self.0 = self.0.wrapping_mul(6364136223846793005).wrapping_add(1442695040888963407);
        (self.0 >> 33) as u32
    }

    fn coefficient(&mut self, spread: u32) -> i16 {
        if self.next() % 3 == 0 {
            0
        } else {
            (self.next() % (2 * spread + 1)) as i16 - spread as i16
        }
    }
}

fn random_block(rng: &mut Lcg, spread: u32) -> AlignedBlock {
    let mut data = [0i16; 64];
    for c in data.iter_mut() {
        *c = rng.coefficient(spread);
    }
    // keep DC where every prediction can reach it
    data[0] = (rng.next() % 33) as i16 - 16;
    AlignedBlock::new(data)
}

#[test]
fn random_blocks_come_back_with_all_neighbors() {
    let mut total = 0;
    for use_16bit in [false, true] {
        let features = EnabledFeatures { use_16bit_adv_predict: use_16bit };
        for (seed, spread) in [(1u64, 1u32), (2, 1), (3, 2), (4, 3), (5, 7), (6, 30), (7, 2047)] {
            let mut rng = Lcg(seed);
            let qt = QuantizationTables::new_from_table(&core::array::from_fn(|i| 1 + (i as u16 % 9)));
            let pt = ProbabilityTables::new(1, true, true);
            let mut writer = VPXBoolWriter::new();
            let mut write_model = Model::new();
            let mut cases = Vec::new();
            let mut previous = NeighborSummary::default();
            let mut before = NeighborSummary::default();
            for _ in 0..40 {
                let neighbors = NeighborData {
                    above_left: random_block(&mut rng, spread),
                    above: random_block(&mut rng, spread),
                    left: random_block(&mut rng, spread),
                    neighbor_context_above: before,
                    neighbor_context_left: previous,
                };
                let block = random_block(&mut rng, spread);
                match write_coefficient_block::<true>(
                    &pt, &neighbors, &block, &mut write_model, &mut writer, &qt, &features,
                ) {
                    Ok(summary) => {
                        before = previous;
                        previous = summary;
                        cases.push((block, neighbors, summary));
                    }
                    Err(e) => {
                        // only the DC difference can be out of range here
                        assert_eq!(e, ExitCode::CoefficientOutOfRange);
                        break;
                    }
                }
            }
            total += cases.len();
            let data = writer.finish();
            let mut reader = VPXBoolReader::new(data);
            let mut read_model = Model::new();
            for (block, neighbors, summary) in cases.iter() {
                let (decoded, decoded_summary) = read_coefficient_block::<true>(
                    &pt, neighbors, &mut read_model, &mut reader, &qt, &features,
                )
                .unwrap();
                assert_eq!(decoded.get_block(), block.get_block());
                same_summary(&decoded_summary, summary);
            }
        }
    }
    assert!(total >= 50, "only {} blocks could be coded", total);
}

#[test]
fn random_blocks_come_back_without_neighbors() {
    let features = EnabledFeatures { use_16bit_adv_predict: false };
    for (seed, spread) in [(11u64, 1u32), (12, 100), (13, 2047)] {
        let mut rng = Lcg(seed);
        let qt = QuantizationTables::new_from_table(&core::array::from_fn(|i| 1 + (i as u16 % 20)));
        let pt = ProbabilityTables::new(0, false, false);
        let mut blocks = Vec::new();
        for _ in 0..60 {
            blocks.push((random_block(&mut rng, spread), no_neighbors()));
        }
        let summaries = round_trip(&pt, &blocks, &qt, &features);
        for (i, (block, _)) in blocks.iter().enumerate() {
            assert_eq!(summaries[i].get_num_non_zeros(), block.get_count_of_non_zeros_7x7());
        }
    }
}

#[test]
fn coefficient_of_twelve_digits_is_refused() {
    let pt = ProbabilityTables::new(0, false, false);
    let features = EnabledFeatures { use_16bit_adv_predict: true };
    let qt = flat_table(1);
    let mut block = AlignedBlock::default();
    block.set_coefficient(usize::from(UNZIGZAG_49_TR[3]), 2048);
    let mut writer = VPXBoolWriter::new();
    let mut model = Model::new();
    let r = write_coefficient_block::<false>(
        &pt, &no_neighbors(), &block, &mut model, &mut writer, &qt, &features,
    );
    assert_eq!(r.err(), Some(ExitCode::CoefficientOutOfRange));
}

#[test]
fn stream_that_announces_too_much_is_inconsistent() {
    // a stream of ones announces 63 non-zero coefficients among 49
    let pt = ProbabilityTables::new(0, false, false);
    let features = EnabledFeatures { use_16bit_adv_predict: true };
    let qt = flat_table(1);
    let mut reader = VPXBoolReader::new(vec![0x7f, 0xff, 0xff, 0xff, 0xff, 0xff, 0xff, 0xff]);
    let mut model = Model::new();
    let r = read_coefficient_block::<false>(
        &pt, &no_neighbors(), &mut model, &mut reader, &qt, &features,
    );
    assert_eq!(r.err(), Some(ExitCode::StreamInconsistent));
}
