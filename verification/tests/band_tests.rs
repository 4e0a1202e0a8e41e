use lepton_jpeg::block_based_image::{AlignedBlock, BlockBasedImage};
use lepton_jpeg::enabled_features::EnabledFeatures;
use lepton_jpeg::jpeg_header::{ComponentInfo, JPegHeader};
use lepton_jpeg::lepton_decoder::lepton_decode_row_range;
use lepton_jpeg::lepton_encoder::lepton_encode_row_range;
use lepton_jpeg::lepton_error::ExitCode;
use lepton_jpeg::probability_tables_set::ProbabilityTablesSet;
use lepton_jpeg::quantization_tables::QuantizationTables;
use lepton_jpeg::truncate_components::TruncateComponents;

struct Picture {
    header: JPegHeader,
    components: usize,
    mcuv: i32,
    blocks: Vec<Vec<AlignedBlock>>,
}

/// A small generator of pseudo-random numbers.
struct Lcg(u64);

impl Lcg {
    fn next(&mut self) -> u32 {
        self.0 = self.0.wrapping_mul(6364136223846793005).wrapping_add(1442695040888963407);
        (self.0 >> 33) as u32
    }
}

/// Blocks that change smoothly from place to place, as those of a picture do.
fn picture(widths: &[i32], heights: &[i32], mcuv: i32, seed: u64) -> Picture {
    let mut rng = Lcg(seed);
    let mut w4 = [1; 4];
    let mut h4 = [1; 4];
    for i in 0..widths.len() {
        w4[i] = widths[i];
        h4[i] = heights[i];
    }
    let header = JPegHeader {
        q_tables: [core::array::from_fn(|i| 2 + (i as u16 / 8)), [5; 64], [1; 64], [1; 64]],
        components: core::array::from_fn(|i| ComponentInfo {
            q_table_index: if i == 0 { 0 } else { 1 },
            bcv: h4[i],
            bch: w4[i],
        }),
    };
    let mut blocks = Vec::new();
    for c in 0..widths.len() {
        let mut of_component = Vec::new();
        for y in 0..heights[c] {
            for x in 0..widths[c] {
                let mut data = [0i16; 64];
                data[0] = (20 + 3 * x + 2 * y + (rng.next() % 3) as i32) as i16;
                for i in 1..64 {
                    let r = rng.next();
                    if r % 4 == 0 {
                        data[i] = ((r >> 8) % 31) as i16 - 15;
                    }
                }
                of_component.push(AlignedBlock::new(data));
            }
        }
        blocks.push(of_component);
    }
    Picture { header, components: widths.len(), mcuv, blocks }
}

impl Picture {
    fn tables(&self) -> Vec<QuantizationTables> {
        (0..self.components).map(|c| QuantizationTables::new(&self.header, c)).collect()
    }

    fn truncation(&self) -> TruncateComponents {
        let info = &self.header.components;
        TruncateComponents {
            component_sizes_in_blocks: (0..self.components).map(|c| info[c].bch * info[c].bcv).collect(),
            max_coded_heights: (0..self.components).map(|c| info[c].bcv).collect(),
            mcu_count_vertical: self.mcuv,
        }
    }

    fn images(&self) -> Vec<BlockBasedImage> {
        let luma_height = self.header.components[0].bcv;
        (0..self.components)
            .map(|c| {
                let mut image = BlockBasedImage::new(&self.header, c, 0, luma_height);
                for b in self.blocks[c].iter() {
                    image.append_block(*b);
                }
                image
            })
            .collect()
    }

    fn encode(&self, min_y: i32, max_y: i32, last: bool, features: &EnabledFeatures) -> Vec<u8> {
        lepton_encode_row_range(
            &ProbabilityTablesSet::new(),
            &self.tables(),
            &self.truncation(),
            &self.images(),
            min_y,
            max_y,
            last,
            true,
            features,
        )
        .unwrap()
    }

    fn decode(
        &self,
        data: Vec<u8>,
        min_y: i32,
        max_y: i32,
        last: bool,
        features: &EnabledFeatures,
    ) -> Vec<BlockBasedImage> {
        let mut images: Vec<BlockBasedImage> = (0..self.components)
            .map(|c| BlockBasedImage::new(&self.header, c, min_y, max_y))
            .collect();
        lepton_decode_row_range(
            &ProbabilityTablesSet::new(),
            &self.tables(),
            &self.truncation(),
            &mut images,
            data,
            min_y,
            max_y,
            last,
            true,
            features,
        )
        .unwrap();
        images
    }

    fn check(&self, images: &[BlockBasedImage]) {
        for c in 0..self.components {
            assert_eq!(images[c].dump().0, self.blocks[c].len());
            for (d, b) in self.blocks[c].iter().enumerate() {
                assert_eq!(images[c].get_block(d as i32).get_block(), b.get_block(), "component {} block {}", c, d);
            }
        }
    }
}

#[test]
fn image_of_one_component_comes_back() {
    for narrow in [false, true] {
        let features = EnabledFeatures { use_16bit_adv_predict: narrow };
        let p = picture(&[5], &[8], 8, 1);
        let data = p.encode(0, 8, true, &features);
        let images = p.decode(data, 0, 8, true, &features);
        p.check(&images);
    }
}

#[test]
fn image_of_three_components_comes_back() {
    let features = EnabledFeatures { use_16bit_adv_predict: true };
    let p = picture(&[6, 3, 3], &[8, 4, 4], 4, 2);
    let data = p.encode(0, 8, true, &features);
    assert!(data.len() > 100);
    let images = p.decode(data, 0, 8, true, &features);
    p.check(&images);
}

#[test]
fn image_one_block_wide_comes_back() {
    let features = EnabledFeatures { use_16bit_adv_predict: true };
    let p = picture(&[1], &[5], 5, 3);
    let data = p.encode(0, 5, true, &features);
    let images = p.decode(data, 0, 5, true, &features);
    p.check(&images);
}

#[test]
fn two_bands_give_what_one_gives() {
    let features = EnabledFeatures { use_16bit_adv_predict: true };
    for p in [picture(&[5], &[8], 8, 4), picture(&[6, 3, 3], &[8, 4, 4], 4, 5)] {
        let whole = p.decode(p.encode(0, 8, true, &features), 0, 8, true, &features);
        p.check(&whole);

        let upper = p.encode(0, 4, false, &features);
        let lower = p.encode(4, 8, true, &features);
        let mut parts = vec![
            p.decode(upper, 0, 4, false, &features),
            p.decode(lower, 4, 8, true, &features),
        ];
        let merged: Vec<BlockBasedImage> =
            (0..p.components).map(|c| BlockBasedImage::merge(&mut parts, c)).collect();
        p.check(&merged);
        for c in 0..p.components {
            assert_eq!(merged[c].dump().0, whole[c].dump().0);
            for d in 0..p.blocks[c].len() as i32 {
                assert_eq!(merged[c].get_block(d).get_block(), whole[c].get_block(d).get_block());
            }
        }
    }
}

#[test]
fn features_change_the_stream_not_the_image() {
    let p = picture(&[4], &[4], 4, 6);
    for narrow in [false, true] {
        let features = EnabledFeatures { use_16bit_adv_predict: narrow };
        let images = p.decode(p.encode(0, 4, true, &features), 0, 4, true, &features);
        p.check(&images);
    }
}

#[test]
fn truncated_stream_is_inconsistent_or_differs() {
    let features = EnabledFeatures { use_16bit_adv_predict: true };
    let p = picture(&[5], &[8], 8, 7);
    let data = vec![0xffu8; 400];
    let mut images: Vec<BlockBasedImage> =
        (0..1).map(|c| BlockBasedImage::new(&p.header, c, 0, 8)).collect();
    let r = lepton_decode_row_range(
        &ProbabilityTablesSet::new(),
        &p.tables(),
        &p.truncation(),
        &mut images,
        data,
        0,
        8,
        true,
        true,
        &features,
    );
    assert_eq!(r.err(), Some(ExitCode::StreamInconsistent));
}

#[test]
fn image_that_is_too_small_is_inconsistent() {
    let features = EnabledFeatures { use_16bit_adv_predict: true };
    let p = picture(&[5], &[8], 8, 8);
    let data = p.encode(0, 8, true, &features);
    // room for the first half only
    let mut images = vec![BlockBasedImage::new(&p.header, 0, 0, 4)];
    let r = lepton_decode_row_range(
        &ProbabilityTablesSet::new(),
        &p.tables(),
        &p.truncation(),
        &mut images,
        data,
        0,
        8,
        true,
        true,
        &features,
    );
    assert_eq!(r.err(), Some(ExitCode::StreamInconsistent));
}

#[test]
fn coefficient_out_of_range_stops_the_encoder() {
    let features = EnabledFeatures { use_16bit_adv_predict: true };
    let mut p = picture(&[3], &[2], 2, 9);
    let mut data = *p.blocks[0][4].get_block();
    data[9] = 2048;
    p.blocks[0][4] = AlignedBlock::new(data);
    let r = lepton_encode_row_range(
        &ProbabilityTablesSet::new(),
        &p.tables(),
        &p.truncation(),
        &p.images(),
        0,
        2,
        true,
        true,
        &features,
    );
    assert_eq!(r.err(), Some(ExitCode::CoefficientOutOfRange));
}

#[test]
fn coding_order_that_cannot_be_counted_is_refused() {
    // one row of MCUs of 2^31 - 1 rows of blocks: the next row of MCUs has no number
    let features = EnabledFeatures { use_16bit_adv_predict: true };
    let info = ComponentInfo { q_table_index: 0, bcv: i32::MAX, bch: 1 };
    let header = JPegHeader { q_tables: [[1; 64]; 4], components: [info; 4] };
    let trunc = TruncateComponents {
        component_sizes_in_blocks: vec![0],
        max_coded_heights: vec![0],
        mcu_count_vertical: 1,
    };
    let tables = vec![QuantizationTables::new(&header, 0)];
    let mut images = vec![BlockBasedImage::new(&header, 0, 0, 0)];
    let r = lepton_decode_row_range(
        &ProbabilityTablesSet::new(),
        &tables,
        &trunc,
        &mut images,
        vec![0; 8],
        0,
        1,
        true,
        true,
        &features,
    );
    assert_eq!(r.err(), Some(ExitCode::AssertionFailure));
    let images = vec![BlockBasedImage::new(&header, 0, 0, 0)];
    let r = lepton_encode_row_range(
        &ProbabilityTablesSet::new(),
        &tables,
        &trunc,
        &images,
        0,
        1,
        true,
        true,
        &features,
    );
    assert_eq!(r.err(), Some(ExitCode::AssertionFailure));
}
