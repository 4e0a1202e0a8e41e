use lepton_jpeg::block_based_image::{AlignedBlock, BlockBasedImage};
use lepton_jpeg::consts::{
    NON_ZERO_TO_BIN, NON_ZERO_TO_BIN_7X7, RASTER_TO_ZIGZAG, TRANSPOSED_TO_ZIGZAG, UNZIGZAG_49_TR,
    ZIGZAG_TO_TRANSPOSED,
};
use lepton_jpeg::jpeg_header::{ComponentInfo, JPegHeader};

fn header(widths: [i32; 4], heights: [i32; 4]) -> JPegHeader {
    JPegHeader {
        q_tables: [[1u16; 64]; 4],
        components: core::array::from_fn(|i| ComponentInfo {
            q_table_index: 0,
            bcv: heights[i],
            bch: widths[i],
        }),
    }
}

fn numbered(n: i16) -> AlignedBlock {
    AlignedBlock::new(core::array::from_fn(|i| n * 64 + i as i16))
}

#[test]
fn zigzag_to_transposed_is_a_permutation() {
    let mut seen = [false; 64];
    for i in 0..64 {
        let t = ZIGZAG_TO_TRANSPOSED[i] as usize;
        assert!(!seen[t]);
        seen[t] = true;
        assert_eq!(TRANSPOSED_TO_ZIGZAG[t] as usize, i);
        // transposing the raster position gives the same place in zigzag order
        assert_eq!(RASTER_TO_ZIGZAG[(t % 8) * 8 + t / 8] as usize, i);
    }
    assert!(seen.iter().all(|s| *s));
    assert_eq!(&ZIGZAG_TO_TRANSPOSED[..6], &[0, 8, 1, 2, 9, 16]);
}

#[test]
fn inner_coefficients_are_coded_in_zigzag_order() {
    let inner: Vec<u8> = ZIGZAG_TO_TRANSPOSED
        .iter()
        .copied()
        .filter(|t| t / 8 >= 1 && t % 8 >= 1)
        .collect();
    assert_eq!(inner, UNZIGZAG_49_TR.to_vec());
    assert_eq!(NON_ZERO_TO_BIN.len(), 26);
    assert_eq!(NON_ZERO_TO_BIN_7X7.len(), 50);
    assert!(NON_ZERO_TO_BIN.windows(2).all(|w| w[0] <= w[1]));
    assert!(NON_ZERO_TO_BIN_7X7.windows(2).all(|w| w[0] <= w[1]));
}

#[test]
fn block_accessors() {
    let mut b = numbered(0);
    assert_eq!(b.get_dc(), 0);
    b.set_dc(-5);
    assert_eq!(b.get_dc(), -5);
    assert_eq!(b.get_coefficient(17), 17);
    b.set_coefficient(17, 1700);
    assert_eq!(b.get_block()[17], 1700);
    b.get_block_mut()[18] = 1800;
    assert_eq!(b.get_coefficient(18), 1800);
    // zigzag position 5 is column 2, row 0
    b.set_transposed_from_zigzag(5, 55);
    assert_eq!(b.get_coefficient(16), 55);
    assert_eq!(b.get_transposed_from_zigzag(5), 55);
    assert_eq!(b.as_i16x8(1), [8, 9, 10, 11, 12, 13, 14, 15]);
    assert_eq!(b.from_stride(3, 8), [3, 11, 19, 27, 35, 43, 51, 59]);
    assert_eq!(AlignedBlock::default().get_block(), &[0i16; 64]);
}

#[test]
fn block_hash_and_count() {
    let b = numbered(0);
    assert_eq!(b.get_hash(), (0..64).sum::<i32>());
    // every inner place but none of the first row and column counts
    assert_eq!(b.get_count_of_non_zeros_7x7(), 49);
    assert_eq!(AlignedBlock::default().get_count_of_non_zeros_7x7(), 0);
    let mut edges = AlignedBlock::default();
    for i in 0..8 {
        edges.set_coefficient(i, 1);
        edges.set_coefficient(8 * i, 1);
    }
    assert_eq!(edges.get_count_of_non_zeros_7x7(), 0);
    edges.set_coefficient(9, -1);
    edges.set_coefficient(63, 3);
    assert_eq!(edges.get_count_of_non_zeros_7x7(), 2);
    assert_eq!(AlignedBlock::new([-32768; 64]).get_hash(), -32768 * 64);
    assert!(numbered(0).is_ac_in_range());
    let mut large = AlignedBlock::default();
    large.set_dc(30000);
    assert!(large.is_ac_in_range());
    large.set_coefficient(63, -2048);
    assert!(!large.is_ac_in_range());
}

#[test]
fn block_transposed_and_in_zigzag_order() {
    let b = numbered(0);
    let t = b.transpose();
    let z = b.zigzag_from_transposed();
    for row in 0..8 {
        for col in 0..8 {
            assert_eq!(t.get_coefficient(row * 8 + col), (col * 8 + row) as i16);
        }
    }
    assert_ne!(t.get_block(), b.get_block());
    assert_eq!(t.transpose().get_block(), b.get_block());
    for i in 0..64 {
        assert_eq!(z.get_coefficient(i), ZIGZAG_TO_TRANSPOSED[i] as i16);
    }
}

#[test]
fn image_of_a_band() {
    let h = header([6, 3, 3, 1], [8, 4, 4, 1]);
    let whole = BlockBasedImage::new(&h, 0, 0, 8);
    assert_eq!(whole.dump(), (0, 48, 0));
    assert_eq!(whole.get_block_width(), 6);
    assert_eq!(whole.get_original_height(), 8);
    let lower = BlockBasedImage::new(&h, 0, 4, 8);
    assert_eq!(lower.dump(), (0, 24, 24));
    // a chroma component of half the height: its rows 2 and 3 belong to luma rows 4 to 7
    let chroma = BlockBasedImage::new(&h, 1, 4, 8);
    assert_eq!(chroma.dump(), (0, 6, 6));
    // capacities are rounded up
    let odd = BlockBasedImage::new(&h, 1, 0, 3);
    assert_eq!(odd.dump(), (0, 5, 0));
}

#[test]
fn blocks_are_appended_and_set() {
    let h = header([3, 1, 1, 1], [4, 1, 1, 1]);
    let mut image = BlockBasedImage::new(&h, 0, 2, 4);
    assert_eq!(image.dump(), (0, 6, 6));
    assert!(image.has_room());
    image.append_block(numbered(1));
    image.append_block(numbered(2));
    assert_eq!(image.get_block(6).get_block(), numbered(1).get_block());
    assert_eq!(image.get_block(7).get_block(), numbered(2).get_block());
    // positions before and after what is held are empty
    assert_eq!(image.get_block(5).get_block(), &[0i16; 64]);
    assert_eq!(image.get_block(8).get_block(), &[0i16; 64]);
    assert_eq!(image.get_block(-1).get_block(), &[0i16; 64]);
    // setting a block further on fills the gap with empty blocks
    image.set_block_data(10, &numbered(3));
    assert_eq!(image.dump(), (5, 6, 6));
    assert_eq!(image.get_block(8).get_block(), &[0i16; 64]);
    assert_eq!(image.get_block(9).get_block(), &[0i16; 64]);
    assert_eq!(image.get_block(10).get_block(), numbered(3).get_block());
    assert_eq!(image.get_block(7).get_block(), numbered(2).get_block());
    image.set_block_data(7, &numbered(4));
    assert_eq!(image.get_block(7).get_block(), numbered(4).get_block());
    assert_eq!(image.dump(), (5, 6, 6));
    image.get_block_mut(11).set_dc(77);
    assert_eq!(image.get_block(11).get_dc(), 77);
    assert_eq!(image.dump(), (6, 6, 6));
    assert!(!image.has_room());
}

#[test]
fn cursor_at_a_row() {
    let h = header([5, 1, 1, 1], [4, 1, 1, 1]);
    let image = BlockBasedImage::new(&h, 0, 0, 4);
    let c = image.off_y(0);
    assert_eq!(
        (c.cur_block_index, c.above_block_index, c.cur_num_non_zeros_index, c.above_num_non_zero_index),
        (0, -1, 0, 5)
    );
    let c = image.off_y(1);
    assert_eq!(
        (c.cur_block_index, c.above_block_index, c.cur_num_non_zeros_index, c.above_num_non_zero_index),
        (5, 0, 5, 0)
    );
    let mut c = image.off_y(2);
    assert_eq!(
        (c.cur_block_index, c.above_block_index, c.cur_num_non_zeros_index, c.above_num_non_zero_index),
        (10, 5, 0, 5)
    );
    assert_eq!(c.get_here_index(), 10);
    assert_eq!(c.next(true), 11);
    assert_eq!(
        (c.cur_block_index, c.above_block_index, c.cur_num_non_zeros_index, c.above_num_non_zero_index),
        (11, 6, 1, 6)
    );
    assert_eq!(c.next(false), 12);
    assert_eq!(
        (c.cur_block_index, c.above_block_index, c.cur_num_non_zeros_index, c.above_num_non_zero_index),
        (12, 6, 1, 6)
    );
}

#[test]
fn bands_are_merged_in_order() {
    let h = header([2, 1, 1, 1], [6, 3, 3, 1]);
    let mut parts: Vec<Vec<BlockBasedImage>> = Vec::new();
    let mut n = 0;
    for (start, end) in [(0, 2), (2, 3), (3, 6)] {
        let mut luma = BlockBasedImage::new(&h, 0, start, end);
        for _ in 0..2 * (end - start) {
            luma.append_block(numbered(n));
            n += 1;
        }
        let chroma = BlockBasedImage::new(&h, 1, start, end);
        parts.push(vec![luma, chroma]);
    }
    let local: Vec<Vec<[i16; 64]>> = parts
        .iter()
        .map(|p| (0..12).map(|d| *p[0].get_block(d).get_block()).collect())
        .collect();
    let merged = BlockBasedImage::merge(&mut parts, 0);
    assert_eq!(merged.dump(), (12, 12, 0));
    assert_eq!(merged.get_block_width(), 2);
    assert_eq!(merged.get_original_height(), 6);
    for d in 0..12 {
        assert_eq!(merged.get_block(d).get_block(), numbered(d as i16).get_block());
        // each position comes from the band that held it
        let band = if d < 4 { 0 } else if d < 6 { 1 } else { 2 };
        assert_eq!(merged.get_block(d).get_block(), &local[band][d as usize]);
    }
    // the parts are left empty
    for p in parts.iter() {
        assert_eq!(p[0].dump().0, 0);
    }
}
