use lepton_jpeg::branch::Branch;
use lepton_jpeg::vpx_bool_reader::VPXBoolReader;
use lepton_jpeg::vpx_bool_writer::VPXBoolWriter;

fn states(branches: &[Branch]) -> Vec<u64> {
    branches.iter().map(|b| b.get_u64()).collect()
}

#[test]
fn eight_bits_with_fresh_branches_come_back() {
    let bits = [true, false, true, true, false, false, false, true];
    let mut writer = VPXBoolWriter::new();
    let mut write_branches = [Branch::new(); 8];
    for i in 0..8 {
        writer.put(bits[i], &mut write_branches[i]);
    }
    let data = writer.finish();

    let mut reader = VPXBoolReader::new(data);
    let mut read_branches = [Branch::new(); 8];
    for i in 0..8 {
        assert_eq!(reader.get(&mut read_branches[i]), bits[i]);
        assert_eq!(read_branches[i].get_u64(), write_branches[i].get_u64());
    }
}

/// A small generator of pseudo-random numbers.
struct Lcg(u64);

impl Lcg {
    fn next(&mut self) -> u32 {
        self.0 = self.0.wrapping_mul(6364136223846793005).wrapping_add(1442695040888963407);
        (self.0 >> 33) as u32
    }
}

#[test]
fn long_runs_of_skewed_bits_come_back() {
    for seed in 0..20u64 {
        let mut rng = Lcg(seed);
        let n = 20000;
        let mut bits = Vec::new();
        let mut which = Vec::new();
        for _ in 0..n {
            let w = (rng.next() % 16) as usize;
            // cell w is true with a chance that grows with w
            let bit = (rng.next() % 16) < w as u32;
            which.push(w);
            bits.push(bit);
        }
        let mut writer = VPXBoolWriter::new();
        let mut write_branches = [Branch::new(); 16];
        for i in 0..n {
            writer.put(bits[i], &mut write_branches[which[i]]);
        }
        let data = writer.finish();
        assert!(data.len() < n / 8 + 100);

        let mut reader = VPXBoolReader::new(data);
        let mut read_branches = [Branch::new(); 16];
        for i in 0..n {
            assert_eq!(reader.get(&mut read_branches[which[i]]), bits[i], "seed {} bit {}", seed, i);
        }
        assert_eq!(states(&read_branches), states(&write_branches));
    }
}

#[test]
fn runs_of_one_bit_come_back() {
    for bit in [false, true] {
        let mut writer = VPXBoolWriter::new();
        let mut branch = Branch::new();
        for _ in 0..5000 {
            writer.put(bit, &mut branch);
        }
        let data = writer.finish();
        let mut reader = VPXBoolReader::new(data);
        let mut branch = Branch::new();
        for _ in 0..5000 {
            assert_eq!(reader.get(&mut branch), bit);
        }
    }
}

#[test]
fn grid_values_come_back() {
    let mut writer = VPXBoolWriter::new();
    let mut cells = [Branch::new(); 64];
    for v in 0..64u8 {
        writer.put_grid(v, &mut cells);
    }
    for v in (0..64u8).rev() {
        writer.put_grid(v, &mut cells);
    }
    let data = writer.finish();
    let mut reader = VPXBoolReader::new(data);
    let mut cells = [Branch::new(); 64];
    for v in 0..64usize {
        assert_eq!(reader.get_grid(&mut cells), v);
    }
    for v in (0..64usize).rev() {
        assert_eq!(reader.get_grid(&mut cells), v);
    }
}

#[test]
fn unary_numbers_come_back() {
    let mut writer = VPXBoolWriter::new();
    let mut cells = [Branch::new(); 11];
    for v in 0..=11usize {
        writer.put_unary_encoded(v, &mut cells);
    }
    let data = writer.finish();
    let mut reader = VPXBoolReader::new(data);
    let mut cells = [Branch::new(); 11];
    for v in 0..=11usize {
        assert_eq!(reader.get_unary_encoded(&mut cells), v);
    }
}

#[test]
fn numbers_of_n_bits_come_back() {
    let mut writer = VPXBoolWriter::new();
    let mut cells = [Branch::new(); 10];
    for n in 0..=10usize {
        for v in [0usize, 1, 5, 341, 682, 1023] {
            writer.put_n_bits(v & ((1 << n) - 1), n, &mut cells);
        }
    }
    let data = writer.finish();
    let mut reader = VPXBoolReader::new(data);
    let mut cells = [Branch::new(); 10];
    for n in 0..=10usize {
        for v in [0usize, 1, 5, 341, 682, 1023] {
            assert_eq!(reader.get_n_bits(n, &mut cells), v & ((1 << n) - 1));
        }
    }
}

#[test]
fn reading_past_the_end_reads_zeros() {
    let mut short = VPXBoolReader::new(vec![0x5a, 0x3c]);
    let mut long = VPXBoolReader::new(vec![0x5a, 0x3c, 0, 0, 0, 0, 0, 0, 0, 0, 0, 0]);
    let mut a = Branch::new();
    let mut b = Branch::new();
    for _ in 0..64 {
        assert_eq!(short.get(&mut a), long.get(&mut b));
    }
}

#[test]
fn first_bits_of_a_known_stream() {
    // the marker bit takes the first false; with even chances the bits of the
    // first byte follow
    let mut reader = VPXBoolReader::new(vec![0b0101_0101, 0xff, 0xff, 0xff]);
    let mut got = Vec::new();
    for _ in 0..4 {
        let mut fresh = Branch::new();
        got.push(reader.get(&mut fresh));
    }
    assert_eq!(got, vec![true, false, true, false]);
}
