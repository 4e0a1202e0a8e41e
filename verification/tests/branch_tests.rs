use lepton_jpeg::branch::{problookup, Branch};

/// A cell that keeps both counts and the probability byte, and recomputes
/// the byte from the counts at every update.
struct CountingCell {
    counts: [u8; 2],
    probability: u8,
}

impl CountingCell {
    fn true_count(&self) -> u32 {
        self.counts[1] as u32
    }

    fn false_count(&self) -> u32 {
        self.counts[0] as u32
    }

    fn record_obs_and_update(&mut self, obs: bool) {
        let fcount = self.counts[0] as u32;
        let tcount = self.counts[1] as u32;

        let overflow = self.counts[obs as usize] == 0xff;

        if overflow {
            let neverseen = self.counts[!obs as usize] == 1;
            if neverseen {
                self.counts[obs as usize] = 0xff;
                self.probability = if obs { 0 } else { 255 };
            } else {
                self.counts[0] = ((1 + fcount) >> 1) as u8;
                self.counts[1] = ((1 + tcount) >> 1) as u8;
                self.counts[obs as usize] = 129;
                self.probability = self.optimize(self.counts[0] as u32 + self.counts[1] as u32);
            }
        } else {
            self.counts[obs as usize] += 1;
            self.probability = self.optimize(fcount + tcount + 1);
        }
    }

    fn optimize(&self, sum: u32) -> u8 {
        let prob = (self.false_count() << 8) / sum;

        prob as u8
    }
}

/// run through all the possible combinations of counts and ensure that the probability is the same
#[test]
fn test_all_probabilities() {
    for i in 0u16..=65535 {
        let mut old_f = CountingCell {
            counts: [(i >> 8) as u8, i as u8],
            probability: 0,
        };

        if old_f.true_count() == 0 || old_f.false_count() == 0 {
            // starting counts can't be zero
            continue;
        }

        let mut new_f = Branch::with_counts((i >> 8) as u8, i as u8).unwrap();

        for _k in 0..10 {
            old_f.record_obs_and_update(false);
            new_f.record_and_update_false_obs();
            assert_eq!(old_f.probability, new_f.get_probability());
        }

        let mut old_t = CountingCell {
            counts: [(i >> 8) as u8, i as u8],
            probability: 0,
        };
        let mut new_t = Branch::with_counts((i >> 8) as u8, i as u8).unwrap();

        for _k in 0..10 {
            old_t.record_obs_and_update(true);
            new_t.record_and_update_true_obs();

            assert_eq!(old_t.probability, new_t.get_probability());
        }
    }
}

#[test]
fn fresh_branch_after_ten_trues() {
    let mut b = Branch::new();
    let mut reference = CountingCell { counts: [1, 1], probability: 0 };
    for _ in 0..10 {
        b.record_and_update_true_obs();
        reference.record_obs_and_update(true);
        assert_eq!(b.get_probability(), reference.probability);
    }
    assert_eq!(b.get_u64() & 0xffff, 0x010b);
    assert_eq!(b.get_probability(), 21);
}

#[test]
fn sentinel_is_entered_and_left() {
    let mut b = Branch::with_counts(1, 255).unwrap();
    b.record_and_update_true_obs();
    assert_eq!(b.get_u64() & 0xffff, 0x00ff);
    assert_eq!(b.get_probability(), 0);
    b.record_and_update_false_obs();
    assert_eq!(b.get_u64() & 0xffff, 0x02ff);
    assert_eq!(b.get_probability(), 1);
}

#[test]
fn counts_of_zero_are_refused() {
    assert!(Branch::with_counts(0, 5).is_none());
    assert!(Branch::with_counts(5, 0).is_none());
    assert!(Branch::with_counts(1, 1).is_some());
}

#[test]
fn saturated_false_count_stays() {
    let mut b = Branch::with_counts(255, 1).unwrap();
    b.record_and_update_false_obs();
    assert_eq!(b.get_u64() & 0xffff, 0xff01);
    assert_eq!(b.get_probability(), 255);
}

#[test]
fn lookup_table_holds_every_probability() {
    let table = problookup();
    assert_eq!(table.len(), 65536);
    assert_eq!(table[0x0101], 128);
    assert_eq!(table[0x0201], 170);
    assert_eq!(table[0x010b], 21);
    assert_eq!(table[0x02ff], 1);
    assert_eq!(table[0xff01], 255);
    assert_eq!(table[0x00ff], 0);
    assert_eq!(table[0x0100], 0);
    for f in 1u8..=255 {
        for t in 1u8..=255 {
            let b = Branch::with_counts(f, t).unwrap();
            let state = (b.get_u64() & 0xffff) as usize;
            assert_eq!(table[state], b.get_probability());
        }
    }
}
