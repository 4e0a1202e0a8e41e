//! One adaptive binary probability cell.
//!
//! A cell packs two saturating counters into sixteen bits: how often `false`
//! was seen (high byte) and how often `true` was seen (low byte). The
//! probability of `false`, in units of 1/256, is a function of the packed
//! state alone.

use vstd::prelude::*;

verus! {

/// State entered when `true` is seen with 255 trues against a single false.
/// It stands for the counts (1, 255) with the probability forced to zero.
pub const SENTINEL: u16 = 0x00ff;

/// Number of `false` observations held in a packed state.
pub open spec fn false_count(state: u16) -> int {
    state as int / 256
}

/// Number of `true` observations held in a packed state.
pub open spec fn true_count(state: u16) -> int {
    state as int % 256
}

/// The states a cell can be in: both counts at least one, or the sentinel.
pub open spec fn state_valid(state: u16) -> bool {
    state == SENTINEL || (false_count(state) >= 1 && true_count(state) >= 1)
}

/// Probability of `false`, out of 256, that a state stands for: the share of
/// false observations, and zero at the sentinel.
pub open spec fn probability_of(state: u16) -> u8 {
    if false_count(state) == 0 || true_count(state) == 0 {
        0
    } else {
        ((false_count(state) * 256) / (false_count(state) + true_count(state))) as u8
    }
}

/// State after a `true` observation.
pub open spec fn after_true(state: u16) -> u16 {
    if true_count(state) != 255 {
        (state + 1) as u16
    } else if false_count(state) <= 1 {
        SENTINEL
    } else {
        (((false_count(state) + 1) / 2) * 256 + 129) as u16
    }
}

/// State after a `false` observation.
pub open spec fn after_false(state: u16) -> u16 {
    if 1 <= false_count(state) <= 254 {
        (state + 256) as u16
    } else if state == SENTINEL {
        0x02ff
    } else if state == 0xff01 {
        state
    } else {
        (129 * 256 + (true_count(state) + 1) / 2) as u16
    }
}

/// State after observing `bit`.
pub open spec fn after_bit(state: u16, bit: bool) -> u16 {
    if bit {
        after_true(state)
    } else {
        after_false(state)
    }
}

/// State after observing every bit of `bits` in order.
pub open spec fn after_bits(state: u16, bits: Seq<bool>) -> u16
    decreases bits.len(),
{
    if bits.len() == 0 {
        state
    } else {
        after_bit(after_bits(state, bits.drop_last()), bits.last())
    }
}

/// A probability cell that keeps both counts and the probability byte, and
/// recomputes the byte from the counts at every update.
pub ghost struct CountingCell {
    pub false_count: int,
    pub true_count: int,
    pub probability: int,
}

/// One update of a `CountingCell`. A count that would pass 255 halves both
/// counts, rounding up, and sets the observed one to 129; but while the other
/// side was never seen the counts stay and the probability goes to its extreme.
pub open spec fn counting_update(cell: CountingCell, bit: bool) -> CountingCell {
    let seen = if bit { cell.true_count } else { cell.false_count };
    let other = if bit { cell.false_count } else { cell.true_count };
    if seen == 255 {
        if other == 1 {
            CountingCell { probability: if bit { 0 } else { 255 }, ..cell }
        } else {
            let f = if bit { (1 + cell.false_count) / 2 } else { 129 };
            let t = if bit { 129 } else { (1 + cell.true_count) / 2 };
            CountingCell { false_count: f, true_count: t, probability: ((f * 256) / (f + t)) % 256 }
        }
    } else {
        let f = if bit { cell.false_count } else { cell.false_count + 1 };
        let t = if bit { cell.true_count + 1 } else { cell.true_count };
        CountingCell { false_count: f, true_count: t, probability: ((f * 256) / (f + t)) % 256 }
    }
}

/// A `CountingCell` after every bit of `bits` in order.
pub open spec fn counting_updates(cell: CountingCell, bits: Seq<bool>) -> CountingCell
    decreases bits.len(),
{
    if bits.len() == 0 {
        cell
    } else {
        counting_update(counting_updates(cell, bits.drop_last()), bits.last())
    }
}

/// The counts that a packed state stands for.
pub open spec fn counts_of(state: u16) -> (int, int) {
    if state == SENTINEL {
        (1, 255)
    } else {
        (false_count(state), true_count(state))
    }
}

/// Packed state holding the given counts.
pub open spec fn pack(false_count: u8, true_count: u8) -> u16 {
    (false_count as int * 256 + true_count as int) as u16
}

/// An update keeps a valid state valid.
pub proof fn lemma_update_keeps_valid(state: u16, bit: bool)
    requires
        state_valid(state),
    ensures
        state_valid(after_bit(state, bit)),
{
}

/// Away from the sentinel the probability is `(F << 8) / (F + T)` for the
/// counts `F` and `T` of the state; at the sentinel it is zero.
pub proof fn lemma_probability_formula(state: u16)
    requires
        state_valid(state),
    ensures
        state == SENTINEL ==> probability_of(state) == 0,
        state != SENTINEL ==> probability_of(state) == (false_count(state) * 256) / (
        false_count(state) + true_count(state)),
{
    if state != SENTINEL {
        let f = false_count(state);
        let t = true_count(state);
        assert(0 <= (f * 256) / (f + t) < 256) by (nonlinear_arith)
            requires
                1 <= f <= 255,
                1 <= t <= 255,
        ;
    }
}

/// One update of a packed state agrees with one update of a counting cell
/// that holds the same counts: the counts agree afterwards, and so does the
/// probability.
pub proof fn lemma_update_matches_counting(state: u16, cell: CountingCell, bit: bool)
    requires
        state_valid(state),
        counts_of(state) == (cell.false_count, cell.true_count),
    ensures
        state_valid(after_bit(state, bit)),
        counts_of(after_bit(state, bit)) == (
            counting_update(cell, bit).false_count,
            counting_update(cell, bit).true_count,
        ),
        probability_of(after_bit(state, bit)) == counting_update(cell, bit).probability,
{
    let next = after_bit(state, bit);
    let after = counting_update(cell, bit);
    let f = false_count(next);
    let t = true_count(next);
    if next != SENTINEL {
        assert(f == after.false_count && t == after.true_count);
        assert(0 <= (f * 256) / (f + t) < 256) by (nonlinear_arith)
            requires
                1 <= f <= 255,
                1 <= t <= 255,
        ;
        if next == 0xff01 {
            assert((255 * 256) / 256 == 255int);
        }
    }
}

/// Starting from any counts in 1..=255 and after any non-empty run of
/// observations, the packed state yields the probability that a counting
/// cell started at the same counts has computed.
pub proof fn lemma_trajectory_matches_counting(
    false_start: u8,
    true_start: u8,
    probability_start: int,
    bits: Seq<bool>,
)
    requires
        false_start >= 1,
        true_start >= 1,
    ensures
        ({
            let start = CountingCell {
                false_count: false_start as int,
                true_count: true_start as int,
                probability: probability_start,
            };
            let state = after_bits(pack(false_start, true_start), bits);
            let cell = counting_updates(start, bits);
            &&& state_valid(state)
            &&& counts_of(state) == (cell.false_count, cell.true_count)
            &&& bits.len() > 0 ==> probability_of(state) == cell.probability
        }),
    decreases bits.len(),
{
    let start = CountingCell {
        false_count: false_start as int,
        true_count: true_start as int,
        probability: probability_start,
    };
    if bits.len() > 0 {
        lemma_trajectory_matches_counting(
            false_start,
            true_start,
            probability_start,
            bits.drop_last(),
        );
        lemma_update_matches_counting(
            after_bits(pack(false_start, true_start), bits.drop_last()),
            counting_updates(start, bits.drop_last()),
            bits.last(),
        );
    }
}

/// An adaptive probability cell.
#[derive(Clone, Copy)]
pub struct Branch {
    counts: u16,
}

impl Default for Branch {
    fn default() -> (r: Branch)
        ensures
            r.state() == 0x0101,
    {
        Branch::new()
    }
}

impl Branch {
    #[verifier::type_invariant]
    spec fn valid(self) -> bool {
        state_valid(self.counts)
    }

    /// The packed counts of the cell.
    pub closed spec fn state(self) -> u16 {
        self.counts
    }

    /// A cell that has seen one `false` and one `true`.
    pub fn new() -> (r: Self)
        ensures
            r.state() == 0x0101,
    {
        Branch { counts: 0x0101 }
    }

    /// A cell holding the given counts, if both are at least one.
    pub fn with_counts(false_count: u8, true_count: u8) -> (r: Option<Self>)
        ensures
            (false_count >= 1 && true_count >= 1) ==> r.is_some() && r.unwrap().state() == pack(
                false_count,
                true_count,
            ),
            (false_count == 0 || true_count == 0) ==> r.is_none(),
    {
        if false_count == 0 || true_count == 0 {
            None
        } else {
            let counts: u16 = false_count as u16 * 256 + true_count as u16;
            Some(Branch { counts })
        }
    }

    /// The probability byte above the packed counts, for tracing.
    pub fn get_u64(&self) -> (r: u64)
        ensures
            state_valid(self.state()),
            r == probability_of(self.state()) as int * 65536 + self.state() as int,
    {
        proof {
            use_type_invariant(self);
        }
        let p: u64 = self.get_probability() as u64;
        p * 65536 + self.counts as u64
    }

    /// Probability of `false`, out of 256.
    pub fn get_probability(&self) -> (p: u8)
        ensures
            state_valid(self.state()),
            p == probability_of(self.state()),
    {
        proof {
            use_type_invariant(self);
            lemma_probability_formula(self.counts);
        }
        let f: u32 = (self.counts / 256) as u32;
        let t: u32 = (self.counts % 256) as u32;
        if f == 0 {
            0
        } else {
            ((f * 256) / (f + t)) as u8
        }
    }

    /// Records a `true` observation.
    pub fn record_and_update_true_obs(&mut self)
        ensures
            final(self).state() == after_true(old(self).state()),
            state_valid(final(self).state()),
    {
        proof {
            use_type_invariant(&*self);
            lemma_update_keeps_valid(self.counts, true);
        }
        if self.counts % 256 != 255 {
            self.counts = self.counts + 1;
        } else if self.counts <= 0x01ff {
            self.counts = SENTINEL;
        } else {
            self.counts = ((self.counts / 256 + 1) / 2) * 256 + 129;
        }
    }

    /// Records a `false` observation.
    pub fn record_and_update_false_obs(&mut self)
        ensures
            final(self).state() == after_false(old(self).state()),
            state_valid(final(self).state()),
    {
        proof {
            use_type_invariant(&*self);
            lemma_update_keeps_valid(self.counts, false);
        }
        if 0x0100 <= self.counts && self.counts < 0xff00 {
            self.counts = self.counts + 0x0100;
        } else if self.counts == SENTINEL {
            self.counts = 0x02ff;
        } else if self.counts != 0xff01 {
            self.counts = 129 * 256 + (self.counts % 256 + 1) / 2;
        }
    }

    /// Records the observation `bit`.
    pub fn record_and_update_bit(&mut self, bit: bool)
        ensures
            final(self).state() == after_bit(old(self).state(), bit),
            state_valid(final(self).state()),
    {
        if bit {
            self.record_and_update_true_obs();
        } else {
            self.record_and_update_false_obs();
        }
    }
}

/// The probability byte of every packed state, indexed by the state.
pub fn problookup() -> (table: Vec<u8>)
    ensures
        table.len() == 65536,
        forall|i: int| 0 <= i < 65536 ==> #[trigger] table[i] == probability_of(i as u16),
{
    let mut table: Vec<u8> = Vec::new();
    let mut i: u32 = 0;
    while i < 65536
        invariant
            i <= 65536,
            table.len() == i,
            forall|j: int| 0 <= j < i ==> #[trigger] table[j] == probability_of(j as u16),
        decreases 65536 - i,
    {
        let f: u32 = i / 256;
        let t: u32 = i % 256;
        let p: u8 = if f == 0 || t == 0 {
            0
        } else {
            proof {
                assert(0 <= (f * 256) / (f + t) < 256) by (nonlinear_arith)
                    requires
                        1 <= f <= 255,
                        1 <= t <= 255,
                ;
            }
            ((f * 256) / (f + t)) as u8
        };
        table.push(p);
        i = i + 1;
    }
    table
}

} // verus!
