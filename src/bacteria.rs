use vstd::prelude::*;

use crate::alphabet::AA_NUMBER;
use crate::model::count_code;
use crate::window::{all_codes, base_value, slide, window_index_of, LEN, M, M1, M2};

verus! {

/// Most residues one sequence may hold: every count stays below `2^32`, which
/// keeps the background model's exact arithmetic inside 128 bits.
pub const MAX_RESIDUES: u64 = 4294967295;

/// One entry of a composition vector: the residual of the full window
/// `index`, the exact fraction `num / den`.
#[derive(Debug, Clone, Copy, PartialEq, Eq, Structural)]
pub struct Residual {
    pub index: u64,
    pub num: i128,
    pub den: u128,
}

impl Residual {
    pub open spec fn view(&self) -> (int, int, int) {
        (self.index as int, self.num as int, self.den as int)
    }
}

/// The window-count tables a worker fills while loading one sequence: the
/// full-window counts and the medium-window counts.
pub struct Scratch {
    pub vector: Vec<u32>,
    pub second: Vec<u64>,
}

impl Scratch {
    /// Both tables have their full size and hold only zeros.
    pub open spec fn is_clear(&self) -> bool {
        &&& self.vector@.len() == M
        &&& self.second@.len() == M1
        &&& forall|w: int| 0 <= w < M ==> #[trigger] self.vector@[w] == 0
        &&& forall|m: int| 0 <= m < M1 ==> #[trigger] self.second@[m] == 0
    }

    pub fn new() -> (r: Scratch)
        ensures
            r.is_clear(),
    {
        let vector: Vec<u32> = vec![0u32; M as usize];
        let second: Vec<u64> = vec![0u64; M1 as usize];
        Scratch { vector, second }
    }

    /// Zeroes both tables so that the buffers can serve the next sequence.
    pub fn clear(&mut self)
        ensures
            final(self).is_clear(),
    {
        self.vector.clear();
        self.vector.resize(M as usize, 0u32);
        self.second.clear();
        self.second.resize(M1 as usize, 0u64);
    }
}

/// The statistics of one sequence and, once built, its composition vector.
#[derive(Debug)]
pub struct Bacteria {
    /// Occurrences of each residue code.
    pub one_l: Vec<u64>,
    /// Value of the current medium window.
    pub indexs: u64,
    /// Number of full windows.
    pub total: u64,
    /// Number of residues.
    pub total_l: u64,
    /// Number of records.
    pub complement: u64,
    /// Number of entries of `cs`.
    pub count: u64,
    /// The composition vector, ascending by window index.
    pub cs: Vec<Residual>,
}

impl Bacteria {
    /// The counters fit the tables and bound every count that the background
    /// model multiplies.
    pub open spec fn tables_wf(&self, second: Seq<u64>, vector: Seq<u32>) -> bool {
        &&& self.counters_wf(second)
        &&& vector.len() == M
        &&& forall|w: int| 0 <= w < M ==> #[trigger] vector[w] <= self.total
    }

    /// The bounds that the background model relies on.
    pub open spec fn counters_wf(&self, second: Seq<u64>) -> bool {
        &&& self.one_l@.len() == AA_NUMBER
        &&& second.len() == M1
        &&& self.indexs < M1
        &&& self.total_l <= MAX_RESIDUES
        &&& self.total + self.complement <= self.total_l
        &&& self.total_l > 0 ==> self.complement > 0
        &&& forall|r: int| 0 <= r < AA_NUMBER ==> #[trigger] self.one_l@[r] <= self.total_l
        &&& forall|m: int| 0 <= m < M1 ==> #[trigger] second[m] <= self.total + self.complement
    }

    /// An empty record: no residues, no records, no composition vector.
    pub fn new() -> (r: Bacteria)
        ensures
            r.one_l@ == Seq::new(20, |_i: int| 0u64),
            r.indexs == 0,
            r.total == 0,
            r.total_l == 0,
            r.complement == 0,
            r.count == 0,
            r.cs@.len() == 0,
    {
        let one_l: Vec<u64> = vec![0u64; AA_NUMBER as usize];
        let r = Bacteria { one_l, indexs: 0, total: 0, total_l: 0, complement: 0, count: 0, cs: Vec::new() };
        assert(r.one_l@ =~= Seq::new(20, |_i: int| 0u64));
        r
    }

    /// Starts a record: counts its first `LEN - 1` residue codes and seeds the
    /// medium window with them.
    pub fn init_buffer(&mut self, codes: &[u8], second: &mut Vec<u64>)
        requires
            codes@.len() == LEN - 1,
            all_codes(codes@),
            old(self).total_l + (LEN - 1) <= MAX_RESIDUES,
            old(self).one_l@.len() == AA_NUMBER,
            old(second)@.len() == M1,
            old(self).total + old(self).complement <= old(self).total_l,
            forall|r: int| 0 <= r < AA_NUMBER ==> #[trigger] old(self).one_l@[r] <= old(self).total_l,
            forall|m: int| 0 <= m < M1 ==> #[trigger] old(second)@[m] <= old(self).total
                + old(self).complement,
        ensures
            forall|r: int| 0 <= r < AA_NUMBER ==> #[trigger] final(self).one_l@[r]
                == old(self).one_l@[r] + count_code(codes@, r),
            final(self).one_l@.len() == AA_NUMBER,
            final(self).indexs == base_value(codes@),
            final(self).total_l == old(self).total_l + (LEN - 1),
            final(self).complement == old(self).complement + 1,
            final(self).total == old(self).total,
            final(self).count == old(self).count,
            final(self).cs@ == old(self).cs@,
            final(second)@ == old(second)@.update(
                base_value(codes@) as int,
                (old(second)@[base_value(codes@) as int] + 1) as u64,
            ),
            forall|v: Seq<u32>| old(self).tables_wf(old(second)@, v) ==> final(self).tables_wf(
                final(second)@,
                v,
            ),
    {
        self.complement = self.complement + 1;
        self.indexs = 0;
        let ghost start = self.one_l@;
        let mut i: usize = 0;
        while i < LEN - 1
            invariant
                i <= LEN - 1,
                codes@.len() == LEN - 1,
                all_codes(codes@),
                self.one_l@.len() == AA_NUMBER,
                self.total_l == old(self).total_l + i,
                old(self).total_l + (LEN - 1) <= MAX_RESIDUES,
                self.indexs == base_value(codes@.take(i as int)),
                self.indexs < crate::window::pow_a(i as nat),
                forall|r: int| 0 <= r < AA_NUMBER ==> #[trigger] self.one_l@[r]
                    == start[r] + count_code(codes@.take(i as int), r),
                start == old(self).one_l@,
                forall|r: int| 0 <= r < AA_NUMBER ==> #[trigger] start[r] <= old(self).total_l,
                forall|r: int| 0 <= r < AA_NUMBER ==> #[trigger] self.one_l@[r] <= self.total_l,
                self.complement == old(self).complement + 1,
                self.total == old(self).total,
                self.count == old(self).count,
                self.cs@ == old(self).cs@,
            decreases LEN - 1 - i,
        {
            let c = codes[i];
            assert((c as u64) < AA_NUMBER);
            proof {
                assert(codes@.take(i as int + 1) =~= codes@.take(i as int).push(c));
                crate::window::lemma_base_value_push(codes@.take(i as int), c);
                assert forall|r: int| 0 <= r < AA_NUMBER implies count_code(codes@.take(i as int + 1), r)
                    == count_code(codes@.take(i as int), r) + if c as int == r { 1nat } else { 0nat } by {
                    crate::model::lemma_count_code_push(codes@.take(i as int), c, r);
                }
                assert forall|r: int| 0 <= r < AA_NUMBER implies count_code(codes@.take(i as int), r) <= i by {
                    crate::model::lemma_count_code_bound(codes@.take(i as int), r);
                }
                reveal_with_fuel(crate::window::pow_a, 6);
                let x = self.indexs as int;
                let p = crate::window::pow_a(i as nat) as int;
                assert(x * 20 + c < 20 * p) by (nonlinear_arith)
                    requires x < p, c < 20;
                assert(20 * p <= M1 as int) by {
                    assert(p <= 160000);
                }
            }
            self.one_l.set(c as usize, self.one_l[c as usize] + 1);
            self.total_l = self.total_l + 1;
            self.indexs = self.indexs * 20 + c as u64;
            i = i + 1;
        }
        assert(codes@.take(LEN - 1) =~= codes@);
        proof {
            crate::window::lemma_pow_values();
        }
        let ix = self.indexs as usize;
        second.set(ix, second[ix] + 1);
        proof {
            assert forall|r: int| 0 <= r < AA_NUMBER implies count_code(codes@, r) <= 5 by {
                crate::model::lemma_count_code_bound(codes@, r);
            }
        }
    }

    /// Advances over one more residue code: counts the full window that it
    /// closes and slides the medium window.
    pub fn cont_buffer(&mut self, code: u8, second: &mut Vec<u64>, vector: &mut Vec<u32>)
        requires
            old(self).tables_wf(old(second)@, old(vector)@),
            old(self).total_l < MAX_RESIDUES,
            old(self).complement > 0,
            (code as u64) < AA_NUMBER,
        ensures
            final(self).tables_wf(final(second)@, final(vector)@),
            final(self).one_l@ == old(self).one_l@.update(
                code as int,
                (old(self).one_l@[code as int] + 1) as u64,
            ),
            final(vector)@ == old(vector)@.update(
                old(self).indexs * 20 + code,
                (old(vector)@[old(self).indexs * 20 + code] + 1) as u32,
            ),
            final(self).indexs == (old(self).indexs % M2) * 20 + code,
            final(second)@ == old(second)@.update(
                final(self).indexs as int,
                (old(second)@[final(self).indexs as int] + 1) as u64,
            ),
            final(self).total_l == old(self).total_l + 1,
            final(self).total == old(self).total + 1,
            final(self).complement == old(self).complement,
            final(self).count == old(self).count,
            final(self).cs@ == old(self).cs@,
    {
        let c = code as usize;
        self.one_l.set(c, self.one_l[c] + 1);
        self.total_l = self.total_l + 1;
        let index = window_index_of(self.indexs, code) as usize;
        vector.set(index, vector[index] + 1);
        self.total = self.total + 1;
        self.indexs = slide(self.indexs, code);
        let ix = self.indexs as usize;
        second.set(ix, second[ix] + 1);
    }
}

} // verus!
