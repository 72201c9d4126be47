use vstd::prelude::*;
use vstd::arithmetic::div_mod::lemma_fundamental_div_mod;

use crate::alphabet::AA_NUMBER;
use crate::bacteria::{Bacteria, Residual, MAX_RESIDUES};
use crate::error::CvError;
use crate::window::{M, M1};

verus! {

/// Windows whose expected count is at most `1 / EPSILON_INV` get no entry.
pub const EPSILON_INV: u128 = 10000000000;

/// The counts a composition vector is computed from.
pub ghost struct Counts {
    /// Occurrences of each residue code.
    pub residues: Seq<int>,
    /// Occurrences of each medium window.
    pub medium: Seq<int>,
    /// Occurrences of each full window.
    pub full: Seq<int>,
    /// Number of full windows.
    pub total_full: int,
    /// Number of records.
    pub records: int,
    /// Number of residues.
    pub total_residues: int,
}

/// Numerator of the expected count of full window `i`: the mean of its two
/// first-order Markov estimates, times the number of full windows.
///
/// With `F = total_full + records` the medium-window observations and
/// `R = total_residues`, the expected count is
/// `(medium[i / A] / F * residues[i % A] / R + medium[i % M1] / F * residues[i / M1] / R) * total_full / 2`,
/// that is `expected_weight(c, i) / expected_scale(c)`.
pub open spec fn expected_weight(c: Counts, i: int) -> int {
    c.total_full * (c.medium[i / 20] * c.residues[i % 20] + c.medium[i % (M1 as int)]
        * c.residues[i / (M1 as int)])
}

/// Denominator of every expected count.
pub open spec fn expected_scale(c: Counts) -> int {
    2 * (c.total_full + c.records) * c.total_residues
}

/// The expected count of window `i` exceeds `1 / EPSILON_INV`.
pub open spec fn is_kept(c: Counts, i: int) -> bool {
    expected_weight(c, i) * EPSILON_INV > expected_scale(c)
}

/// The entry of window `i`: its index and its residual
/// `(observed - expected) / expected` as numerator and denominator.
pub open spec fn residual_of(c: Counts, i: int) -> (int, int, int) {
    (i, c.full[i] * expected_scale(c) - expected_weight(c, i), expected_weight(c, i))
}

/// The entries of the kept windows below `n`, ascending by index.
pub open spec fn residuals_upto(c: Counts, n: nat) -> Seq<(int, int, int)>
    decreases n,
{
    if n == 0 {
        seq![]
    } else {
        let prev = residuals_upto(c, (n - 1) as nat);
        if is_kept(c, n - 1) {
            prev.push(residual_of(c, n - 1))
        } else {
            prev
        }
    }
}

/// The composition vector of the counts.
pub open spec fn residual_vector(c: Counts) -> Seq<(int, int, int)> {
    residuals_upto(c, M as nat)
}

/// The entries of a composition vector as plain triples.
pub open spec fn entries(cs: Seq<Residual>) -> Seq<(int, int, int)> {
    cs.map_values(|e: Residual| e@)
}

/// The counts held by a record and its tables.
pub open spec fn counts_view(b: Bacteria, second: Seq<u64>, vector: Seq<u32>) -> Counts {
    Counts {
        residues: b.one_l@.map_values(|v: u64| v as int),
        medium: second.map_values(|v: u64| v as int),
        full: vector.map_values(|v: u32| v as int),
        total_full: b.total as int,
        records: b.complement as int,
        total_residues: b.total_l as int,
    }
}

proof fn lemma_threshold(w: int, s: int, k: int)
    requires
        w >= 0,
        s >= 0,
        k > 0,
    ensures
        (w * k > s) == (w > s / k),
{
    lemma_fundamental_div_mod(s, k);
    let q = s / k;
    let r = s % k;
    if w > q {
        assert(w * k >= (q + 1) * k) by (nonlinear_arith)
            requires w >= q + 1, k > 0;
        assert((q + 1) * k == k * q + k) by (nonlinear_arith);
    } else {
        assert(w * k <= q * k) by (nonlinear_arith)
            requires w <= q, k > 0;
        assert(q * k == k * q) by (nonlinear_arith);
    }
}

proof fn lemma_entry_bounds(t: int, f: int, tl: int, s1: int, o2: int, s3: int, o4: int, obs: int)
    requires
        0 <= t,
        0 <= f <= tl,
        tl <= MAX_RESIDUES,
        0 <= s1 <= f,
        0 <= s3 <= f,
        0 <= o2 <= tl,
        0 <= o4 <= tl,
        0 <= obs <= t,
        t <= tl,
    ensures
        0 <= s1 * o2 <= MAX_RESIDUES * MAX_RESIDUES,
        0 <= s3 * o4 <= MAX_RESIDUES * MAX_RESIDUES,
        0 <= t * (s1 * o2 + s3 * o4) <= 2 * MAX_RESIDUES * MAX_RESIDUES * MAX_RESIDUES,
        0 <= 2 * f * tl <= 2 * MAX_RESIDUES * MAX_RESIDUES,
        0 <= obs * (2 * f * tl) <= 2 * MAX_RESIDUES * MAX_RESIDUES * MAX_RESIDUES,
{
    let mx = MAX_RESIDUES as int;
    assert(0 <= s1 * o2 <= mx * mx) by (nonlinear_arith)
        requires 0 <= s1 <= mx, 0 <= o2 <= mx;
    assert(0 <= s3 * o4 <= mx * mx) by (nonlinear_arith)
        requires 0 <= s3 <= mx, 0 <= o4 <= mx;
    let a = s1 * o2 + s3 * o4;
    assert(0 <= t * a <= mx * (2 * mx * mx)) by (nonlinear_arith)
        requires 0 <= t <= mx, 0 <= a <= 2 * mx * mx;
    assert(0 <= 2 * f * tl <= 2 * mx * mx) by (nonlinear_arith)
        requires 0 <= f <= mx, 0 <= tl <= mx;
    let sc = 2 * f * tl;
    assert(0 <= obs * sc <= mx * (2 * mx * mx)) by (nonlinear_arith)
        requires 0 <= obs <= mx, 0 <= sc <= 2 * mx * mx;
}

impl Bacteria {
    /// Numerator of the expected count of full window `i` under the
    /// background model; the denominator, `expected_scale`, is the same for
    /// every window.
    pub fn stochastic_compute(&self, second: &Vec<u64>, i: u64) -> (r: u128)
        requires
            self.counters_wf(second@),
            i < M,
        ensures
            forall|v: Seq<u32>| r as int == #[trigger] expected_weight(counts_view(*self, second@, v), i as int),
            r <= 2 * (MAX_RESIDUES as int) * (MAX_RESIDUES as int) * (MAX_RESIDUES as int),
    {
        let t = self.total as u128;
        let f = (self.total + self.complement) as u128;
        let tl = self.total_l as u128;
        let s1 = second[(i / 20) as usize] as u128;
        let o2 = self.one_l[(i % 20) as usize] as u128;
        let s3 = second[(i % M1) as usize] as u128;
        let o4 = self.one_l[(i / M1) as usize] as u128;
        proof {
            lemma_entry_bounds(t as int, f as int, tl as int, s1 as int, o2 as int, s3 as int, o4 as int, 0);
        }
        t * (s1 * o2 + s3 * o4)
    }

    /// Builds the composition vector from the counts and the tables: one
    /// entry for each full window whose expected count exceeds
    /// `1 / EPSILON_INV`, ascending by index. Fails on a record without residues.
    pub fn compute_residuals(&mut self, second: &Vec<u64>, vector: &Vec<u32>) -> (r: Result<(), CvError>)
        requires
            old(self).tables_wf(second@, vector@),
        ensures
            r is Err <==> old(self).total_l == 0,
            r matches Err(e) ==> e == CvError::EmptySequence,
            r is Ok ==> entries(final(self).cs@) == residual_vector(counts_view(*old(self), second@, vector@)),
            r is Ok ==> final(self).count == final(self).cs@.len(),
            final(self).one_l@ == old(self).one_l@,
            final(self).total == old(self).total,
            final(self).total_l == old(self).total_l,
            final(self).complement == old(self).complement,
            final(self).indexs == old(self).indexs,
            final(self).tables_wf(second@, vector@),
    {
        if self.total_l == 0 {
            return Err(CvError::EmptySequence);
        }
        let ghost c = counts_view(*self, second@, vector@);
        let t = self.total as u128;
        let f = (self.total + self.complement) as u128;
        let tl = self.total_l as u128;
        proof {
            lemma_entry_bounds(t as int, f as int, tl as int, 0, 0, 0, 0, 0);
        }
        let scale: u128 = 2 * f * tl;
        let threshold: u128 = scale / EPSILON_INV;
        let mut cs: Vec<Residual> = Vec::new();
        let mut i: u64 = 0;
        while i < M
            invariant
                i <= M,
                self.tables_wf(second@, vector@),
                c == counts_view(*self, second@, vector@),
                t == self.total,
                f == self.total + self.complement,
                tl == self.total_l,
                scale == expected_scale(c),
                threshold == scale / EPSILON_INV,
                entries(cs@) == residuals_upto(c, i as nat),
                cs@.len() <= i,
            decreases M - i,
        {
            let obs = vector[i as usize] as u128;
            let weight: u128 = self.stochastic_compute(second, i);
            proof {
                lemma_entry_bounds(t as int, f as int, tl as int, 0, 0, 0, 0, obs as int);
                assert(weight == expected_weight(c, i as int));
                lemma_threshold(weight as int, scale as int, EPSILON_INV as int);
            }
            if weight > threshold {
                let num: i128 = (obs * scale) as i128 - weight as i128;
                let e = Residual { index: i, num, den: weight };
                let ghost before = cs@;
                cs.push(e);
                proof {
                    assert(e@ == residual_of(c, i as int));
                    assert(entries(cs@) =~= entries(before).push(e@));
                }
            }
            i = i + 1;
        }
        self.count = cs.len() as u64;
        self.cs = cs;
        Ok(())
    }
}

} // verus!
