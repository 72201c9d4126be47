use vstd::prelude::*;
use vstd::arithmetic::div_mod::{lemma_breakdown, lemma_fundamental_div_mod_converse};
use vstd::arithmetic::mul::lemma_mul_strictly_positive;

use crate::alphabet::AA_NUMBER;

verus! {

/// Length of a full window (k-mer).
pub const LEN: usize = 6;

/// Number of possible short windows, `AA_NUMBER^(LEN-2)`.
pub const M2: u64 = 160000;

/// Number of possible medium windows, `AA_NUMBER^(LEN-1)`.
pub const M1: u64 = 3200000;

/// Number of possible full windows, `AA_NUMBER^LEN`.
pub const M: u64 = 64000000;

/// `AA_NUMBER^k`.
pub open spec fn pow_a(k: nat) -> nat
    decreases k,
{
    if k == 0 { 1 } else { 20 * pow_a((k - 1) as nat) }
}

/// Base-`AA_NUMBER` value of a run of residue codes, the last code being the
/// least significant digit.
pub open spec fn base_value(s: Seq<u8>) -> nat
    decreases s.len(),
{
    if s.len() == 0 {
        0
    } else {
        base_value(s.drop_last()) * 20 + s.last() as nat
    }
}

/// Every element is a residue code.
pub open spec fn all_codes(s: Seq<u8>) -> bool {
    forall|k: int| 0 <= k < s.len() ==> (#[trigger] s[k] as u64) < AA_NUMBER
}

/// The last `k` codes of `s`.
pub open spec fn last_n(s: Seq<u8>, k: nat) -> Seq<u8> {
    s.subrange(s.len() - k, s.len() as int)
}

pub proof fn lemma_pow_values()
    ensures
        pow_a(4) == M2,
        pow_a(5) == M1,
        pow_a(6) == M,
{
    reveal_with_fuel(pow_a, 7);
}

pub proof fn lemma_pow_positive(k: nat)
    ensures
        pow_a(k) > 0,
    decreases k,
{
    if k > 0 {
        lemma_pow_positive((k - 1) as nat);
    }
}

/// Appending a code shifts the value by one digit.
pub proof fn lemma_base_value_push(s: Seq<u8>, c: u8)
    ensures
        base_value(s.push(c)) == base_value(s) * 20 + c as nat,
{
    assert(s.push(c).drop_last() =~= s);
}

/// Taking the value modulo `AA_NUMBER^k` keeps exactly the last `k` codes.
pub proof fn lemma_base_value_mod(s: Seq<u8>, k: nat)
    requires
        all_codes(s),
        k <= s.len(),
    ensures
        base_value(s) % pow_a(k) == base_value(last_n(s, k)),
    decreases s.len(),
{
    if k == 0 {
        assert(last_n(s, k) =~= Seq::<u8>::empty());
    } else {
        let t = s.drop_last();
        assert(all_codes(t)) by {
            assert forall|j: int| 0 <= j < t.len() implies (#[trigger] t[j] as u64) < AA_NUMBER by {
                assert(t[j] == s[j]);
            }
        }
        let x = s.last();
        assert((x as u64) < AA_NUMBER) by {
            assert(x == s[s.len() - 1]);
        }
        lemma_base_value_mod(t, (k - 1) as nat);
        lemma_pow_positive((k - 1) as nat);
        let v = base_value(t);
        let p = pow_a((k - 1) as nat);
        let n = v * 20 + x as nat;
        lemma_fundamental_div_mod_converse(n as int, 20, v as int, x as int);
        lemma_breakdown(n as int, 20, p as int);
        assert(last_n(s, k).drop_last() =~= last_n(t, (k - 1) as nat));
        assert(last_n(s, k).last() == x);
    }
}

/// The medium-window index after seeding with the first `LEN - 1` codes of
/// `s` and sliding over each code after them.
pub open spec fn rolled(s: Seq<u8>) -> nat
    decreases s.len(),
{
    if s.len() <= LEN - 1 {
        base_value(s)
    } else {
        (rolled(s.drop_last()) % (M2 as nat)) * 20 + s.last() as nat
    }
}

/// Seeding the rolling index and then sliding it over every further code
/// gives, at each step, the value of the last `LEN - 1` codes, and modulo
/// `M2` the value of the last `LEN - 2`.
pub proof fn lemma_rolling_index(s: Seq<u8>)
    requires
        all_codes(s),
        s.len() >= LEN - 1,
    ensures
        rolled(s) == base_value(last_n(s, (LEN - 1) as nat)),
        rolled(s) % (M2 as nat) == base_value(last_n(s, (LEN - 2) as nat)),
    decreases s.len(),
{
    lemma_pow_values();
    if s.len() == LEN - 1 {
        assert(last_n(s, 5) =~= s);
    } else {
        let t = s.drop_last();
        assert(all_codes(t)) by {
            assert forall|k: int| 0 <= k < t.len() implies (#[trigger] t[k] as u64) < AA_NUMBER by {
                assert(t[k] == s[k]);
            }
        }
        assert((s.last() as u64) < AA_NUMBER) by {
            assert(s.last() == s[s.len() - 1]);
        }
        lemma_rolling_index(t);
        lemma_slide(t, s.last());
        assert(t.push(s.last()) =~= s);
    }
    let w5 = last_n(s, 5);
    assert(all_codes(w5)) by {
        assert forall|j: int| 0 <= j < w5.len() implies (#[trigger] w5[j] as u64) < AA_NUMBER by {
            assert(w5[j] == s[s.len() - 5 + j]);
        }
    }
    lemma_base_value_mod(w5, 4);
    assert(last_n(w5, 4) =~= last_n(s, 4));
}

/// Full-window index of a medium window followed by one residue.
pub fn window_index_of(medium: u64, residue: u8) -> (r: u64)
    requires
        medium < M1,
        (residue as u64) < AA_NUMBER,
    ensures
        r == medium * 20 + residue,
        r < M,
{
    medium * 20 + residue as u64
}

/// Slides a medium window by one residue: drops its oldest code and appends
/// `residue` as the least significant digit.
pub fn slide(medium: u64, residue: u8) -> (r: u64)
    requires
        medium < M1,
        (residue as u64) < AA_NUMBER,
    ensures
        r == (medium % M2) * 20 + residue,
        r < M1,
{
    (medium % M2) * 20 + residue as u64
}

/// Sliding the value of the last `LEN-1` codes of `s` by a code `c` gives the
/// value of the last `LEN-1` codes of `s.push(c)`, and the full window ending
/// in `c` has the index `window_index_of` computes.
pub proof fn lemma_slide(s: Seq<u8>, c: u8)
    requires
        all_codes(s),
        s.len() >= LEN - 1,
        (c as u64) < AA_NUMBER,
    ensures
        base_value(last_n(s.push(c), (LEN - 1) as nat))
            == (base_value(last_n(s, (LEN - 1) as nat)) % (M2 as nat)) * 20 + c,
        base_value(last_n(s.push(c), LEN as nat))
            == base_value(last_n(s, (LEN - 1) as nat)) * 20 + c,
{
    let t = s.push(c);
    let w5 = last_n(s, 5);
    assert(all_codes(w5)) by {
        assert forall|j: int| 0 <= j < w5.len() implies (#[trigger] w5[j] as u64) < AA_NUMBER by {
            assert(w5[j] == s[s.len() - 5 + j]);
        }
    }
    lemma_pow_values();
    lemma_base_value_mod(w5, 4);
    assert(last_n(w5, 4) =~= last_n(s, 4));
    lemma_base_value_push(last_n(s, 4), c);
    assert(last_n(t, 5) =~= last_n(s, 4).push(c));
    lemma_base_value_push(w5, c);
    assert(last_n(t, 6) =~= w5.push(c));
}

} // verus!
