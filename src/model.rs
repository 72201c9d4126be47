use vstd::prelude::*;

use crate::window::{base_value, last_n, LEN};

verus! {

/// Occurrences of the code `r` in one record.
pub open spec fn count_code(rec: Seq<u8>, r: int) -> nat
    decreases rec.len(),
{
    if rec.len() == 0 {
        0
    } else {
        count_code(rec.drop_last(), r) + if rec.last() as int == r { 1nat } else { 0nat }
    }
}

/// Medium windows (`LEN - 1` residues) of one record whose value is `m`.
pub open spec fn medium_in(rec: Seq<u8>, m: int) -> nat
    decreases rec.len(),
{
    if rec.len() < LEN - 1 {
        0
    } else {
        medium_in(rec.drop_last(), m)
            + if base_value(last_n(rec, (LEN - 1) as nat)) == m { 1nat } else { 0nat }
    }
}

/// Full windows (`LEN` residues) of one record whose value is `w`.
pub open spec fn full_in(rec: Seq<u8>, w: int) -> nat
    decreases rec.len(),
{
    if rec.len() < LEN {
        0
    } else {
        full_in(rec.drop_last(), w)
            + if base_value(last_n(rec, LEN as nat)) == w { 1nat } else { 0nat }
    }
}

/// Number of full windows in one record.
pub open spec fn windows_in(rec: Seq<u8>) -> nat {
    if rec.len() < LEN { 0 } else { (rec.len() - LEN + 1) as nat }
}

/// Residues over all records.
pub open spec fn len_total(recs: Seq<Seq<u8>>) -> nat
    decreases recs.len(),
{
    if recs.len() == 0 { 0 } else { len_total(recs.drop_last()) + recs.last().len() }
}

/// Full windows over all records.
pub open spec fn window_total(recs: Seq<Seq<u8>>) -> nat
    decreases recs.len(),
{
    if recs.len() == 0 { 0 } else { window_total(recs.drop_last()) + windows_in(recs.last()) }
}

/// Occurrences of the code `r` over all records.
pub open spec fn residue_total(recs: Seq<Seq<u8>>, r: int) -> nat
    decreases recs.len(),
{
    if recs.len() == 0 {
        0
    } else {
        residue_total(recs.drop_last(), r) + count_code(recs.last(), r)
    }
}

/// Medium windows of value `m` over all records.
pub open spec fn medium_total(recs: Seq<Seq<u8>>, m: int) -> nat
    decreases recs.len(),
{
    if recs.len() == 0 {
        0
    } else {
        medium_total(recs.drop_last(), m) + medium_in(recs.last(), m)
    }
}

/// Full windows of value `w` over all records.
pub open spec fn full_total(recs: Seq<Seq<u8>>, w: int) -> nat
    decreases recs.len(),
{
    if recs.len() == 0 {
        0
    } else {
        full_total(recs.drop_last(), w) + full_in(recs.last(), w)
    }
}

pub proof fn lemma_count_code_push(rec: Seq<u8>, c: u8, r: int)
    ensures
        count_code(rec.push(c), r) == count_code(rec, r) + if c as int == r { 1nat } else { 0nat },
{
    assert(rec.push(c).drop_last() =~= rec);
}

pub proof fn lemma_count_code_bound(rec: Seq<u8>, r: int)
    ensures
        count_code(rec, r) <= rec.len(),
    decreases rec.len(),
{
    if rec.len() > 0 {
        lemma_count_code_bound(rec.drop_last(), r);
    }
}

/// The totals of records whose last record is replaced.
pub proof fn lemma_replace_last(recs: Seq<Seq<u8>>, rec: Seq<u8>)
    requires
        recs.len() > 0,
    ensures
        ({
            let nr = recs.drop_last().push(rec);
            &&& len_total(nr) == len_total(recs.drop_last()) + rec.len()
            &&& window_total(nr) == window_total(recs.drop_last()) + windows_in(rec)
            &&& forall|r: int| #[trigger] residue_total(nr, r)
                == residue_total(recs.drop_last(), r) + count_code(rec, r)
            &&& forall|m: int| #[trigger] medium_total(nr, m)
                == medium_total(recs.drop_last(), m) + medium_in(rec, m)
            &&& forall|w: int| #[trigger] full_total(nr, w)
                == full_total(recs.drop_last(), w) + full_in(rec, w)
        }),
{
    let nr = recs.drop_last().push(rec);
    assert(nr.drop_last() =~= recs.drop_last());
    assert(nr.last() == rec);
}

} // verus!
