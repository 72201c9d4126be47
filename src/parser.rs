use vstd::prelude::*;

use crate::alphabet::{code_of_letter, encode, AA_NUMBER};
use crate::bacteria::{Bacteria, Residual, Scratch, MAX_RESIDUES};
use crate::composition::{counts_view, entries, residual_vector, Counts};
use crate::correlation::{ascending, lemma_entries_ascending};
use crate::error::CvError;
use crate::model::{
    count_code, full_in, full_total, len_total, lemma_count_code_push, lemma_replace_last, medium_in,
    medium_total, residue_total, window_total, windows_in,
};
use crate::window::{all_codes, base_value, last_n, lemma_pow_values, lemma_slide, LEN, M, M1};

verus! {

/// Where the parser stands in the record format.
#[derive(Debug, Clone, Copy, PartialEq, Eq, Structural)]
pub enum Mode {
    /// Before the first header.
    Start,
    /// Inside a header line.
    Header,
    /// Inside a record body.
    Body,
}

/// The record boundary `>`.
pub const BOUNDARY: u8 = 62;

/// The line terminator `\n`.
pub const NEWLINE: u8 = 10;

/// Bytes that separate residues and are never counted.
pub open spec fn is_blank(b: u8) -> bool {
    b == 10 || b == 13 || b == 32 || b == 9
}

/// What a scan of a byte prefix has seen: the mode, the residue codes of each
/// record so far, and the first failure.
pub ghost struct ScanState {
    pub mode: Mode,
    pub recs: Seq<Seq<u8>>,
    pub failed: Option<CvError>,
}

/// The state `st` stopped by the error `e`.
pub open spec fn scan_fail(st: ScanState, e: CvError) -> ScanState {
    ScanState { mode: st.mode, recs: st.recs, failed: Some(e) }
}

/// One byte of the record format.
pub open spec fn scan_step(st: ScanState, b: u8) -> ScanState {
    if st.failed is Some {
        st
    } else {
        match st.mode {
            Mode::Start => if is_blank(b) {
                st
            } else if b == BOUNDARY {
                ScanState { mode: Mode::Header, recs: st.recs.push(seq![]), failed: None }
            } else {
                scan_fail(st, CvError::MalformedRecord)
            },
            Mode::Header => if b == NEWLINE {
                ScanState { mode: Mode::Body, recs: st.recs, failed: None }
            } else {
                st
            },
            Mode::Body => if is_blank(b) {
                st
            } else if b == BOUNDARY {
                if st.recs.last().len() < LEN - 1 {
                    scan_fail(st, CvError::MalformedRecord)
                } else {
                    ScanState { mode: Mode::Header, recs: st.recs.push(seq![]), failed: None }
                }
            } else {
                match code_of_letter(b) {
                    None => scan_fail(st, CvError::InvalidResidue),
                    Some(c) => if len_total(st.recs) >= MAX_RESIDUES {
                        scan_fail(st, CvError::SequenceTooLong)
                    } else {
                        ScanState {
                            mode: Mode::Body,
                            recs: st.recs.drop_last().push(st.recs.last().push(c)),
                            failed: None,
                        }
                    },
                }
            },
        }
    }
}

/// The state before the first byte.
pub open spec fn scan_start() -> ScanState {
    ScanState { mode: Mode::Start, recs: seq![], failed: None }
}

/// The scan of a whole byte sequence.
pub open spec fn scan(bytes: Seq<u8>) -> ScanState
    decreases bytes.len(),
{
    if bytes.len() == 0 {
        scan_start()
    } else {
        scan_step(scan(bytes.drop_last()), bytes.last())
    }
}

/// How a scan ends: the residue codes of each record, or the error.
pub open spec fn scan_outcome(st: ScanState) -> Result<Seq<Seq<u8>>, CvError> {
    if st.failed is Some {
        Err(st.failed->Some_0)
    } else {
        match st.mode {
            Mode::Start => Err(CvError::EmptySequence),
            Mode::Header => Err(CvError::MalformedRecord),
            Mode::Body => if st.recs.last().len() < LEN - 1 {
                Err(CvError::MalformedRecord)
            } else {
                Ok(st.recs)
            },
        }
    }
}

/// The records of a sequence file, or why it is rejected.
pub open spec fn load_outcome(bytes: Seq<u8>) -> Result<Seq<Seq<u8>>, CvError> {
    scan_outcome(scan(bytes))
}

/// The counts of a list of records.
pub open spec fn counts_of(recs: Seq<Seq<u8>>) -> Counts {
    Counts {
        residues: Seq::new(AA_NUMBER as nat, |r: int| residue_total(recs, r) as int),
        medium: Seq::new(M1 as nat, |m: int| medium_total(recs, m) as int),
        full: Seq::new(M as nat, |w: int| full_total(recs, w) as int),
        total_full: window_total(recs) as int,
        records: recs.len() as int,
        total_residues: len_total(recs) as int,
    }
}

/// The records whose residues have been handed to the counters: all but a
/// last record that has not reached `LEN - 1` residues.
pub open spec fn committed(recs: Seq<Seq<u8>>) -> Seq<Seq<u8>> {
    if recs.len() > 0 && recs.last().len() < LEN - 1 {
        recs.drop_last()
    } else {
        recs
    }
}

/// Appending a code to a record that already holds `LEN - 1` residues adds one
/// full window and one medium window, both given by the rolling index.
proof fn lemma_extend_seeded(recs: Seq<Seq<u8>>, c: u8)
    requires
        recs.len() > 0,
        recs.last().len() >= LEN - 1,
        all_codes(recs.last()),
        (c as u64) < AA_NUMBER,
    ensures
        ({
            let last = recs.last();
            let nr = recs.drop_last().push(last.push(c));
            let idx = base_value(last_n(last, (LEN - 1) as nat));
            let next = base_value(last_n(last.push(c), (LEN - 1) as nat));
            &&& next == (idx % 160000) * 20 + c
            &&& nr.last() == last.push(c)
            &&& len_total(nr) == len_total(recs) + 1
            &&& window_total(nr) == window_total(recs) + 1
            &&& forall|r: int| #[trigger] residue_total(nr, r)
                == residue_total(recs, r) + if c as int == r { 1nat } else { 0nat }
            &&& forall|m: int| #[trigger] medium_total(nr, m)
                == medium_total(recs, m) + if next == m { 1nat } else { 0nat }
            &&& forall|w: int| #[trigger] full_total(nr, w)
                == full_total(recs, w) + if idx * 20 + c == w { 1nat } else { 0nat }
        }),
{
    let last = recs.last();
    let nl = last.push(c);
    lemma_slide(last, c);
    lemma_replace_last(recs, nl);
    lemma_replace_last(recs, last);
    assert(recs.drop_last().push(last) =~= recs);
    assert(nl.drop_last() =~= last);
    assert forall|r: int| #[trigger] count_code(nl, r) == count_code(last, r) + if c as int == r { 1nat } else { 0nat } by {
        lemma_count_code_push(last, c, r);
    }
    assert forall|m: int| #[trigger] medium_in(nl, m) == medium_in(last, m)
        + if base_value(last_n(nl, (LEN - 1) as nat)) == m { 1nat } else { 0nat } by {
    }
    assert forall|w: int| #[trigger] full_in(nl, w) == full_in(last, w)
        + if base_value(last_n(nl, LEN as nat)) == w { 1nat } else { 0nat } by {
    }
}

/// Appending the code that brings a record to `LEN - 1` residues adds its
/// residues and its first medium window, and no full window.
proof fn lemma_extend_seed(recs: Seq<Seq<u8>>, c: u8)
    requires
        recs.len() > 0,
        recs.last().len() == LEN - 2,
    ensures
        ({
            let last = recs.last();
            let nl = last.push(c);
            let nr = recs.drop_last().push(nl);
            &&& nr.last() == nl
            &&& last_n(nl, (LEN - 1) as nat) == nl
            &&& len_total(nr) == len_total(recs.drop_last()) + (LEN - 1)
            &&& window_total(nr) == window_total(recs.drop_last())
            &&& forall|r: int| #[trigger] residue_total(nr, r)
                == residue_total(recs.drop_last(), r) + count_code(nl, r)
            &&& forall|m: int| #[trigger] medium_total(nr, m)
                == medium_total(recs.drop_last(), m) + if base_value(nl) == m { 1nat } else { 0nat }
            &&& forall|w: int| #[trigger] full_total(nr, w) == full_total(recs.drop_last(), w)
        }),
{
    let last = recs.last();
    let nl = last.push(c);
    lemma_replace_last(recs, nl);
    assert(nl.drop_last() =~= last);
    assert(last_n(nl, (LEN - 1) as nat) =~= nl);
    assert forall|m: int| #[trigger] medium_in(nl, m) == if base_value(nl) == m { 1nat } else { 0nat } by {
        assert(nl.drop_last() =~= last);
        assert(medium_in(last, m) == 0);
        assert(last_n(nl, (LEN - 1) as nat) =~= nl);
    }
    assert forall|w: int| #[trigger] full_in(nl, w) == 0 by {
    }
}

/// The residues of all records are those before the last one plus its own.
proof fn lemma_short_last(recs: Seq<Seq<u8>>)
    requires
        recs.len() > 0,
    ensures
        len_total(recs) == len_total(recs.drop_last()) + recs.last().len(),
{
}

/// A record of exactly `LEN - 1` residues counts its residues and its one
/// medium window, and no full window at all.
pub proof fn lemma_seed_only_record(rec: Seq<u8>)
    requires
        rec.len() == LEN - 1,
    ensures
        ({
            let c = counts_of(seq![rec]);
            &&& c.total_full == 0
            &&& c.records == 1
            &&& c.total_residues == LEN - 1
            &&& forall|w: int| 0 <= w < M ==> #[trigger] c.full[w] == 0
            &&& forall|m: int| 0 <= m < M1 ==> #[trigger] c.medium[m]
                == if base_value(rec) == m { 1int } else { 0int }
            &&& forall|r: int| 0 <= r < AA_NUMBER ==> #[trigger] c.residues[r] == count_code(rec, r)
        }),
{
    let recs = seq![rec];
    assert(recs.drop_last() =~= Seq::<Seq<u8>>::empty());
    assert(recs.last() == rec);
    assert(rec.drop_last().len() == LEN - 2);
    assert(last_n(rec, (LEN - 1) as nat) =~= rec);
    assert forall|m: int| #[trigger] medium_in(rec, m) == if base_value(rec) == m { 1nat } else { 0nat } by {
        assert(medium_in(rec.drop_last(), m) == 0);
    }
    assert forall|m: int| #[trigger] medium_total(recs, m) == medium_in(rec, m) by {
        assert(medium_total(recs.drop_last(), m) == 0);
    }
    assert forall|w: int| #[trigger] full_total(recs, w) == 0 by {
        assert(full_total(recs.drop_last(), w) == 0);
        assert(full_in(rec, w) == 0);
    }
    assert forall|r: int| #[trigger] residue_total(recs, r) == count_code(rec, r) by {
        assert(residue_total(recs.drop_last(), r) == 0);
    }
    assert(window_total(recs.drop_last()) == 0);
    assert(window_total(recs) == 0);
    assert(len_total(recs.drop_last()) == 0);
    assert(len_total(recs) == LEN - 1);
}

/// Sequence data before any header line is a malformed record, whatever
/// follows it.
pub proof fn lemma_data_before_header(bytes: Seq<u8>, k: int)
    requires
        0 <= k < bytes.len(),
        forall|j: int| 0 <= j < k ==> is_blank(#[trigger] bytes[j]),
        !is_blank(bytes[k]),
        bytes[k] != BOUNDARY,
    ensures
        load_outcome(bytes) == Err::<Seq<Seq<u8>>, CvError>(CvError::MalformedRecord),
{
    lemma_blank_prefix(bytes, k);
    assert(bytes.take(k + 1).drop_last() =~= bytes.take(k));
    lemma_failure_sticks(bytes, (k + 1) as nat);
}

proof fn lemma_blank_prefix(bytes: Seq<u8>, k: int)
    requires
        0 <= k <= bytes.len(),
        forall|j: int| 0 <= j < k ==> is_blank(#[trigger] bytes[j]),
    ensures
        scan(bytes.take(k)) == scan_start(),
    decreases k,
{
    if k > 0 {
        assert(bytes.take(k).drop_last() =~= bytes.take(k - 1));
        lemma_blank_prefix(bytes, k - 1);
        assert(bytes.take(k).last() == bytes[k - 1]);
    } else {
        assert(bytes.take(0) =~= Seq::<u8>::empty());
    }
}

/// Two loads of the same records, by any workers whose tables were cleared,
/// store the same composition vector: what a worker pool stores does not
/// depend on which worker took which job, nor in what order.
pub proof fn lemma_load_deterministic(recs: Seq<Seq<u8>>, cs1: Seq<Residual>, cs2: Seq<Residual>)
    requires
        entries(cs1) == residual_vector(counts_of(recs)),
        entries(cs2) == residual_vector(counts_of(recs)),
    ensures
        cs1 == cs2,
{
    assert(cs1.len() == entries(cs1).len());
    assert(cs2.len() == entries(cs2).len());
    assert forall|k: int| 0 <= k < cs1.len() implies cs1[k] == cs2[k] by {
        assert(entries(cs1)[k] == cs1[k]@);
        assert(entries(cs2)[k] == cs2[k]@);
    }
    assert(cs1 =~= cs2);
}

/// A streaming parser of the record format that counts into a `Bacteria`
/// and a worker's tables.
pub struct Loader {
    pub mode: Mode,
    /// The last record has reached `LEN - 1` residues.
    pub seeded: bool,
    /// The residue codes of a last record that has not reached `LEN - 1`.
    pub pending: Vec<u8>,
    pub bac: Bacteria,
    pub recs: Ghost<Seq<Seq<u8>>>,
}

impl Loader {
    /// The scan state that the parser stands for; a parser never stands for a
    /// failed scan.
    pub open spec fn view(&self) -> ScanState {
        ScanState { mode: self.mode, recs: self.recs@, failed: None }
    }

    /// The counters and the tables hold exactly the counts of the records
    /// whose first `LEN - 1` residues have been seen; the residues of a shorter
    /// last record wait in `pending`.
    pub open spec fn inv(&self, second: Seq<u64>, vector: Seq<u32>) -> bool {
        let recs = self.recs@;
        let cr = committed(recs);
        &&& self.bac.tables_wf(second, vector)
        &&& forall|k: int| 0 <= k < recs.len() ==> all_codes(#[trigger] recs[k])
        &&& forall|k: int| 0 <= k < recs.len() - 1 ==> (#[trigger] recs[k]).len() >= LEN - 1
        &&& (self.mode == Mode::Start) == (recs.len() == 0)
        &&& self.mode == Mode::Header ==> recs.last().len() == 0
        &&& self.seeded == (recs.len() > 0 && recs.last().len() >= LEN - 1)
        &&& self.pending@ == (if recs.len() > 0 && recs.last().len() < LEN - 1 {
            recs.last()
        } else {
            seq![]
        })
        &&& len_total(recs) <= MAX_RESIDUES
        &&& self.bac.total_l == len_total(cr)
        &&& self.bac.total == window_total(cr)
        &&& self.bac.complement == cr.len()
        &&& forall|r: int| 0 <= r < AA_NUMBER ==> #[trigger] self.bac.one_l@[r] == residue_total(cr, r)
        &&& forall|m: int| 0 <= m < M1 ==> #[trigger] second[m] == medium_total(cr, m)
        &&& forall|w: int| 0 <= w < M ==> #[trigger] vector[w] == full_total(cr, w)
        &&& cr.len() > 0 ==> self.bac.indexs == base_value(last_n(cr.last(), (LEN - 1) as nat))
    }

    /// A parser before its first byte.
    pub fn new(scratch: &Scratch) -> (r: Loader)
        requires
            scratch.is_clear(),
        ensures
            r.view() == scan_start(),
            r.inv(scratch.second@, scratch.vector@),
    {
        let r = Loader {
            mode: Mode::Start,
            seeded: false,
            pending: Vec::new(),
            bac: Bacteria::new(),
            recs: Ghost(Seq::empty()),
        };
        assert(r.pending@ =~= seq![]);
        r
    }
    /// Reads one byte of the record format. On success the parser has taken
    /// exactly the scan's step; on failure the error is the scan's.
    #[verifier::rlimit(40)]
    pub fn feed(&mut self, b: u8, second: &mut Vec<u64>, vector: &mut Vec<u32>) -> (r: Result<(), CvError>)
        requires
            old(self).inv(old(second)@, old(vector)@),
        ensures
            r is Ok <==> scan_step(old(self).view(), b).failed is None,
            r matches Err(e) ==> scan_step(old(self).view(), b).failed == Some(e),
            r is Ok ==> final(self).view() == scan_step(old(self).view(), b),
            r is Ok ==> final(self).inv(final(second)@, final(vector)@),
    {
        let blank = b == 10 || b == 13 || b == 32 || b == 9;
        match self.mode {
            Mode::Start => {
                if blank {
                    Ok(())
                } else if b == BOUNDARY {
                    self.mode = Mode::Header;
                    self.recs = Ghost(self.recs@.push(Seq::empty()));
                    proof {
                        assert(self.recs@.drop_last() =~= Seq::<Seq<u8>>::empty());
                        assert(self.pending@ =~= self.recs@.last());
                        assert(committed(self.recs@) =~= committed(old(self).recs@));
                    }
                    Ok(())
                } else {
                    Err(CvError::MalformedRecord)
                }
            },
            Mode::Header => {
                if b == NEWLINE {
                    self.mode = Mode::Body;
                }
                Ok(())
            },
            Mode::Body => {
                if blank {
                    Ok(())
                } else if b == BOUNDARY {
                    if !self.seeded {
                        Err(CvError::MalformedRecord)
                    } else {
                        self.mode = Mode::Header;
                        self.seeded = false;
                        let ghost old_recs = self.recs@;
                        self.recs = Ghost(self.recs@.push(Seq::empty()));
                        proof {
                            assert(self.recs@.drop_last() =~= old_recs);
                            assert(committed(self.recs@) == old_recs);
                            assert(committed(old_recs) == old_recs);
                            assert(self.pending@ =~= self.recs@.last());
                            assert(forall|k: int| 0 <= k < self.recs@.len() - 1 ==> self.recs@[k] == old_recs[k]);
                        }
                        Ok(())
                    }
                } else {
                    match encode(b) {
                        Err(e) => Err(e),
                        Ok(c) => {
                            let ghost recs = self.recs@;
                            let ghost last = recs.last();
                            proof {
                                assert(all_codes(recs[recs.len() - 1]));
                                if !self.seeded {
                                    lemma_short_last(recs);
                                    assert(committed(recs) == recs.drop_last());
                                } else {
                                    assert(committed(recs) == recs);
                                }
                            }
                            if self.bac.total_l + self.pending.len() as u64 >= MAX_RESIDUES {
                                return Err(CvError::SequenceTooLong);
                            }
                            let ghost nl = last.push(c);
                            let ghost nr = recs.drop_last().push(nl);
                            self.recs = Ghost(nr);
                            proof {
                                assert(all_codes(nl)) by {
                                    assert forall|k: int| 0 <= k < nl.len() implies (#[trigger] nl[k] as u64) < AA_NUMBER by {
                                        if k < last.len() {
                                            assert(nl[k] == last[k]);
                                        }
                                    }
                                }
                                assert forall|k: int| 0 <= k < nr.len() implies all_codes(#[trigger] nr[k]) by {
                                    if k < nr.len() - 1 {
                                        assert(nr[k] == recs[k]);
                                    }
                                }
                                assert forall|k: int| 0 <= k < nr.len() - 1 implies (#[trigger] nr[k]).len() >= LEN - 1 by {
                                    assert(nr[k] == recs[k]);
                                }
                            }
                            if self.seeded {
                                proof {
                                    lemma_extend_seeded(recs, c);
                                    lemma_pow_values();
                                }
                                self.bac.cont_buffer(c, second, vector);
                                proof {
                                    assert(committed(nr) == nr);
                                }
                                Ok(())
                            } else {
                                self.pending.push(c);
                                if self.pending.len() == LEN - 1 {
                                    proof {
                                        lemma_extend_seed(recs, c);
                                        assert(self.pending@ =~= nl);
                                    }
                                    self.bac.init_buffer(self.pending.as_slice(), second);
                                    self.pending.clear();
                                    self.seeded = true;
                                    proof {
                                        assert(committed(nr) == nr);
                                        assert(self.pending@ =~= seq![]);
                                    }
                                    Ok(())
                                } else {
                                    proof {
                                        assert(self.pending@ =~= nl);
                                        assert(committed(nr) =~= recs.drop_last());
                                        lemma_short_last(recs);
                                        lemma_short_last(nr);
                                        assert(nr.drop_last() =~= recs.drop_last());
                                    }
                                    Ok(())
                                }
                            }
                        },
                    }
                }
            },
        }
    }

    /// Ends the input: the composition vector of the records read, or the
    /// error with which the format ends.
    pub fn finish(self, second: &Vec<u64>, vector: &Vec<u32>) -> (r: Result<Bacteria, CvError>)
        requires
            self.inv(second@, vector@),
        ensures
            r is Ok <==> scan_outcome(self.view()) is Ok,
            r matches Err(e) ==> scan_outcome(self.view()) == Err::<Seq<Seq<u8>>, CvError>(e),
            r matches Ok(b) ==> {
                let recs = scan_outcome(self.view())->Ok_0;
                &&& entries(b.cs@) == residual_vector(counts_of(recs))
                &&& b.count == b.cs@.len()
                &&& counts_view(b, second@, vector@) == counts_of(recs)
            },
    {
        match self.mode {
            Mode::Start => Err(CvError::EmptySequence),
            Mode::Header => Err(CvError::MalformedRecord),
            Mode::Body => {
                if !self.seeded {
                    return Err(CvError::MalformedRecord);
                }
                let ghost recs = self.recs@;
                proof {
                    assert(committed(recs) == recs);
                    lemma_short_last(recs);
                    let c = counts_view(self.bac, second@, vector@);
                    let d = counts_of(recs);
                    assert(c.residues =~= d.residues);
                    assert(c.medium =~= d.medium);
                    assert(c.full =~= d.full);
                }
                let mut bac = self.bac;
                match bac.compute_residuals(second, vector) {
                    Ok(()) => Ok(bac),
                    Err(e) => Err(e),
                }
            },
        }
    }
}

/// Once the scan has failed, later bytes keep that failure.
pub proof fn lemma_failure_sticks(bytes: Seq<u8>, k: nat)
    requires
        k <= bytes.len(),
        scan(bytes.take(k as int)).failed is Some,
    ensures
        scan(bytes) == scan(bytes.take(k as int)),
    decreases bytes.len() - k,
{
    if k < bytes.len() {
        assert(bytes.take(k as int + 1).drop_last() =~= bytes.take(k as int));
        lemma_failure_sticks(bytes, k + 1);
    } else {
        assert(bytes.take(k as int) =~= bytes);
    }
}

impl Bacteria {
    /// Loads one sequence file held in `bytes`, counting into the worker's
    /// cleared tables, and builds its composition vector.
    pub fn from_bytes(bytes: &[u8], scratch: &mut Scratch) -> (r: Result<Bacteria, CvError>)
        requires
            old(scratch).is_clear(),
        ensures
            r is Ok <==> load_outcome(bytes@) is Ok,
            r matches Err(e) ==> load_outcome(bytes@) == Err::<Seq<Seq<u8>>, CvError>(e),
            r matches Ok(b) ==> entries(b.cs@) == residual_vector(counts_of(load_outcome(bytes@)->Ok_0)),
            r matches Ok(b) ==> b.count == b.cs@.len(),
            r matches Ok(b) ==> ascending(b.cs@),
            r matches Ok(b) ==> counts_view(b, final(scratch).second@, final(scratch).vector@)
                == counts_of(load_outcome(bytes@)->Ok_0),
    {
        let mut loader = Loader::new(scratch);
        let mut k: usize = 0;
        while k < bytes.len()
            invariant
                k <= bytes@.len(),
                loader.inv(scratch.second@, scratch.vector@),
                loader.view() == scan(bytes@.take(k as int)),
            decreases bytes@.len() - k,
        {
            let b = bytes[k];
            proof {
                assert(bytes@.take(k as int + 1).drop_last() =~= bytes@.take(k as int));
            }
            match loader.feed(b, &mut scratch.second, &mut scratch.vector) {
                Ok(()) => {},
                Err(e) => {
                    proof {
                        lemma_failure_sticks(bytes@, k as nat + 1);
                    }
                    return Err(e);
                },
            }
            k = k + 1;
        }
        proof {
            assert(bytes@.take(k as int) =~= bytes@);
        }
        let r = loader.finish(&scratch.second, &scratch.vector);
        proof {
            if r is Ok {
                lemma_entries_ascending(r->Ok_0.cs@, counts_of(load_outcome(bytes@)->Ok_0));
            }
        }
        r
    }
}

} // verus!
