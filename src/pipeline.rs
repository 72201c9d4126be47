use vstd::prelude::*;

verus! {

/// Lifecycle of one result slot.
#[derive(Debug, Clone, Copy, PartialEq, Eq, Structural)]
pub enum SlotState {
    /// Its job has not been taken.
    Pending,
    /// A worker is loading it.
    Loading,
    /// Its composition vector is stored and read-only.
    Frozen,
}

/// A slot transition that its current state does not allow.
#[derive(Debug, Clone, Copy, PartialEq, Eq, Structural)]
pub enum SlotError {
    /// No slot has this index.
    OutOfRange,
    /// The slot is not in the state that the transition leaves.
    WrongState,
}

/// Slots in the state `Frozen`.
pub open spec fn frozen_count(s: Seq<SlotState>) -> nat
    decreases s.len(),
{
    if s.len() == 0 {
        0
    } else {
        frozen_count(s.drop_last()) + if s.last() == SlotState::Frozen { 1nat } else { 0nat }
    }
}

/// Every slot is `Frozen`.
pub open spec fn all_frozen(s: Seq<SlotState>) -> bool {
    forall|k: int| 0 <= k < s.len() ==> #[trigger] s[k] == SlotState::Frozen
}

proof fn lemma_frozen_count_bound(s: Seq<SlotState>)
    ensures
        frozen_count(s) <= s.len(),
        frozen_count(s) == s.len() <==> all_frozen(s),
    decreases s.len(),
{
    if s.len() > 0 {
        let t = s.drop_last();
        lemma_frozen_count_bound(t);
        if all_frozen(s) {
            assert forall|k: int| 0 <= k < t.len() implies #[trigger] t[k] == SlotState::Frozen by {
                assert(t[k] == s[k]);
            }
            assert(s[s.len() - 1] == SlotState::Frozen);
        }
        if frozen_count(s) == s.len() {
            assert forall|k: int| 0 <= k < s.len() implies #[trigger] s[k] == SlotState::Frozen by {
                if k < t.len() {
                    assert(t[k] == s[k]);
                }
            }
        }
    }
}

proof fn lemma_frozen_count_update(s: Seq<SlotState>, i: int, v: SlotState)
    requires
        0 <= i < s.len(),
        s[i] != SlotState::Frozen,
        v == SlotState::Frozen,
    ensures
        frozen_count(s.update(i, v)) == frozen_count(s) + 1,
    decreases s.len(),
{
    let u = s.update(i, v);
    if i == s.len() - 1 {
        assert(u.drop_last() =~= s.drop_last());
    } else {
        assert(u.drop_last() =~= s.drop_last().update(i, v));
        lemma_frozen_count_update(s.drop_last(), i, v);
    }
}

/// The load phase of the pipeline: one slot per sequence, each taken by one
/// worker, loaded once and then frozen.
pub struct LoadTracker {
    pub states: Vec<SlotState>,
    /// Number of frozen slots.
    pub frozen: usize,
}

impl LoadTracker {
    pub open spec fn wf(&self) -> bool {
        self.frozen == frozen_count(self.states@)
    }

    /// `n` slots, all pending.
    pub fn new(n: usize) -> (r: LoadTracker)
        ensures
            r.wf(),
            r.states@ == Seq::new(n as nat, |_k: int| SlotState::Pending),
            r.frozen == 0,
    {
        let mut states: Vec<SlotState> = Vec::new();
        let mut k: usize = 0;
        while k < n
            invariant
                k <= n,
                states@ == Seq::new(k as nat, |_k: int| SlotState::Pending),
                frozen_count(states@) == 0,
            decreases n - k,
        {
            let ghost before = states@;
            states.push(SlotState::Pending);
            proof {
                assert(states@.drop_last() =~= before);
                assert(states@ =~= Seq::new(k as nat + 1, |_k: int| SlotState::Pending));
            }
            k = k + 1;
        }
        LoadTracker { states, frozen: 0 }
    }

    /// A worker takes the job of slot `i`: `Pending` becomes `Loading`.
    pub fn begin_load(&mut self, i: usize) -> (r: Result<(), SlotError>)
        requires
            old(self).wf(),
        ensures
            final(self).wf(),
            r is Ok <==> i < old(self).states@.len() && old(self).states@[i as int] == SlotState::Pending,
            r matches Err(e) ==> (e == SlotError::OutOfRange <==> i >= old(self).states@.len()),
            r is Ok ==> final(self).states@ == old(self).states@.update(i as int, SlotState::Loading),
            r is Err ==> final(self).states@ == old(self).states@,
            final(self).frozen == old(self).frozen,
    {
        if i >= self.states.len() {
            return Err(SlotError::OutOfRange);
        }
        match self.states[i] {
            SlotState::Pending => {
                proof {
                    lemma_frozen_count_update_other(self.states@, i as int, SlotState::Loading);
                }
                self.states.set(i, SlotState::Loading);
                Ok(())
            },
            _ => Err(SlotError::WrongState),
        }
    }

    /// The worker has stored the vector of slot `i`: `Loading` becomes
    /// `Frozen`. The result tells whether every slot is now frozen, the
    /// barrier after which the comparisons may start.
    pub fn finish_load(&mut self, i: usize) -> (r: Result<bool, SlotError>)
        requires
            old(self).wf(),
        ensures
            final(self).wf(),
            r is Ok <==> i < old(self).states@.len() && old(self).states@[i as int] == SlotState::Loading,
            r matches Err(e) ==> (e == SlotError::OutOfRange <==> i >= old(self).states@.len()),
            r is Ok ==> final(self).states@ == old(self).states@.update(i as int, SlotState::Frozen),
            r matches Ok(done) ==> done == all_frozen(final(self).states@),
            r is Err ==> final(self).states@ == old(self).states@,
    {
        if i >= self.states.len() {
            return Err(SlotError::OutOfRange);
        }
        match self.states[i] {
            SlotState::Loading => {
                proof {
                    lemma_frozen_count_update(self.states@, i as int, SlotState::Frozen);
                    lemma_frozen_count_bound(self.states@.update(i as int, SlotState::Frozen));
                }
                self.states.set(i, SlotState::Frozen);
                self.frozen = self.frozen + 1;
                Ok(self.frozen == self.states.len())
            },
            _ => Err(SlotError::WrongState),
        }
    }

    /// Every slot is frozen.
    pub fn is_done(&self) -> (r: bool)
        requires
            self.wf(),
        ensures
            r == all_frozen(self.states@),
    {
        proof {
            lemma_frozen_count_bound(self.states@);
        }
        self.frozen == self.states.len()
    }
}

proof fn lemma_frozen_count_update_other(s: Seq<SlotState>, i: int, v: SlotState)
    requires
        0 <= i < s.len(),
        s[i] != SlotState::Frozen,
        v != SlotState::Frozen,
    ensures
        frozen_count(s.update(i, v)) == frozen_count(s),
    decreases s.len(),
{
    let u = s.update(i, v);
    if i == s.len() - 1 {
        assert(u.drop_last() =~= s.drop_last());
    } else {
        assert(u.drop_last() =~= s.drop_last().update(i, v));
        lemma_frozen_count_update_other(s.drop_last(), i, v);
    }
}

/// `x` comes before `y` in lexicographic order.
pub open spec fn lex_lt(x: (usize, usize), y: (usize, usize)) -> bool {
    x.0 < y.0 || (x.0 == y.0 && x.1 < y.1)
}

/// `r` lists every unordered pair of distinct indices below `n` once, as
/// `(i, j)` with `i < j`, in lexicographic order.
pub open spec fn is_pair_schedule(n: nat, r: Seq<(usize, usize)>) -> bool {
    &&& forall|k: int| 0 <= k < r.len() ==> (#[trigger] r[k]).0 < r[k].1 && r[k].1 < n
    &&& forall|k: int, l: int| 0 <= k < l < r.len() ==> lex_lt(#[trigger] r[k], #[trigger] r[l])
    &&& forall|i: int, j: int| 0 <= i < j < n ==> #[trigger] r.contains((i as usize, j as usize))
}

/// The comparisons of the all-pairs phase: each unordered pair of distinct
/// sequences once, never a sequence with itself.
pub fn all_pairs(n: usize) -> (r: Vec<(usize, usize)>)
    ensures
        is_pair_schedule(n as nat, r@),
{
    let mut r: Vec<(usize, usize)> = Vec::new();
    let mut i: usize = 0;
    while i < n
        invariant
            i <= n,
            forall|k: int| 0 <= k < r@.len() ==> (#[trigger] r@[k]).0 < r@[k].1 && r@[k].1 < n
                && r@[k].0 < i,
            forall|k: int, l: int| 0 <= k < l < r@.len() ==> lex_lt(#[trigger] r@[k], #[trigger] r@[l]),
            forall|a: int, b: int| 0 <= a < b < n && a < i ==> #[trigger] r@.contains((a as usize, b as usize)),
        decreases n - i,
    {
        let mut j: usize = i + 1;
        while j < n
            invariant
                i < n,
                i + 1 <= j <= n,
                forall|k: int| 0 <= k < r@.len() ==> (#[trigger] r@[k]).0 < r@[k].1 && r@[k].1 < n
                    && (r@[k].0 < i || (r@[k].0 == i && r@[k].1 < j)),
                forall|k: int, l: int| 0 <= k < l < r@.len() ==> lex_lt(#[trigger] r@[k], #[trigger] r@[l]),
                forall|a: int, b: int| 0 <= a < b < n && (a < i || (a == i && b < j))
                    ==> #[trigger] r@.contains((a as usize, b as usize)),
            decreases n - j,
        {
            let ghost before = r@;
            r.push((i, j));
            proof {
                assert forall|a: int, b: int| 0 <= a < b < n && (a < i || (a == i && b < j + 1))
                    implies #[trigger] r@.contains((a as usize, b as usize)) by {
                    if a < i || b < j {
                        assert(before.contains((a as usize, b as usize)));
                        let k = choose|k: int| 0 <= k < before.len() && before[k] == (a as usize, b as usize);
                        assert(r@[k] == before[k]);
                    } else {
                        assert(r@[r@.len() - 1] == (a as usize, b as usize));
                    }
                }
                assert forall|k: int, l: int| 0 <= k < l < r@.len() implies lex_lt(#[trigger] r@[k], #[trigger] r@[l]) by {
                    assert(r@[k] == before[k]);
                    if l < before.len() {
                        assert(r@[l] == before[l]);
                    }
                }
            }
            j = j + 1;
        }
        i = i + 1;
    }
    r
}

/// A pair written with its smaller index first.
pub fn canonical_pair(i: usize, j: usize) -> (r: (usize, usize))
    ensures
        r.0 <= r.1,
        (r == (i, j)) || (r == (j, i)),
{
    if i <= j { (i, j) } else { (j, i) }
}

} // verus!
