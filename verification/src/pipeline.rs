//! The decisions of the fetch pipeline: which heights to sync, how many
//! requests may be in flight, and in what order completed work is handed on.
//!
//! Work on different heights may finish in any order. A [`Sequencer`] takes
//! the completions as they come and releases them by strictly increasing
//! height, without a gap, so that the ledger never sees a block before the
//! one below it. The first failure that is released ends the run: no height
//! is skipped.
use vstd::prelude::*;
use crate::assoc::{distinct_keys, erase, has_key, index_of, lemma_erase, lemma_index_found, lookup};

verus! {

/// The number of requests that one stage keeps in flight.
pub const DEFAULT_WINDOW: usize = 32;

/// The heights that are still to be applied: from the one above the
/// checkpoint up to the target; none where the checkpoint has reached it.
pub open spec fn pending_range(checkpoint: u64, target: u64) -> Option<(u64, u64)> {
    if checkpoint < target {
        Some((add_one(checkpoint), target))
    } else {
        None
    }
}

/// The heights that are still to be applied: from the one above the
/// checkpoint up to the target, or `None` where the checkpoint has reached it.
pub fn sync_range(checkpoint: u64, target: u64) -> (r: Option<(u64, u64)>)
    ensures
        r == pending_range(checkpoint, target),
{
    if checkpoint < target {
        Some((checkpoint + 1, target))
    } else {
        None
    }
}

/// The height above `h`.
pub open spec fn add_one(h: u64) -> u64
    recommends
        h < u64::MAX,
{
    (h + 1) as u64
}

/// Whether progress is reported at this height: at every thousandth block.
pub fn reports_progress(height: u64) -> (r: bool)
    ensures
        r == (height % 1000 == 0),
{
    height % 1000 == 0
}

/// The state of one ordered stage over the heights `first ..= last`. The
/// work on a height ends with a `T`, or fails with an `E`.
pub struct Sequencer<T, E> {
    last: u64,
    window: usize,
    next_issue: u64,
    next_release: u64,
    pending: Vec<(u64, Result<T, E>)>,
    failed: bool,
}

/// The mathematical value of a [`Sequencer`].
pub struct SequencerView<T, E> {
    /// The last height of the range.
    pub last: u64,
    /// The most heights that may be issued and not yet released.
    pub window: usize,
    /// The next height to issue.
    pub next_issue: u64,
    /// The next height to release.
    pub next_release: u64,
    /// The completions that wait for their turn, by height.
    pub pending: Seq<(u64, Result<T, E>)>,
    /// Whether a failure was released: the run has ended.
    pub failed: bool,
}

/// The heights issued and not yet released.
pub open spec fn in_flight<T, E>(s: SequencerView<T, E>) -> int {
    s.next_issue - s.next_release
}

/// The state is consistent: releases trail issues by at most the window,
/// and what waits was issued, was not released, and waits once.
pub open spec fn sequencer_wf<T, E>(s: SequencerView<T, E>) -> bool {
    &&& s.last < u64::MAX
    &&& s.next_release <= s.next_issue
    &&& (s.next_issue <= s.last + 1 || s.next_issue == s.next_release)
    &&& in_flight(s) <= s.window
    &&& distinct_keys(s.pending)
    &&& forall|i: int|
        0 <= i < s.pending.len() ==> s.next_release <= (#[trigger] s.pending[i]).0 < s.next_issue
}

/// Whether a height may be issued now.
pub open spec fn can_issue<T, E>(s: SequencerView<T, E>) -> bool {
    !s.failed && s.next_issue <= s.last && in_flight(s) < s.window
}

/// Whether a completion for `height` is expected: the run has not ended,
/// the height was issued, not released, and has not come in before.
pub open spec fn expects<T, E>(s: SequencerView<T, E>, height: u64) -> bool {
    !s.failed && s.next_release <= height < s.next_issue && !has_key(s.pending, height)
}

/// What is released next: the completion of the lowest height not yet
/// released, if it has come in and the run has not ended.
pub open spec fn next_ready<T, E>(s: SequencerView<T, E>) -> Option<Result<T, E>> {
    if s.failed {
        None
    } else {
        lookup(s.pending, s.next_release)
    }
}

impl<T, E> Sequencer<T, E> {
    /// The sequencer's state.
    pub closed spec fn view(&self) -> SequencerView<T, E> {
        SequencerView {
            last: self.last,
            window: self.window,
            next_issue: self.next_issue,
            next_release: self.next_release,
            pending: self.pending@,
            failed: self.failed,
        }
    }

    /// The state is consistent.
    pub open spec fn wf(&self) -> bool {
        sequencer_wf(self@)
    }

    /// A stage over the heights `first ..= last` (none where `first > last`)
    /// that keeps at most `window` heights in flight.
    pub fn new(first: u64, last: u64, window: usize) -> (r: Sequencer<T, E>)
        requires
            last < u64::MAX,
        ensures
            r.wf(),
            r@ == (SequencerView::<T, E> {
                last,
                window,
                next_issue: first,
                next_release: first,
                pending: Seq::empty(),
                failed: false,
            }),
    {
        Sequencer {
            last,
            window,
            next_issue: first,
            next_release: first,
            pending: Vec::new(),
            failed: false,
        }
    }

    /// The next height to request, if the window has room, the range is not
    /// exhausted and the run has not ended. Heights are issued in increasing order.
    pub fn issue(&mut self) -> (r: Option<u64>)
        requires
            old(self).wf(),
        ensures
            final(self).wf(),
            can_issue(old(self)@) ==> r == Some(old(self)@.next_issue) && final(self)@ == (
            SequencerView { next_issue: add_one(old(self)@.next_issue), ..old(self)@ }),
            !can_issue(old(self)@) ==> r is None && final(self)@ == old(self)@,
    {
        if !self.failed && self.next_issue <= self.last && ((self.next_issue
            - self.next_release) as u128) < (self.window as u128) {
            let height = self.next_issue;
            self.next_issue = height + 1;
            Some(height)
        } else {
            None
        }
    }

    fn find(&self, height: u64) -> (r: Option<usize>)
        requires
            self.wf(),
        ensures
            match r {
                Some(i) => has_key(self@.pending, height) && i == index_of(self@.pending, height)
                    && i < self@.pending.len(),
                None => !has_key(self@.pending, height),
            },
    {
        let mut i: usize = 0;
        while i < self.pending.len()
            invariant
                i <= self.pending.len(),
                self.wf(),
                forall|j: int| 0 <= j < i ==> (#[trigger] self@.pending[j]).0 != height,
            decreases self.pending.len() - i,
        {
            if self.pending[i].0 == height {
                proof {
                    lemma_index_found(self@.pending, height, i as int);
                }
                return Some(i);
            }
            i += 1;
        }
        None
    }

    /// Takes the completion of the work on `height`, in whatever order the
    /// completions come. One that is not expected is handed back.
    pub fn complete(&mut self, height: u64, item: Result<T, E>) -> (r: Option<Result<T, E>>)
        requires
            old(self).wf(),
        ensures
            final(self).wf(),
            expects(old(self)@, height) ==> r is None && final(self)@ == (SequencerView {
                pending: old(self)@.pending.push((height, item)),
                ..old(self)@
            }),
            !expects(old(self)@, height) ==> r == Some(item) && final(self)@ == old(self)@,
    {
        if self.failed || height < self.next_release || height >= self.next_issue {
            return Some(item);
        }
        match self.find(height) {
            Some(_) => Some(item),
            None => {
                let ghost before = self@.pending;
                self.pending.push((height, item));
                proof {
                    let after = self@.pending;
                    assert forall|a: int, b: int| 0 <= a < b < after.len() implies (
                    #[trigger] after[a]).0 != (#[trigger] after[b]).0 by {
                        assert(after[a] == before[a]);
                        if b < before.len() {
                            assert(after[b] == before[b]);
                        }
                    }
                    assert forall|i: int| 0 <= i < after.len() implies self@.next_release <= (
                    #[trigger] after[i]).0 < self@.next_issue by {
                        if i < before.len() {
                            assert(after[i] == before[i]);
                        }
                    }
                }
                None
            },
        }
    }

    /// Hands on the completion of the lowest height not yet released, if it
    /// has come in: heights are released in increasing order, each once and
    /// none left out, whatever the order in which they completed. A failure
    /// that is released ends the run: nothing is issued, taken or released
    /// after it.
    pub fn release(&mut self) -> (r: Option<(u64, Result<T, E>)>)
        requires
            old(self).wf(),
        ensures
            final(self).wf(),
            match next_ready(old(self)@) {
                Some(item) => r == Some((old(self)@.next_release, item)) && final(self)@ == (
                SequencerView {
                    next_release: add_one(old(self)@.next_release),
                    pending: erase(old(self)@.pending, old(self)@.next_release),
                    failed: item is Err,
                    ..old(self)@
                }),
                None => r is None && final(self)@ == old(self)@,
            },
    {
        if self.failed {
            return None;
        }
        let height = self.next_release;
        match self.find(height) {
            Some(i) => {
                let ghost before = self@.pending;
                proof {
                    lemma_erase(before, height);
                    assert(before[i as int].0 == height);
                }
                let entry = self.pending.remove(i);
                self.next_release = height + 1;
                self.failed = entry.1.is_err();
                proof {
                    let after = self@.pending;
                    assert(after =~= erase(before, height));
                    assert forall|j: int| 0 <= j < after.len() implies self@.next_release <= (
                    #[trigger] after[j]).0 < self@.next_issue by {
                        let sj = if j < i { j } else { j + 1 };
                        assert(after[j] == before[sj]);
                        if after[j].0 == height {
                            assert(has_key(after, height));
                        }
                    }
                }
                Some((height, entry.1))
            },
            None => None,
        }
    }

    /// Whether a height may be issued now.
    pub fn has_room(&self) -> (r: bool)
        requires
            self.wf(),
        ensures
            r == can_issue(self@),
    {
        !self.failed && self.next_issue <= self.last && ((self.next_issue
            - self.next_release) as u128) < (self.window as u128)
    }

    /// Whether the run is over: every height of the range has been
    /// released, or a failure has.
    pub fn is_done(&self) -> (r: bool)
        requires
            self.wf(),
        ensures
            r == (self@.failed || self@.next_release > self@.last),
    {
        self.failed || self.next_release > self.last
    }

    /// Whether a failure was released.
    pub fn has_failed(&self) -> (r: bool)
        ensures
            r == self@.failed,
    {
        self.failed
    }

    /// The number of heights issued and not yet released.
    pub fn in_flight(&self) -> (r: u64)
        requires
            self.wf(),
        ensures
            r == in_flight(self@),
    {
        self.next_issue - self.next_release
    }
}

} // verus!
