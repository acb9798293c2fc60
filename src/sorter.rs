//! The state of one sort job and the query API that callers use.
//!
//! The job runs once: it starts `Running` and moves to `Finished` or
//! `Error` exactly once; no transition leaves a terminal status. The worker
//! that reads the column reports to this state through `checkpoint` (once per
//! batch read, the cancellation point) and `publish` (once, at the end).
use vstd::prelude::*;
use crate::ranking::{SortResult, inverse_permutations, keys_bounded, ranked_by, sorted_by_keys};

verus! {

#[derive(Clone, Debug, PartialEq)]
pub enum SorterStatus {
    Running,
    Finished,
    Error(String),
}

#[derive(Clone, Copy, Debug)]
pub enum SortOrder {
    Ascending,
    Descending,
}

/// The message of a job that was cancelled.
pub open spec fn terminated_message() -> Seq<char> {
    seq!['T', 'e', 'r', 'm', 'i', 'n', 'a', 't', 'e', 'd']
}

/// The message of a job whose ranks were out of range.
pub open spec fn invalid_ranks_message() -> Seq<char> {
    seq!['I', 'n', 'v', 'a', 'l', 'i', 'd', ' ', 'r', 'a', 'n', 'k', 's']
}

pub open spec fn is_terminal(s: SorterStatus) -> bool {
    !(s is Running)
}

/// How many entries a window from rank `from` of at most `count` entries
/// holds, out of `n`.
pub open spec fn window_len(n: int, from: int, count: int) -> int {
    if from >= n {
        0
    } else if count < n - from {
        count
    } else {
        n - from
    }
}

/// Up to `count` entries of `indices` from rank `from` on, as `u64`.
pub open spec fn window(indices: Seq<usize>, from: int, count: int) -> Seq<u64> {
    Seq::new(
        window_len(indices.len() as int, from, count) as nat,
        |k: int| indices[from + k] as u64,
    )
}

/// A window from rank `from` holds `min(count, max(0, n - from))` entries,
/// none when `from` is past the last rank, and entry `k` is the row at rank
/// `from + k`.
pub proof fn lemma_window(indices: Seq<usize>, from: int, count: int)
    requires
        0 <= from,
        0 <= count,
    ensures
        from >= indices.len() ==> window(indices, from, count).len() == 0,
        from < indices.len() ==> window(indices, from, count).len() == if count < indices.len()
            - from {
            count
        } else {
            indices.len() - from
        },
        forall|k: int|
            0 <= k < window(indices, from, count).len() ==> #[trigger] window(
                indices,
                from,
                count,
            )[k] == indices[from + k] as u64,
{
}

fn copy_status(s: &SorterStatus) -> (r: SorterStatus)
    ensures
        r == *s,
{
    match s {
        SorterStatus::Running => SorterStatus::Running,
        SorterStatus::Finished => SorterStatus::Finished,
        SorterStatus::Error(m) => SorterStatus::Error(m.clone()),
    }
}

/// What the worker and the callers share: the status, the result once it is
/// published, the cancellation flag and the worker's exit marker.
#[derive(Debug)]
pub struct SorterInternalState {
    sort_result: Option<SortResult>,
    status: SorterStatus,
    should_terminate: bool,
    done: bool,
}

impl SorterInternalState {
    pub closed spec fn status_spec(&self) -> SorterStatus {
        self.status
    }

    pub closed spec fn result_spec(&self) -> Option<SortResult> {
        self.sort_result
    }

    pub closed spec fn terminate_requested(&self) -> bool {
        self.should_terminate
    }

    pub closed spec fn done_spec(&self) -> bool {
        self.done
    }

    /// A result is present exactly when the job finished, and the worker has
    /// exited exactly when the status is terminal.
    pub open spec fn wf(&self) -> bool {
        &&& (self.status_spec() is Finished) == self.result_spec().is_some()
        &&& (self.result_spec() matches Some(r) ==> r.wf())
        &&& self.done_spec() == is_terminal(self.status_spec())
    }

    /// A fresh job: running, with no result and no cancellation asked.
    pub fn init() -> (s: SorterInternalState)
        ensures
            s.wf(),
            s.status_spec() is Running,
            !s.terminate_requested(),
            !s.done_spec(),
    {
        SorterInternalState {
            sort_result: None,
            status: SorterStatus::Running,
            should_terminate: false,
            done: false,
        }
    }

    /// Asks the job to stop at its next checkpoint.
    pub fn terminate(&mut self)
        requires
            old(self).wf(),
        ensures
            final(self).wf(),
            final(self).terminate_requested(),
            final(self).status_spec() == old(self).status_spec(),
            final(self).result_spec() == old(self).result_spec(),
            final(self).done_spec() == old(self).done_spec(),
    {
        self.should_terminate = true;
    }

    /// Whether the worker has exited.
    pub fn is_done(&self) -> (r: bool)
        ensures
            r == self.done_spec(),
    {
        self.done
    }

    /// The cancellation point, reached once after each batch the worker reads.
    /// The worker goes on only while the job runs and no one asked it to stop;
    /// a running job that was asked to stop ends here in `Error("Terminated")`.
    pub fn checkpoint(&mut self) -> (keep_going: bool)
        requires
            old(self).wf(),
        ensures
            final(self).wf(),
            keep_going == (old(self).status_spec() is Running && !old(self).terminate_requested()),
            keep_going ==> *final(self) == *old(self),
            is_terminal(old(self).status_spec()) ==> *final(self) == *old(self),
            (old(self).status_spec() is Running && old(self).terminate_requested()) ==> {
                &&& final(self).status_spec() matches SorterStatus::Error(m)
                &&& m@ == terminated_message()
                &&& final(self).result_spec().is_none()
                &&& final(self).terminate_requested()
                &&& final(self).done_spec()
            },
    {
        if !matches!(self.status, SorterStatus::Running) {
            return false;
        }
        if self.should_terminate {
            self.status = SorterStatus::Error("Terminated".to_owned());
            self.done = true;
            proof {
                reveal_strlit("Terminated");
            }
            return false;
        }
        true
    }

    /// Ends the job, once. `outcome` is the rank of each row of the column
    /// (see `SortResult::from_ranks`) or the message of the failure that
    /// stopped the worker. Cancellation is seen only at the checkpoints: a
    /// running job ends by the outcome alone, and a job already ended is left
    /// as it is.
    pub fn publish(&mut self, outcome: Result<Vec<u32>, String>)
        requires
            old(self).wf(),
            outcome matches Ok(ranks) ==> ranks@.len() < usize::MAX,
        ensures
            final(self).wf(),
            final(self).terminate_requested() == old(self).terminate_requested(),
            is_terminal(old(self).status_spec()) ==> *final(self) == *old(self),
            old(self).status_spec() is Running ==> final(self).done_spec(),
            old(self).status_spec() is Running ==> match outcome {
                Err(e) => final(self).status_spec() == SorterStatus::Error(e),
                Ok(ranks) => if keys_bounded(ranks@) {
                    &&& final(self).status_spec() is Finished
                    &&& final(self).result_spec() matches Some(r)
                    &&& sorted_by_keys(ranks@, r.indices())
                    &&& ranked_by(ranks@, r.orders())
                } else {
                    final(self).status_spec() matches SorterStatus::Error(m) && m@
                        == invalid_ranks_message()
                },
            },
    {
        if !matches!(self.status, SorterStatus::Running) {
            return;
        }
        match outcome {
            Err(e) => {
                self.status = SorterStatus::Error(e);
            },
            Ok(ranks) => {
                match SortResult::from_ranks(&ranks) {
                    Some(r) => {
                        self.sort_result = Some(r);
                        self.status = SorterStatus::Finished;
                    },
                    None => {
                        self.status = SorterStatus::Error("Invalid ranks".to_owned());
                        proof {
                            reveal_strlit("Invalid ranks");
                        }
                    },
                }
            },
        }
        self.done = true;
    }
}

/// Once a job has finished, its row list and its rank list have one entry per
/// row and each is the inverse of the other.
pub proof fn lemma_finished_inverse(s: Sorter)
    requires
        s.wf(),
        s.state().status_spec() is Finished,
    ensures
        s.state().result_spec() matches Some(r) && inverse_permutations(r.indices(), r.orders()),
{
}

/// A handle on one column's sort job.
#[derive(Debug)]
pub struct Sorter {
    pub column_index: usize,
    column_name: String,
    order: SortOrder,
    internal: SorterInternalState,
}

impl Sorter {
    pub closed spec fn state(&self) -> SorterInternalState {
        self.internal
    }

    pub closed spec fn index_spec(&self) -> usize {
        self.column_index
    }

    pub closed spec fn name_spec(&self) -> Seq<char> {
        self.column_name@
    }

    pub closed spec fn order_spec(&self) -> SortOrder {
        self.order
    }

    pub open spec fn wf(&self) -> bool {
        self.state().wf()
    }

    /// The handle of a new job on column `column_index`, running and ascending.
    pub fn new(column_index: usize, column_name: String) -> (s: Sorter)
        ensures
            s.wf(),
            s.index_spec() == column_index,
            s.name_spec() == column_name@,
            s.order_spec() is Ascending,
            s.state().status_spec() is Running,
            !s.state().terminate_requested(),
    {
        Sorter {
            column_index,
            column_name,
            order: SortOrder::Ascending,
            internal: SorterInternalState::init(),
        }
    }

    /// The row indices at ranks `rows_from` up to `rows_from + num_rows`,
    /// clipped to the rows that exist; `None` while no result is published.
    pub fn get_sorted_indices(&self, rows_from: u64, num_rows: u64) -> (r: Option<Vec<u64>>)
        requires
            self.wf(),
        ensures
            r.is_none() <==> self.state().result_spec().is_none(),
            self.state().status_spec() is Running ==> r.is_none(),
            r matches Some(v) ==> v@ == window(
                self.state().result_spec().unwrap().indices(),
                rows_from as int,
                num_rows as int,
            ),
    {
        match &self.internal.sort_result {
            None => None,
            Some(res) => {
                let ghost idx = res.indices();
                let n = res.len() as u64;
                let mut out: Vec<u64> = Vec::new();
                if rows_from < n {
                    let avail = n - rows_from;
                    let count = if num_rows < avail {
                        num_rows
                    } else {
                        avail
                    };
                    let mut i: u64 = 0;
                    while i < count
                        invariant
                            i <= count,
                            count <= n - rows_from,
                            rows_from < n,
                            n == idx.len(),
                            idx.len() <= usize::MAX,
                            idx == res.indices(),
                            out@ =~= Seq::new(i as nat, |k: int| idx[rows_from + k] as u64),
                        decreases count - i,
                    {
                        let pos = (rows_from + i) as usize;
                        let x = res.index_at(pos);
                        out.push(x as u64);
                        i += 1;
                    }
                }
                assert(out@ =~= window(idx, rows_from as int, num_rows as int));
                Some(out)
            },
        }
    }

    /// The rank of row `row_index`; `None` while no result is published or
    /// when the row does not exist.
    pub fn get_record_order(&self, row_index: u64) -> (r: Option<u64>)
        requires
            self.wf(),
        ensures
            self.state().status_spec() is Running ==> r.is_none(),
            match self.state().result_spec() {
                None => r.is_none(),
                Some(res) => if row_index < res.orders().len() {
                    r == Some(res.orders()[row_index as int] as u64)
                } else {
                    r.is_none()
                },
            },
    {
        match &self.internal.sort_result {
            None => None,
            Some(res) => {
                if row_index < res.len() as u64 {
                    Some(res.order_at(row_index as usize) as u64)
                } else {
                    None
                }
            },
        }
    }

    pub fn status(&self) -> (r: SorterStatus)
        ensures
            r == self.state().status_spec(),
    {
        copy_status(&self.internal.status)
    }

    pub fn column_index(&self) -> (r: usize)
        ensures
            r == self.index_spec(),
    {
        self.column_index
    }

    pub fn order(&self) -> (r: SortOrder)
        ensures
            r == self.order_spec(),
    {
        self.order
    }

    pub fn column_name(&self) -> (r: &str)
        ensures
            r@ == self.name_spec(),
    {
        self.column_name.as_str()
    }

    /// Asks the job to stop at its next checkpoint; asking twice is the same
    /// as asking once.
    pub fn terminate(&mut self)
        requires
            old(self).wf(),
        ensures
            final(self).wf(),
            final(self).state().terminate_requested(),
            final(self).state().status_spec() == old(self).state().status_spec(),
            final(self).state().result_spec() == old(self).state().result_spec(),
            final(self).index_spec() == old(self).index_spec(),
            final(self).name_spec() == old(self).name_spec(),
            final(self).order_spec() == old(self).order_spec(),
    {
        self.internal.terminate();
    }

    /// Whether the worker has exited.
    pub fn is_done(&self) -> (r: bool)
        ensures
            r == self.state().done_spec(),
    {
        self.internal.is_done()
    }

    /// See `SorterInternalState::checkpoint`.
    pub fn checkpoint(&mut self) -> (keep_going: bool)
        requires
            old(self).wf(),
        ensures
            final(self).wf(),
            keep_going == (old(self).state().status_spec() is Running
                && !old(self).state().terminate_requested()),
            keep_going ==> final(self).state() == old(self).state(),
            is_terminal(old(self).state().status_spec()) ==> final(self).state() == old(
                self,
            ).state(),
            (old(self).state().status_spec() is Running && old(self).state().terminate_requested())
                ==> (final(self).state().status_spec() matches SorterStatus::Error(m) && m@
                == terminated_message()),
            final(self).index_spec() == old(self).index_spec(),
            final(self).name_spec() == old(self).name_spec(),
            final(self).order_spec() == old(self).order_spec(),
    {
        self.internal.checkpoint()
    }

    /// See `SorterInternalState::publish`.
    pub fn publish(&mut self, outcome: Result<Vec<u32>, String>)
        requires
            old(self).wf(),
            outcome matches Ok(ranks) ==> ranks@.len() < usize::MAX,
        ensures
            final(self).wf(),
            final(self).state().terminate_requested() == old(self).state().terminate_requested(),
            is_terminal(old(self).state().status_spec()) ==> final(self).state() == old(
                self,
            ).state(),
            old(self).state().status_spec() is Running ==> final(self).state().done_spec(),
            old(self).state().status_spec() is Running ==> match outcome {
                Err(e) => final(self).state().status_spec() == SorterStatus::Error(e),
                Ok(ranks) => if keys_bounded(ranks@) {
                    &&& final(self).state().status_spec() is Finished
                    &&& final(self).state().result_spec() matches Some(r)
                    &&& sorted_by_keys(ranks@, r.indices())
                    &&& ranked_by(ranks@, r.orders())
                } else {
                    final(self).state().status_spec() matches SorterStatus::Error(m) && m@
                        == invalid_ranks_message()
                },
            },
            final(self).index_spec() == old(self).index_spec(),
            final(self).name_spec() == old(self).name_spec(),
            final(self).order_spec() == old(self).order_spec(),
    {
        self.internal.publish(outcome)
    }
}

} // verus!
