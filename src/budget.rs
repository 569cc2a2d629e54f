use vstd::prelude::*;
use crate::stream::{BatchSink, Flow, PointsBatch};

verus! {

/// Points between two progress reports.
pub const PROGRESS_STEP: usize = 1000000;

/// What the consumer does after counting one batch.
#[derive(Clone, Copy, Debug, PartialEq, Eq, Structural)]
pub struct BudgetStep {
    /// Whether the stream should go on.
    pub flow: Flow,
    /// Whole millions of points streamed so far, when a report is due.
    pub progress: Option<usize>,
}

/// Counts streamed points, asks to stop once `max_points` is reached and
/// reports progress every `PROGRESS_STEP` points.
pub struct PointBudget {
    max_points: usize,
    count: usize,
    next_report: usize,
    received: Ghost<Seq<(PointsBatch, Flow)>>,
}

impl PointBudget {
    pub closed spec fn spec_count(&self) -> nat {
        self.count as nat
    }

    pub closed spec fn spec_max_points(&self) -> nat {
        self.max_points as nat
    }

    /// Reports already made, plus one.
    pub closed spec fn spec_next_report(&self) -> nat {
        self.next_report as nat
    }

    pub fn new(max_points: usize) -> (r: PointBudget)
        ensures
            r.spec_count() == 0,
            r.spec_max_points() == max_points,
            r.spec_next_report() == 1,
    {
        PointBudget { max_points, count: 0, next_report: 1, received: Ghost(Seq::empty()) }
    }

    pub fn count(&self) -> (r: usize)
        ensures
            r == self.spec_count(),
    {
        self.count
    }

    /// Counts `n` more points (saturating at `usize::MAX`); a report is due
    /// when the count reaches the next multiple of `PROGRESS_STEP` not yet
    /// reported, and the stream stops once the count reaches `max_points`.
    pub fn record(&mut self, n: usize) -> (r: BudgetStep)
        ensures
            final(self).spec_max_points() == old(self).spec_max_points(),
            final(self).spec_count() == if old(self).spec_count() + n <= usize::MAX {
                (old(self).spec_count() + n) as nat
            } else {
                usize::MAX as nat
            },
            final(self).spec_count() >= old(self).spec_next_report() * PROGRESS_STEP ==> {
                &&& r.progress == Some((final(self).spec_count() / PROGRESS_STEP as nat) as usize)
                &&& final(self).spec_next_report() == old(self).spec_next_report() + 1
            },
            final(self).spec_count() < old(self).spec_next_report() * PROGRESS_STEP ==> {
                &&& r.progress is None
                &&& final(self).spec_next_report() == old(self).spec_next_report()
            },
            r.flow == if final(self).spec_count() >= final(self).spec_max_points() {
                Flow::Stop
            } else {
                Flow::Continue
            },
    {
        self.count = self.count.saturating_add(n);
        let reached = self.count / PROGRESS_STEP;
        proof {
            let c = self.count as int;
            let p = self.next_report as int;
            assert(c >= p * 1000000 <==> c / 1000000 >= p) by (nonlinear_arith)
                requires
                    c >= 0,
                    p >= 0,
            ;
            assert(c / 1000000 < usize::MAX) by (nonlinear_arith)
                requires
                    0 <= c <= usize::MAX,
            ;
        }
        let progress = if reached >= self.next_report {
            self.next_report = self.next_report + 1;
            Some(reached)
        } else {
            None
        };
        let flow = if self.count >= self.max_points {
            Flow::Stop
        } else {
            Flow::Continue
        };
        BudgetStep { flow, progress }
    }
}

impl BatchSink for PointBudget {
    closed spec fn log(&self) -> Seq<(PointsBatch, Flow)> {
        self.received@
    }

    fn consume(&mut self, batch: PointsBatch) -> (r: Flow) {
        let ghost prev = self.received@;
        let flow = self.record(batch.position.len()).flow;
        self.received = Ghost(prev.push((batch, flow)));
        flow
    }
}

} // verus!
