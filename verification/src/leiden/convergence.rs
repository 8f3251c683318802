//! Convergence bookkeeping of the Leiden algorithm.
//!
//! The quality comparisons of an iteration (is the rolling window of quality
//! scores stable, is the improvement below the threshold, is it below the
//! plateau threshold) are made on the quality scores themselves; what they
//! found is handed to [`ConvergenceCounters::record`], which keeps the
//! iteration counters and decides which events the iteration emits.

use vstd::prelude::*;

use crate::step::StepEvent;

verus! {

/// What the quality comparisons of one iteration found.
#[derive(Debug, Clone, Copy, PartialEq, Eq, Structural)]
pub struct IterationOutcome {
    /// The rolling window of recent quality scores is full and its spread
    /// (maximum minus minimum) is below the convergence threshold.
    pub window_stable: bool,
    /// The change of quality since the previous iteration is below the
    /// convergence threshold, in the configured convergence mode.
    pub below_threshold: bool,
    /// The absolute change of quality is below the plateau threshold.
    pub small_improvement: bool,
}

/// Iteration counters of convergence detection.
#[derive(Debug, Clone, Copy, PartialEq, Eq, Structural)]
pub struct ConvergenceCounters {
    /// Number of consecutive iterations below the convergence threshold.
    pub iterations_below_threshold: usize,
    /// Total iterations performed.
    pub total_iterations: usize,
    /// Number of nodes moved in the latest iteration.
    pub nodes_moved: usize,
    /// Consecutive iterations with zero node movement.
    pub consecutive_zero_movement: usize,
    /// Whether convergence was declared (by a stable window or explicitly).
    pub converged: bool,
}

/// The events that an iteration emits, in order: convergence when the window
/// is stable; a plateau (with the count of iterations below the threshold)
/// when the improvement is small and this is not the first iteration;
/// convergence when the change is below the threshold.
pub open spec fn iteration_events<Q>(
    total_iterations: usize,
    iterations_below_threshold: usize,
    quality: Q,
    outcome: IterationOutcome,
) -> Seq<StepEvent<Q>> {
    let detected = StepEvent::ConvergenceDetected { total_iterations, final_quality: quality };
    let first: Seq<StepEvent<Q>> = if outcome.window_stable {
        seq![detected]
    } else {
        Seq::empty()
    };
    let second = if outcome.small_improvement && total_iterations > 1 {
        first.push(StepEvent::ConvergencePlateau { iterations_below_threshold })
    } else {
        first
    };
    if outcome.below_threshold {
        second.push(detected)
    } else {
        second
    }
}

impl ConvergenceCounters {
    /// Counters before the first iteration: all zero, not converged.
    pub fn new() -> (c: Self)
        ensures
            c.iterations_below_threshold == 0,
            c.total_iterations == 0,
            c.nodes_moved == 0,
            c.consecutive_zero_movement == 0,
            !c.converged,
    {
        ConvergenceCounters {
            iterations_below_threshold: 0,
            total_iterations: 0,
            nodes_moved: 0,
            consecutive_zero_movement: 0,
            converged: false,
        }
    }

    /// Records one iteration of quality `quality` that moved `nodes_moved`
    /// nodes, and returns the events to emit.
    pub fn record<Q: Copy>(&mut self, quality: Q, nodes_moved: usize, outcome: IterationOutcome) -> (events: Vec<StepEvent<Q>>)
        requires
            old(self).total_iterations < usize::MAX,
            nodes_moved == 0 ==> old(self).consecutive_zero_movement < usize::MAX,
            outcome.below_threshold ==> old(self).iterations_below_threshold < usize::MAX,
        ensures
            *final(self) == after_iteration(*old(self), nodes_moved, outcome),
            final(self).converged == (old(self).converged || outcome.window_stable),
            old(self).converged ==> final(self).converged && final(self).reports_converged(),
            events@ == iteration_events(
                final(self).total_iterations,
                final(self).iterations_below_threshold,
                quality,
                outcome,
            ),
    {
        let mut events: Vec<StepEvent<Q>> = Vec::new();
        self.total_iterations = self.total_iterations + 1;
        self.nodes_moved = nodes_moved;
        if nodes_moved == 0 {
            self.consecutive_zero_movement = self.consecutive_zero_movement + 1;
        } else {
            self.consecutive_zero_movement = 0;
        }
        if outcome.window_stable {
            self.converged = true;
            events.push(
                StepEvent::ConvergenceDetected {
                    total_iterations: self.total_iterations,
                    final_quality: quality,
                },
            );
        }
        if outcome.below_threshold {
            self.iterations_below_threshold = self.iterations_below_threshold + 1;
        } else {
            self.iterations_below_threshold = 0;
        }
        if outcome.small_improvement && self.total_iterations > 1 {
            events.push(
                StepEvent::ConvergencePlateau {
                    iterations_below_threshold: self.iterations_below_threshold,
                },
            );
        }
        if outcome.below_threshold && self.iterations_below_threshold >= 1 {
            events.push(
                StepEvent::ConvergenceDetected {
                    total_iterations: self.total_iterations,
                    final_quality: quality,
                },
            );
        }
        events
    }

    /// Whether the algorithm has converged: convergence was declared, or the
    /// latest iteration was below the threshold, or moved no node.
    pub fn has_converged(&self) -> (r: bool)
        ensures
            r == self.reports_converged(),
    {
        self.converged || self.iterations_below_threshold >= 1 || self.consecutive_zero_movement >= 1
    }

    /// Declares convergence.
    pub fn set_converged(&mut self)
        ensures
            *final(self) == (ConvergenceCounters { converged: true, ..*old(self) }),
    {
        self.converged = true;
    }
}

impl Default for ConvergenceCounters {
    fn default() -> (c: Self)
        ensures
            c == ConvergenceCounters::new_spec(),
    {
        Self::new()
    }
}

/// The counters after recording one more iteration that moved `nodes_moved`
/// nodes: one more iteration; the run of zero-movement iterations and the run
/// of iterations below the threshold grow by one or restart at zero;
/// convergence is declared once the window is stable.
pub open spec fn after_iteration(
    c: ConvergenceCounters,
    nodes_moved: usize,
    outcome: IterationOutcome,
) -> ConvergenceCounters {
    ConvergenceCounters {
        iterations_below_threshold: if outcome.below_threshold {
            (c.iterations_below_threshold + 1) as usize
        } else {
            0
        },
        total_iterations: (c.total_iterations + 1) as usize,
        nodes_moved,
        consecutive_zero_movement: if nodes_moved == 0 {
            (c.consecutive_zero_movement + 1) as usize
        } else {
            0
        },
        converged: c.converged || outcome.window_stable,
    }
}

impl ConvergenceCounters {
    /// Convergence was declared, or the latest iteration was below the
    /// threshold, or moved no node.
    pub open spec fn reports_converged(self) -> bool {
        self.converged || self.iterations_below_threshold >= 1 || self.consecutive_zero_movement >= 1
    }

    /// Counters before the first iteration.
    pub open spec fn new_spec() -> Self {
        ConvergenceCounters {
            iterations_below_threshold: 0,
            total_iterations: 0,
            nodes_moved: 0,
            consecutive_zero_movement: 0,
            converged: false,
        }
    }
}

/// An iteration that moves no node, or whose quality changed by less than
/// the threshold, or that finds the quality window stable, leaves the
/// counters reporting convergence; when the change is below the threshold,
/// the iteration's last event announces convergence.
pub proof fn lemma_quiet_iteration_converges<Q>(
    counters: ConvergenceCounters,
    quality: Q,
    nodes_moved: usize,
    outcome: IterationOutcome,
)
    requires
        nodes_moved == 0 ==> counters.consecutive_zero_movement < usize::MAX,
        outcome.below_threshold ==> counters.iterations_below_threshold < usize::MAX,
        nodes_moved == 0 || outcome.below_threshold || outcome.window_stable,
    ensures
        after_iteration(counters, nodes_moved, outcome).reports_converged(),
        outcome.below_threshold ==> ({
            let next = after_iteration(counters, nodes_moved, outcome);
            iteration_events(
                next.total_iterations,
                next.iterations_below_threshold,
                quality,
                outcome,
            ).last() == StepEvent::ConvergenceDetected {
                total_iterations: next.total_iterations,
                final_quality: quality,
            }
        }),
{
}

/// Convergence, once declared, stays declared: recording any further
/// iteration, whatever its outcome and movement, leaves it set, so the
/// counters keep reporting convergence.
pub proof fn lemma_convergence_stays(
    counters: ConvergenceCounters,
    nodes_moved: usize,
    outcome: IterationOutcome,
)
    requires
        counters.converged,
    ensures
        after_iteration(counters, nodes_moved, outcome).converged,
        after_iteration(counters, nodes_moved, outcome).reports_converged(),
{
}

} // verus!
