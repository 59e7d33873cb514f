//! The multi-lane command-submission protocol.
//!
//! One frame's GPU work is fanned across `lanes` concurrent lanes.  Each lane
//! generates its own command buffers, submits them with a dedicated fence and
//! semaphore, then one barrier submission waits on every lane's semaphore,
//! and finally every lane's fence is waited on with a bounded timeout.
//!
//! `SubmissionCoordinator` is the decision core of that protocol: a state
//! machine that tells the embedding program which device action to perform
//! next and digests each action's outcome.  The driver loop — the part that
//! actually resets the pool, creates fences and semaphores, calls the
//! generator, submits to the queue and blocks on fences — performs one
//! [`SubmissionCoordinator::next_action`] at a time and reports back through
//! [`SubmissionCoordinator::note_result`].  Whatever the device answers, the
//! machine never finishes before every created lane's fence has received
//! exactly one wait, and it reports the first error encountered.
//!
//! The shared pool is reset before any lane's buffers are generated, so the
//! caller must not invoke a new call while a command buffer of a previous,
//! not-yet-waited call is still referenced: that conflict is a caller-level
//! resource-lifecycle hazard which no protocol step can detect.  Serialize
//! the calls, or give each its own pool.
use vstd::prelude::*;

verus! {

/// Submission-level errors, surfaced to the caller after every owed fence
/// wait was performed.
#[derive(Clone, Copy, PartialEq, Eq, Structural, Debug)]
pub enum SubmissionError {
    /// A lane's fence wait exceeded its bound.
    FenceTimeout,
    /// A device call failed; the raw device result code is carried along.
    DeviceOperationFailed(i32),
}

/// What the device answered to one requested action.
#[derive(Clone, Copy, PartialEq, Eq, Structural, Debug)]
pub enum DeviceOutcome {
    /// The call succeeded.
    Success,
    /// The call gave up after its timeout (fence waits only).
    Timeout,
    /// The call failed with the carried device result code.
    Error(i32),
}

/// One device action the driver loop is asked to perform.
#[derive(Clone, Copy, PartialEq, Eq, Structural, Debug)]
pub enum SubmitAction {
    /// Reset the shared command pool, before any lane's buffers are
    /// generated.
    ResetPool,
    /// Create the fence and semaphore of lane `lane`.
    CreateLaneSync { lane: usize },
    /// Run lane `lane`'s generator and submit its buffers (possibly none),
    /// signalling the lane's semaphore, tracked by the lane's fence.
    DispatchLane { lane: usize },
    /// Submit the empty barrier batch that waits on every lane's semaphore.
    SubmitBarrier,
    /// Wait on lane `lane`'s fence with the bounded timeout.
    WaitLaneFence { lane: usize },
}

/// Protocol phase.
#[derive(Clone, Copy, PartialEq, Eq, Structural, Debug)]
pub enum SubmitPhase {
    /// The shared pool reset is pending.
    Reset,
    /// Per-lane fences and semaphores are being created.
    Create,
    /// Lanes are being dispatched.
    Dispatch,
    /// The barrier submission is pending.
    Barrier,
    /// Created lanes' fences are being waited on.
    Wait,
    /// The call is over; the outcome is available.
    Done,
}

/// Mathematical image of the protocol state.
pub ghost struct ProtocolView {
    pub lanes: usize,
    pub phase: SubmitPhase,
    pub created: usize,
    pub dispatched: usize,
    pub waited: usize,
    pub barrier_submitted: bool,
    pub first_error: Option<SubmissionError>,
}

/// Well-formedness of a protocol state.
pub open spec fn wf_protocol(v: ProtocolView) -> bool {
    &&& v.created <= v.lanes
    &&& v.dispatched <= v.created
    &&& v.waited <= v.created
    &&& match v.phase {
        SubmitPhase::Reset => v.lanes > 0 && v.created == 0 && v.dispatched == 0 && v.waited == 0
            && v.first_error is None && !v.barrier_submitted,
        SubmitPhase::Create => v.created < v.lanes && v.dispatched == 0 && v.waited == 0
            && v.first_error is None && !v.barrier_submitted,
        SubmitPhase::Dispatch => v.created == v.lanes && v.dispatched < v.lanes && v.waited == 0
            && !v.barrier_submitted,
        SubmitPhase::Barrier => v.lanes > 0 && v.created == v.lanes && v.dispatched == v.lanes
            && v.waited == 0 && v.first_error is None && !v.barrier_submitted,
        SubmitPhase::Wait => v.waited < v.created && (v.first_error is None ==> (v.created
            == v.lanes && v.dispatched == v.lanes && v.barrier_submitted)),
        SubmitPhase::Done => v.waited == v.created && (v.first_error is None ==> (v.lanes == 0 || (
        v.created == v.lanes && v.dispatched == v.lanes && v.barrier_submitted))),
    }
}

/// The state a fresh call starts in: immediately done for zero lanes —
/// success with no device interaction — and otherwise waiting to reset the
/// shared pool.
pub open spec fn spec_init(lane_count: usize) -> ProtocolView {
    ProtocolView {
        lanes: lane_count,
        phase: if lane_count == 0 {
            SubmitPhase::Done
        } else {
            SubmitPhase::Reset
        },
        created: 0,
        dispatched: 0,
        waited: 0,
        barrier_submitted: false,
        first_error: None,
    }
}

/// The action pending in a state, if any.
pub open spec fn spec_next_action(v: ProtocolView) -> Option<SubmitAction> {
    match v.phase {
        SubmitPhase::Reset => Some(SubmitAction::ResetPool),
        SubmitPhase::Create => Some(SubmitAction::CreateLaneSync { lane: v.created }),
        SubmitPhase::Dispatch => Some(SubmitAction::DispatchLane { lane: v.dispatched }),
        SubmitPhase::Barrier => Some(SubmitAction::SubmitBarrier),
        SubmitPhase::Wait => Some(SubmitAction::WaitLaneFence { lane: v.waited }),
        SubmitPhase::Done => None,
    }
}

/// The error, if any, that an outcome carries.
pub open spec fn outcome_error(o: DeviceOutcome) -> Option<SubmissionError> {
    match o {
        DeviceOutcome::Success => None,
        DeviceOutcome::Timeout => Some(SubmissionError::FenceTimeout),
        DeviceOutcome::Error(c) => Some(SubmissionError::DeviceOperationFailed(c)),
    }
}

/// Error bookkeeping: the first error encountered is kept, later ones are
/// only observed, never reported.
pub open spec fn record_error(
    first: Option<SubmissionError>,
    o: DeviceOutcome,
) -> Option<SubmissionError> {
    if first is Some {
        first
    } else {
        outcome_error(o)
    }
}

/// The state after the pending action's outcome is digested.
///
/// A failure before any device work is in flight (pool reset, or fence and
/// semaphore creation) ends the call at once — except that lanes whose
/// synchronization objects already exist are still owed their fence wait.
/// A failure while dispatching is recorded and dispatching continues; the
/// barrier is skipped when any dispatch failed, so that no submission waits
/// on semaphores that will never signal.  Fence waits always run for every
/// created lane, whatever the earlier outcomes.
pub open spec fn spec_step(v: ProtocolView, o: DeviceOutcome) -> ProtocolView {
    match v.phase {
        SubmitPhase::Reset => match outcome_error(o) {
            None => ProtocolView { phase: SubmitPhase::Create, ..v },
            Some(e) => ProtocolView { phase: SubmitPhase::Done, first_error: Some(e), ..v },
        },
        SubmitPhase::Create => match outcome_error(o) {
            None => ProtocolView {
                phase: if v.created + 1 == v.lanes {
                    SubmitPhase::Dispatch
                } else {
                    SubmitPhase::Create
                },
                created: (v.created + 1) as usize,
                ..v
            },
            Some(e) => ProtocolView {
                phase: if v.created == 0 {
                    SubmitPhase::Done
                } else {
                    SubmitPhase::Wait
                },
                first_error: Some(e),
                ..v
            },
        },
        SubmitPhase::Dispatch => {
            let fe = record_error(v.first_error, o);
            ProtocolView {
                phase: if v.dispatched + 1 == v.lanes {
                    if fe is None {
                        SubmitPhase::Barrier
                    } else {
                        SubmitPhase::Wait
                    }
                } else {
                    SubmitPhase::Dispatch
                },
                dispatched: (v.dispatched + 1) as usize,
                first_error: fe,
                ..v
            }
        },
        SubmitPhase::Barrier => ProtocolView {
            phase: SubmitPhase::Wait,
            barrier_submitted: true,
            first_error: record_error(v.first_error, o),
            ..v
        },
        SubmitPhase::Wait => ProtocolView {
            phase: if v.waited + 1 == v.created {
                SubmitPhase::Done
            } else {
                SubmitPhase::Wait
            },
            waited: (v.waited + 1) as usize,
            first_error: record_error(v.first_error, o),
            ..v
        },
        SubmitPhase::Done => v,
    }
}

/// The coordinator of one `submit` call over a fixed number of lanes.
pub struct SubmissionCoordinator {
    lanes: usize,
    phase: SubmitPhase,
    created: usize,
    dispatched: usize,
    waited: usize,
    barrier_submitted: bool,
    first_error: Option<SubmissionError>,
}

impl View for SubmissionCoordinator {
    type V = ProtocolView;

    closed spec fn view(&self) -> ProtocolView {
        ProtocolView {
            lanes: self.lanes,
            phase: self.phase,
            created: self.created,
            dispatched: self.dispatched,
            waited: self.waited,
            barrier_submitted: self.barrier_submitted,
            first_error: self.first_error,
        }
    }
}

impl SubmissionCoordinator {
    /// Well-formedness of the coordinator.
    pub open spec fn wf(self) -> bool {
        wf_protocol(self@)
    }

    /// Start a `submit` call over `lane_count` lanes.  With zero lanes the
    /// call is already done, successfully, and no device action is ever
    /// requested.
    pub fn new(lane_count: usize) -> (r: SubmissionCoordinator)
        ensures
            r.wf(),
            r@ == spec_init(lane_count),
    {
        SubmissionCoordinator {
            lanes: lane_count,
            phase: if lane_count == 0 {
                SubmitPhase::Done
            } else {
                SubmitPhase::Reset
            },
            created: 0,
            dispatched: 0,
            waited: 0,
            barrier_submitted: false,
            first_error: None,
        }
    }

    /// The device action the driver loop must perform next, or `None` once
    /// the call is over.
    pub fn next_action(&self) -> (r: Option<SubmitAction>)
        ensures
            r == spec_next_action(self@),
    {
        match self.phase {
            SubmitPhase::Reset => Some(SubmitAction::ResetPool),
            SubmitPhase::Create => Some(SubmitAction::CreateLaneSync { lane: self.created }),
            SubmitPhase::Dispatch => Some(SubmitAction::DispatchLane { lane: self.dispatched }),
            SubmitPhase::Barrier => Some(SubmitAction::SubmitBarrier),
            SubmitPhase::Wait => Some(SubmitAction::WaitLaneFence { lane: self.waited }),
            SubmitPhase::Done => None,
        }
    }

    /// Digest the outcome of the action that `next_action` asked for.
    pub fn note_result(&mut self, o: DeviceOutcome)
        requires
            old(self).wf(),
            old(self)@.phase != SubmitPhase::Done,
        ensures
            final(self).wf(),
            final(self)@ == spec_step(old(self)@, o),
    {
        let err = match o {
            DeviceOutcome::Success => None,
            DeviceOutcome::Timeout => Some(SubmissionError::FenceTimeout),
            DeviceOutcome::Error(c) => Some(SubmissionError::DeviceOperationFailed(c)),
        };
        match self.phase {
            SubmitPhase::Reset => match err {
                None => {
                    self.phase = SubmitPhase::Create;
                },
                Some(e) => {
                    self.first_error = Some(e);
                    self.phase = SubmitPhase::Done;
                },
            },
            SubmitPhase::Create => match err {
                None => {
                    self.created = self.created + 1;
                    if self.created == self.lanes {
                        self.phase = SubmitPhase::Dispatch;
                    }
                },
                Some(e) => {
                    self.first_error = Some(e);
                    if self.created == 0 {
                        self.phase = SubmitPhase::Done;
                    } else {
                        self.phase = SubmitPhase::Wait;
                    }
                },
            },
            SubmitPhase::Dispatch => {
                if self.first_error.is_none() {
                    self.first_error = err;
                }
                self.dispatched = self.dispatched + 1;
                if self.dispatched == self.lanes {
                    if self.first_error.is_none() {
                        self.phase = SubmitPhase::Barrier;
                    } else {
                        self.phase = SubmitPhase::Wait;
                    }
                }
            },
            SubmitPhase::Barrier => {
                if self.first_error.is_none() {
                    self.first_error = err;
                }
                self.barrier_submitted = true;
                self.phase = SubmitPhase::Wait;
            },
            SubmitPhase::Wait => {
                if self.first_error.is_none() {
                    self.first_error = err;
                }
                self.waited = self.waited + 1;
                if self.waited == self.created {
                    self.phase = SubmitPhase::Done;
                }
            },
            SubmitPhase::Done => {
            },
        }
    }

    /// The call's result, once it is over: `Ok` when no device call failed
    /// and no fence wait timed out, else the first error encountered.
    pub fn outcome(&self) -> (r: Option<Result<(), SubmissionError>>)
        ensures
            r == (if self@.phase == SubmitPhase::Done {
                Some(
                    match self@.first_error {
                        None => Ok::<(), SubmissionError>(()),
                        Some(e) => Err::<(), SubmissionError>(e),
                    },
                )
            } else {
                None::<Result<(), SubmissionError>>
            }),
    {
        match self.phase {
            SubmitPhase::Done => match self.first_error {
                None => Some(Ok(())),
                Some(e) => Some(Err(e)),
            },
            _ => None,
        }
    }

    /// Number of lanes of this call.
    pub fn lane_count(&self) -> (r: usize)
        ensures
            r == self@.lanes,
    {
        self.lanes
    }

    /// Number of lanes whose fence and semaphore exist.
    pub fn lanes_created(&self) -> (r: usize)
        ensures
            r == self@.created,
    {
        self.created
    }

    /// Number of fence waits performed so far.
    pub fn lanes_waited(&self) -> (r: usize)
        ensures
            r == self@.waited,
    {
        self.waited
    }
}

/// Law: a submission over zero lanes is already done, successful, and asks
/// for no device action at all.
pub proof fn lemma_zero_lanes_trivial()
    ensures
        spec_init(0).phase == SubmitPhase::Done,
        spec_init(0).first_error is None,
        spec_next_action(spec_init(0)) is None,
{
}

/// Law: when the protocol has finished, every lane whose synchronization
/// objects were created received exactly one fence wait — an error on one
/// lane never skips the remaining waits — and a successful outcome means
/// every lane was created, dispatched and waited, with the barrier
/// submitted.
pub proof fn lemma_done_every_lane_waited(v: ProtocolView)
    requires
        wf_protocol(v),
        v.phase == SubmitPhase::Done,
    ensures
        v.waited == v.created,
        v.first_error is None ==> v.lanes == 0 || (v.created == v.lanes && v.dispatched == v.lanes
            && v.waited == v.lanes && v.barrier_submitted),
{
}

/// How far a phase still is from `Done`, between the counter steps.
pub open spec fn phase_weight(p: SubmitPhase) -> int {
    match p {
        SubmitPhase::Reset => 5,
        SubmitPhase::Create => 4,
        SubmitPhase::Dispatch => 3,
        SubmitPhase::Barrier => 2,
        SubmitPhase::Wait => 1,
        SubmitPhase::Done => 0,
    }
}

/// An upper bound on the outcomes the protocol still digests before it is
/// done.
pub open spec fn steps_remaining(v: ProtocolView) -> int {
    2 * (v.lanes - v.created) + 2 * (v.lanes - v.dispatched) + 2 * (v.lanes - v.waited)
        + phase_weight(v.phase)
}

/// Law: every digested outcome brings the protocol strictly closer to
/// `Done`, whatever the device answered — a driver loop that performs one
/// requested action at a time always terminates.
pub proof fn lemma_step_makes_progress(v: ProtocolView, o: DeviceOutcome)
    requires
        wf_protocol(v),
        v.phase != SubmitPhase::Done,
    ensures
        wf_protocol(spec_step(v, o)),
        0 <= steps_remaining(spec_step(v, o)) < steps_remaining(v),
{
}

/// Law: a recorded error is never overwritten — the reported outcome is the
/// first error encountered, in action order.
pub proof fn lemma_first_error_sticks(v: ProtocolView, o: DeviceOutcome)
    requires
        wf_protocol(v),
        v.first_error is Some,
    ensures
        spec_step(v, o).first_error == v.first_error,
{
}

} // verus!
