//! The scan scheduler: which window to read next, which job to hand out,
//! and when to wait for a worker.
//!
//! The scheduler itself performs no reads and starts no workers. It is told
//! what happened (an [`Event`]) and answers with what to do next (an
//! [`Action`]); whoever drives it does the reading, the spawning and the
//! waiting.
//!
//! Signatures are looked for where they start: in the first bytes of each
//! sector, as many as the configured window holds. Each read asks for the
//! window and for the bytes behind it that the longest signature needs, so
//! that a signature that starts in the window is seen whole even where it
//! runs past the window or past the sector.

use vstd::prelude::*;
use crate::carve::CarveJob;
use crate::config::{ConfigError, ScanConfig};
use crate::sector::{align_to_sector, is_sector_aligned, next_sector, sector_floor};
use crate::signature::{find_signatures, longest, matches_in, SignatureMatch, SignatureSet};

verus! {

/// What the scheduler is waiting to be told.
#[derive(Clone, Copy, Debug, PartialEq, Eq, Structural)]
pub enum Phase {
    /// Nothing has happened yet; the scan waits to be started.
    Created,
    /// A window was asked for; the scheduler waits for its bytes.
    Reading,
    /// A job was handed out; the scheduler waits to hear that its worker
    /// runs.
    Spawning,
    /// The scheduler waits for one worker to finish, either because no more
    /// may run at once or because the image has been read to its end.
    Waiting,
    /// The image has been read to its end and no worker is left.
    Finished,
}

/// What happened since the last action.
#[derive(Debug)]
pub enum Event {
    /// The scan begins.
    Start,
    /// The bytes that the last read returned; none at the end of the image.
    Window(Vec<u8>),
    /// The last read failed; the image cannot be read any further.
    ReadFailed,
    /// The worker for the last job handed out has been started.
    Spawned,
    /// One worker has finished.
    WorkerFinished,
}

/// What to do next.
#[derive(Clone, Copy, Debug, PartialEq, Eq, Structural)]
pub enum Action {
    /// Read up to `len` bytes of the image at `position` and report them.
    Read { position: u64, len: usize },
    /// Start a worker for this job and report that it runs.
    Dispatch(CarveJob),
    /// Block until one worker has finished and report that.
    Wait,
    /// The scan is over.
    Finish,
}

/// Why an event was refused.
#[derive(Clone, Copy, Debug, PartialEq, Eq, Structural)]
pub enum ProtocolError {
    /// The event is not the one that the last action asked for.
    UnexpectedEvent,
    /// The window holds more bytes than the read asked for.
    WindowTooLong,
}

/// How many bytes one read asks for: the window, and behind it one byte
/// less than the longest signature holds, as far as a length can count.
pub open spec fn read_len(window_len: nat, signatures: Seq<Seq<u8>>) -> nat {
    let ahead = if longest(signatures) > 0 {
        (longest(signatures) - 1) as nat
    } else {
        0
    };
    if window_len + ahead <= usize::MAX {
        window_len + ahead
    } else {
        usize::MAX as nat
    }
}

/// Those of `matches` that start within the first `limit` bytes.
pub open spec fn starting_before(matches: Seq<SignatureMatch>, limit: nat) -> Seq<SignatureMatch> {
    matches.filter(|found: SignatureMatch| found.offset < limit)
}

/// The absolute image offsets of the matches found in the window read at
/// `position`.
pub open spec fn job_offsets(matches: Seq<SignatureMatch>, position: int) -> Seq<int> {
    Seq::new(matches.len(), |i: int| position + matches[i].offset)
}

/// The offsets of the jobs that the bytes `window`, read at `position`,
/// give rise to: one for each signature whose leftmost occurrence starts
/// within the first `window_len` bytes.
pub open spec fn jobs_in(
    window: Seq<u8>,
    signatures: Seq<Seq<u8>>,
    window_len: nat,
    position: int,
) -> Seq<int> {
    job_offsets(starting_before(matches_in(window, signatures), window_len), position)
}

/// The scheduler as a mathematical value.
pub struct SchedulerState {
    pub signatures: Seq<Seq<u8>>,
    pub max_workers: nat,
    pub window_len: nat,
    pub max_carve_len: nat,
    /// Sector boundary of the next window.
    pub position: int,
    /// Offsets found but not yet handed out, oldest first.
    pub queue: Seq<int>,
    /// Workers that were handed a job and have not been reported finished.
    pub in_flight: nat,
    pub end_of_stream: bool,
    pub phase: Phase,
}

impl SchedulerState {
    /// What holds of every state that a scan can reach.
    pub open spec fn wf(self) -> bool {
        &&& 1 <= self.max_workers <= usize::MAX
        &&& 1 <= self.window_len <= 512
        &&& self.max_carve_len <= usize::MAX
        &&& 0 <= self.position <= u64::MAX
        &&& is_sector_aligned(self.position)
        &&& self.in_flight <= self.max_workers
        &&& forall|i: int| 0 <= i < self.queue.len() ==> 0 <= #[trigger] self.queue[i] <= u64::MAX
        &&& match self.phase {
            Phase::Created => self.in_flight == 0 && self.queue.len() == 0 && !self.end_of_stream,
            Phase::Reading => self.queue.len() == 0 && !self.end_of_stream,
            Phase::Spawning => self.in_flight >= 1,
            Phase::Waiting => self.in_flight >= 1 && (self.queue.len() > 0 ==> self.in_flight
                == self.max_workers) && (self.queue.len() == 0 ==> self.end_of_stream),
            Phase::Finished => self.in_flight == 0 && self.queue.len() == 0 && self.end_of_stream,
        }
    }

    /// The state before the scan is started.
    pub open spec fn initial(config: ScanConfig, signatures: Seq<Seq<u8>>) -> SchedulerState {
        SchedulerState {
            signatures,
            max_workers: config.max_workers as nat,
            window_len: config.window_len as nat,
            max_carve_len: config.max_carve_len as nat,
            position: sector_floor(config.start_offset as int),
            queue: Seq::empty(),
            in_flight: 0,
            end_of_stream: false,
            phase: Phase::Created,
        }
    }

    /// How many bytes each read of this scan asks for.
    pub open spec fn read_len(self) -> nat {
        read_len(self.window_len, self.signatures)
    }

    /// Why `event` is refused in this state, if it is.
    pub open spec fn rejection(self, event: Event) -> Option<ProtocolError> {
        match event {
            Event::Start => if self.phase == Phase::Created {
                None
            } else {
                Some(ProtocolError::UnexpectedEvent)
            },
            Event::Window(window) => if self.phase != Phase::Reading {
                Some(ProtocolError::UnexpectedEvent)
            } else if window@.len() > self.read_len() {
                Some(ProtocolError::WindowTooLong)
            } else {
                None
            },
            Event::ReadFailed => if self.phase == Phase::Reading {
                None
            } else {
                Some(ProtocolError::UnexpectedEvent)
            },
            Event::Spawned => if self.phase == Phase::Spawning {
                None
            } else {
                Some(ProtocolError::UnexpectedEvent)
            },
            Event::WorkerFinished => if self.phase == Phase::Waiting {
                None
            } else {
                Some(ProtocolError::UnexpectedEvent)
            },
        }
    }

    /// The state after `window` was read at the current position: the jobs
    /// that it gives rise to are queued and the position moves to the next
    /// sector. An empty window, or a next sector beyond what 64 bits
    /// address, ends the stream.
    pub open spec fn after_window(self, window: Seq<u8>) -> SchedulerState {
        if window.len() == 0 {
            SchedulerState { end_of_stream: true, ..self }
        } else {
            let queue = self.queue + jobs_in(
                window,
                self.signatures,
                self.window_len,
                self.position,
            );
            if self.position + 512 <= u64::MAX {
                SchedulerState { queue, position: self.position + 512, ..self }
            } else {
                SchedulerState { queue, end_of_stream: true, ..self }
            }
        }
    }

    /// The state after `event` was taken in, before the next action is
    /// chosen.
    pub open spec fn absorb(self, event: Event) -> SchedulerState {
        match event {
            Event::Start => self,
            Event::Window(window) => self.after_window(window@),
            Event::ReadFailed => SchedulerState { end_of_stream: true, ..self },
            Event::Spawned => self,
            Event::WorkerFinished => SchedulerState {
                in_flight: (self.in_flight - 1) as nat,
                ..self
            },
        }
    }

    /// The next action and the state in which its answer is awaited. Queued
    /// jobs go first, each as soon as fewer workers run than may; then the
    /// next window; at the end of the stream the remaining workers are
    /// waited for one by one.
    pub open spec fn decide(self) -> (SchedulerState, Action) {
        if self.queue.len() > 0 {
            if self.in_flight < self.max_workers {
                (
                    SchedulerState {
                        queue: self.queue.drop_first(),
                        in_flight: self.in_flight + 1,
                        phase: Phase::Spawning,
                        ..self
                    },
                    Action::Dispatch(
                        CarveJob {
                            offset: self.queue[0] as u64,
                            max_len: self.max_carve_len as usize,
                        },
                    ),
                )
            } else {
                (SchedulerState { phase: Phase::Waiting, ..self }, Action::Wait)
            }
        } else if !self.end_of_stream {
            (
                SchedulerState { phase: Phase::Reading, ..self },
                Action::Read { position: self.position as u64, len: self.read_len() as usize },
            )
        } else if self.in_flight > 0 {
            (SchedulerState { phase: Phase::Waiting, ..self }, Action::Wait)
        } else {
            (SchedulerState { phase: Phase::Finished, ..self }, Action::Finish)
        }
    }

    /// One step of the scan: take `event` in, then choose the next action.
    pub open spec fn step(self, event: Event) -> (SchedulerState, Action) {
        self.absorb(event).decide()
    }
}

/// Whether each of `events`, in turn, is one that the scheduler accepts in
/// the state that the events before it lead to from `state`.
pub open spec fn accepted_run(state: SchedulerState, events: Seq<Event>) -> bool
    decreases events.len(),
{
    events.len() > 0 ==> {
        &&& accepted_run(state, events.drop_last())
        &&& state_after(state, events.drop_last()).rejection(events.last()) is None
    }
}

/// The state that `events` lead to from `state`.
pub open spec fn state_after(state: SchedulerState, events: Seq<Event>) -> SchedulerState
    decreases events.len(),
{
    if events.len() == 0 {
        state
    } else {
        state_after(state, events.drop_last()).step(events.last()).0
    }
}

/// Keeping the matches that start before `limit` treats a match added at
/// the end on its own.
pub proof fn lemma_starting_before_push(
    matches: Seq<SignatureMatch>,
    found: SignatureMatch,
    limit: nat,
)
    ensures
        starting_before(matches.push(found), limit) == if found.offset < limit {
            starting_before(matches, limit).push(found)
        } else {
            starting_before(matches, limit)
        },
{
    reveal(Seq::filter);
    assert(matches.push(found).drop_last() =~= matches);
}

/// Every job that a window of at least one byte gives rise to lies less
/// than `window_len` bytes behind the position of the window.
pub proof fn lemma_jobs_in_window(
    window: Seq<u8>,
    signatures: Seq<Seq<u8>>,
    window_len: nat,
    position: int,
)
    ensures
        forall|i: int|
            0 <= i < jobs_in(window, signatures, window_len, position).len() ==> position
                <= #[trigger] jobs_in(window, signatures, window_len, position)[i] < position
                + window_len,
{
    let all = matches_in(window, signatures);
    let keep = |found: SignatureMatch| found.offset < window_len;
    let kept = starting_before(all, window_len);
    assert forall|i: int| 0 <= i < kept.len() implies (#[trigger] kept[i]).offset
        < window_len by {
        all.lemma_filter_pred(keep, i);
    }
}

/// A step from a well-formed state on an accepted event leads to a
/// well-formed state, and leaves the parameters of the scan as they were.
pub proof fn lemma_step_keeps_wf(state: SchedulerState, event: Event)
    requires
        state.wf(),
        state.rejection(event) is None,
    ensures
        state.step(event).0.wf(),
        state.step(event).0.signatures == state.signatures,
        state.step(event).0.max_workers == state.max_workers,
        state.step(event).0.window_len == state.window_len,
        state.step(event).0.max_carve_len == state.max_carve_len,
{
    match event {
        Event::Window(window) => {
            lemma_jobs_in_window(window@, state.signatures, state.window_len, state.position);
        },
        _ => {},
    }
}

/// The number of workers in flight rises only when a job is handed out,
/// then by one, and a job is handed out only while fewer workers are in
/// flight than may run at once.
pub proof fn lemma_dispatch_respects_bound(state: SchedulerState, event: Event)
    requires
        state.wf(),
        state.rejection(event) is None,
    ensures
        ({
            let (next, action) = state.step(event);
            let before = state.absorb(event).in_flight;
            &&& before <= state.in_flight
            &&& next.in_flight <= next.max_workers
            &&& action is Dispatch ==> before < state.max_workers && next.in_flight == before + 1
            &&& !(action is Dispatch) ==> next.in_flight == before
        }),
{
    lemma_step_keeps_wf(state, event);
}

/// No job is dropped and none is made up: the offsets that a window gives
/// rise to join the queue behind those already there, a job handed out is
/// the oldest in the queue, and nothing else changes the queue.
pub proof fn lemma_queue_is_kept(state: SchedulerState, event: Event)
    requires
        state.wf(),
        state.rejection(event) is None,
    ensures
        ({
            let (next, action) = state.step(event);
            let found = match event {
                Event::Window(window) => if window@.len() > 0 {
                    jobs_in(window@, state.signatures, state.window_len, state.position)
                } else {
                    Seq::empty()
                },
                _ => Seq::empty(),
            };
            let handed = match action {
                Action::Dispatch(job) => seq![job.offset as int],
                _ => Seq::empty(),
            };
            handed + next.queue == state.queue + found
        }),
{
    let (next, action) = state.step(event);
    let absorbed = state.absorb(event);
    let none = Seq::<int>::empty();
    match event {
        Event::Window(window) => {
            lemma_jobs_in_window(window@, state.signatures, state.window_len, state.position);
            if window@.len() == 0 {
                assert(absorbed.queue =~= state.queue + none);
            }
        },
        _ => {
            assert(absorbed.queue =~= state.queue + none);
        },
    }
    match action {
        Action::Dispatch(job) => {
            assert(seq![job.offset as int] + next.queue =~= absorbed.queue);
        },
        _ => {
            assert(none + next.queue =~= absorbed.queue);
        },
    }
}

/// However a scan with a valid configuration goes, never more workers are
/// in flight than the configuration allows.
pub proof fn lemma_workers_never_exceed_bound(
    config: ScanConfig,
    signatures: Seq<Seq<u8>>,
    events: Seq<Event>,
)
    requires
        config.valid(),
        accepted_run(SchedulerState::initial(config, signatures), events),
    ensures
        state_after(SchedulerState::initial(config, signatures), events).wf(),
        state_after(SchedulerState::initial(config, signatures), events).max_workers
            == config.max_workers,
        state_after(SchedulerState::initial(config, signatures), events).in_flight
            <= config.max_workers,
    decreases events.len(),
{
    let start = SchedulerState::initial(config, signatures);
    if events.len() > 0 {
        lemma_workers_never_exceed_bound(config, signatures, events.drop_last());
        lemma_step_keeps_wf(state_after(start, events.drop_last()), events.last());
    }
}

/// The scan scheduler.
pub struct Scheduler<'a> {
    signatures: &'a SignatureSet,
    max_workers: usize,
    window_len: usize,
    read_len: usize,
    max_carve_len: usize,
    position: u64,
    pending: Vec<u64>,
    handed_out: usize,
    in_flight: usize,
    end_of_stream: bool,
    phase: Phase,
}

impl<'a> Scheduler<'a> {
    /// The scheduler as a mathematical value.
    pub closed spec fn view(&self) -> SchedulerState {
        SchedulerState {
            signatures: self.signatures@,
            max_workers: self.max_workers as nat,
            window_len: self.window_len as nat,
            max_carve_len: self.max_carve_len as nat,
            position: self.position as int,
            queue: Seq::new(
                (self.pending@.len() - self.handed_out) as nat,
                |i: int| self.pending@[self.handed_out + i] as int,
            ),
            in_flight: self.in_flight as nat,
            end_of_stream: self.end_of_stream,
            phase: self.phase,
        }
    }

    /// Whether the scheduler is in a state that a scan can reach.
    pub closed spec fn wf(&self) -> bool {
        &&& self.handed_out <= self.pending@.len()
        &&& self.read_len == self@.read_len()
        &&& self@.wf()
    }

    /// A scheduler for a scan for `signatures` with `config`, not yet
    /// started.
    pub fn new(config: &ScanConfig, signatures: &'a SignatureSet) -> (made: Result<
        Scheduler<'a>,
        ConfigError,
    >)
        ensures
            made is Ok <==> config.valid(),
            made matches Ok(scheduler) ==> {
                &&& scheduler.wf()
                &&& scheduler@.wf()
                &&& scheduler@ == SchedulerState::initial(*config, signatures@)
            },
            made matches Err(error) ==> error == if config.max_workers == 0 {
                ConfigError::NoWorkers
            } else {
                ConfigError::WindowLength
            },
    {
        match config.validate() {
            Ok(()) => {
                let longest_len = signatures.longest_len();
                let ahead = if longest_len > 0 {
                    longest_len - 1
                } else {
                    0
                };
                let read_len = if ahead <= usize::MAX - config.window_len {
                    config.window_len + ahead
                } else {
                    usize::MAX
                };
                let scheduler = Scheduler {
                    signatures,
                    max_workers: config.max_workers,
                    window_len: config.window_len,
                    read_len,
                    max_carve_len: config.max_carve_len,
                    position: align_to_sector(config.start_offset),
                    pending: Vec::new(),
                    handed_out: 0,
                    in_flight: 0,
                    end_of_stream: false,
                    phase: Phase::Created,
                };
                assert(scheduler@.queue =~= Seq::<int>::empty());
                Ok(scheduler)
            },
            Err(error) => Err(error),
        }
    }

    /// How many workers hold a job and have not been reported finished.
    pub fn in_flight(&self) -> (count: usize)
        ensures
            count == self@.in_flight,
    {
        self.in_flight
    }

    /// What the scheduler is waiting to be told.
    pub fn phase(&self) -> (phase: Phase)
        ensures
            phase == self@.phase,
    {
        self.phase
    }

    /// Takes `event` in and says what to do next. An event that the last
    /// action did not ask for is refused and changes nothing.
    pub fn step(&mut self, event: Event) -> (outcome: Result<Action, ProtocolError>)
        requires
            old(self).wf(),
        ensures
            final(self).wf(),
            final(self)@.wf(),
            match outcome {
                Ok(action) => {
                    &&& old(self)@.rejection(event) is None
                    &&& (final(self)@, action) == old(self)@.step(event)
                },
                Err(error) => {
                    &&& old(self)@.rejection(event) == Some(error)
                    &&& final(self)@ == old(self)@
                },
            },
    {
        match event {
            Event::Start => {
                if self.phase != Phase::Created {
                    return Err(ProtocolError::UnexpectedEvent);
                }
            },
            Event::Window(window) => {
                if self.phase != Phase::Reading {
                    return Err(ProtocolError::UnexpectedEvent);
                }
                if window.len() > self.read_len {
                    return Err(ProtocolError::WindowTooLong);
                }
                if window.len() == 0 {
                    self.end_of_stream = true;
                } else {
                    let found = find_signatures(window.as_slice(), self.signatures);
                    let ghost limit = self.window_len as nat;
                    let mut offsets: Vec<u64> = Vec::new();
                    let mut i: usize = 0;
                    while i < found.len()
                        invariant
                            i <= found.len(),
                            limit == self.window_len,
                            self.window_len <= 512,
                            self.position as int + 512 <= u64::MAX + 1,
                            offsets@.len() == starting_before(found@.take(i as int), limit).len(),
                            forall|k: int|
                                0 <= k < offsets@.len() ==> #[trigger] offsets@[k]
                                    == self.position + starting_before(
                                    found@.take(i as int),
                                    limit,
                                )[k].offset,
                        decreases found.len() - i,
                    {
                        proof {
                            assert(found@.take(i + 1) =~= found@.take(i as int).push(
                                found@[i as int],
                            ));
                            lemma_starting_before_push(
                                found@.take(i as int),
                                found@[i as int],
                                limit,
                            );
                        }
                        if found[i].offset < self.window_len {
                            offsets.push(self.position + found[i].offset as u64);
                        }
                        i += 1;
                    }
                    assert(found@.take(i as int) =~= found@);
                    let ghost before = self@;
                    self.pending = offsets;
                    self.handed_out = 0;
                    match next_sector(self.position) {
                        Some(next) => {
                            self.position = next;
                        },
                        None => {
                            self.end_of_stream = true;
                        },
                    }
                    assert(self@.queue =~= before.queue + jobs_in(
                        window@,
                        before.signatures,
                        before.window_len,
                        before.position,
                    ));
                }
            },
            Event::ReadFailed => {
                if self.phase != Phase::Reading {
                    return Err(ProtocolError::UnexpectedEvent);
                }
                self.end_of_stream = true;
            },
            Event::Spawned => {
                if self.phase != Phase::Spawning {
                    return Err(ProtocolError::UnexpectedEvent);
                }
            },
            Event::WorkerFinished => {
                if self.phase != Phase::Waiting {
                    return Err(ProtocolError::UnexpectedEvent);
                }
                self.in_flight = self.in_flight - 1;
            },
        }
        assert(self@ == old(self)@.absorb(event));
        let ghost absorbed = self@;
        if self.handed_out < self.pending.len() {
            if self.in_flight < self.max_workers {
                let offset = self.pending[self.handed_out];
                self.handed_out = self.handed_out + 1;
                self.in_flight = self.in_flight + 1;
                self.phase = Phase::Spawning;
                assert(self@.queue =~= absorbed.queue.drop_first());
                Ok(Action::Dispatch(CarveJob { offset, max_len: self.max_carve_len }))
            } else {
                self.phase = Phase::Waiting;
                Ok(Action::Wait)
            }
        } else if !self.end_of_stream {
            self.phase = Phase::Reading;
            Ok(Action::Read { position: self.position, len: self.read_len })
        } else if self.in_flight > 0 {
            self.phase = Phase::Waiting;
            Ok(Action::Wait)
        } else {
            self.phase = Phase::Finished;
            Ok(Action::Finish)
        }
    }
}

} // verus!
