//! The session controller: the life cycle of one profiling session, from
//! the request to the compressed artifact or a failure.
//!
//! Sampling is exclusive to one session in the process. A session that
//! begins while another one is active is not queued: it fails at once as
//! busy. A session holds the sampler from the moment it starts sampling
//! until it ends, and lets go of it on every way out.

use crate::aggregate::{aggregate, aggregate_spec, lemma_aggregate_sound, nonempty_ticks};
use crate::compress::{compress, gunzip, gzip_outcome};
use crate::decode::decode_spec;
use crate::encode::{encode, encode_spec, profile_bytes};
use crate::error::ProfileError;
use crate::frame::{
    default_patterns, kept_frames, samples_view, FrameFilter, FrameModel, RawSample,
};
use crate::report::{empty_report, total_count};
use crate::sampler::{all_filtered, Sampler};
use vstd::prelude::*;

verus! {

/// The sampling window of a request that names none, in seconds.
pub const DEFAULT_SECONDS: u64 = 30;

/// The sampling frequency of every session, in ticks a second.
pub const SAMPLING_FREQUENCY_HZ: i32 = 1000;

/// Where a session stands.
#[derive(Debug, Clone, Copy, PartialEq, Eq, Structural)]
pub enum SessionState {
    Idle,
    Starting,
    Sampling,
    Building,
    Serializing,
    Compressing,
    Completed,
    Failed(ProfileError),
}

/// What moves a session on.
#[derive(Debug, Clone, Copy, PartialEq, Eq, Structural)]
pub enum SessionEvent {
    /// The session was created and its parameters were set.
    Created,
    /// The sampler started.
    SamplerStarted,
    /// The requested duration elapsed and the samples were handed over.
    DurationElapsed,
    /// The report was built.
    ReportBuilt,
    /// The report was encoded.
    ReportEncoded,
    /// The compressed stream was finished.
    StreamFinished,
    /// The stage at hand failed.
    StageFailed(ProfileError),
}

/// Whether a session in `state` has ended.
pub open spec fn is_terminal(state: SessionState) -> bool {
    state is Completed || state is Failed
}

/// Whether a session in `state` holds the process-wide sampler.
pub open spec fn holds_sampler(state: SessionState) -> bool {
    state is Sampling || state is Building || state is Serializing || state is Compressing
}

/// The state that `event` leads to from `state`, or `None` where the state
/// does not take the event. A session moves forward one stage at a time;
/// any stage that has not ended can fail; an ended session takes nothing.
pub open spec fn next_state(state: SessionState, event: SessionEvent) -> Option<SessionState> {
    match (state, event) {
        (SessionState::Idle, SessionEvent::Created) => Some(SessionState::Starting),
        (SessionState::Starting, SessionEvent::SamplerStarted) => Some(SessionState::Sampling),
        (SessionState::Sampling, SessionEvent::DurationElapsed) => Some(SessionState::Building),
        (SessionState::Building, SessionEvent::ReportBuilt) => Some(SessionState::Serializing),
        (SessionState::Serializing, SessionEvent::ReportEncoded) => Some(
            SessionState::Compressing,
        ),
        (SessionState::Compressing, SessionEvent::StreamFinished) => Some(
            SessionState::Completed,
        ),
        (SessionState::Completed, _) => None,
        (SessionState::Failed(_), _) => None,
        (_, SessionEvent::StageFailed(error)) => Some(SessionState::Failed(error)),
        _ => None,
    }
}

/// The state after a run of events, or `None` where one of them is not
/// taken.
pub open spec fn run(state: SessionState, events: Seq<SessionEvent>) -> Option<SessionState>
    decreases events.len(),
{
    if events.len() == 0 {
        Some(state)
    } else {
        match run(state, events.drop_last()) {
            Some(before) => next_state(before, events.last()),
            None => None,
        }
    }
}

/// Moves a session on by one event.
pub fn advance(state: SessionState, event: SessionEvent) -> (next: Option<SessionState>)
    ensures
        next == next_state(state, event),
{
    match (state, event) {
        (SessionState::Idle, SessionEvent::Created) => Some(SessionState::Starting),
        (SessionState::Starting, SessionEvent::SamplerStarted) => Some(SessionState::Sampling),
        (SessionState::Sampling, SessionEvent::DurationElapsed) => Some(SessionState::Building),
        (SessionState::Building, SessionEvent::ReportBuilt) => Some(SessionState::Serializing),
        (SessionState::Serializing, SessionEvent::ReportEncoded) => Some(
            SessionState::Compressing,
        ),
        (SessionState::Compressing, SessionEvent::StreamFinished) => Some(
            SessionState::Completed,
        ),
        (SessionState::Completed, _) => None,
        (SessionState::Failed(_), _) => None,
        (_, SessionEvent::StageFailed(error)) => Some(SessionState::Failed(error)),
        _ => None,
    }
}

/// An ended session takes no event.
pub proof fn lemma_terminal_states_absorb(state: SessionState, event: SessionEvent)
    requires
        is_terminal(state),
    ensures
        next_state(state, event) is None,
{
}

/// Every session that has not ended can fail, and the failure carries the
/// reason.
pub proof fn lemma_failure_reachable(state: SessionState, reason: ProfileError)
    requires
        !is_terminal(state),
    ensures
        next_state(state, SessionEvent::StageFailed(reason)) == Some(SessionState::Failed(reason)),
{
}

/// The sampler is taken when sampling starts, kept through every stage
/// that follows, and released when the session ends, however it ends.
pub proof fn lemma_sampler_released(state: SessionState, event: SessionEvent)
    ensures
        is_terminal(state) ==> !holds_sampler(state),
        next_state(state, event) matches Some(next) ==> (holds_sampler(next) ==> holds_sampler(
            state,
        ) || next is Sampling),
        next_state(state, event) matches Some(next) ==> (holds_sampler(state) ==> holds_sampler(
            next,
        ) || is_terminal(next)),
{
}

/// A session without failures runs through every stage in order.
pub proof fn lemma_success_path()
    ensures
        run(
            SessionState::Idle,
            seq![
                SessionEvent::Created,
                SessionEvent::SamplerStarted,
                SessionEvent::DurationElapsed,
                SessionEvent::ReportBuilt,
                SessionEvent::ReportEncoded,
                SessionEvent::StreamFinished,
            ],
        ) == Some(SessionState::Completed),
{
    let events = seq![
        SessionEvent::Created,
        SessionEvent::SamplerStarted,
        SessionEvent::DurationElapsed,
        SessionEvent::ReportBuilt,
        SessionEvent::ReportEncoded,
        SessionEvent::StreamFinished,
    ];
    assert(events.take(0) =~= Seq::empty());
    assert(run(SessionState::Idle, events.take(0)) == Some(SessionState::Idle));
    assert(events.take(1).drop_last() =~= events.take(0));
    assert(run(SessionState::Idle, events.take(1)) == Some(SessionState::Starting));
    assert(events.take(2).drop_last() =~= events.take(1));
    assert(run(SessionState::Idle, events.take(2)) == Some(SessionState::Sampling));
    assert(events.take(3).drop_last() =~= events.take(2));
    assert(run(SessionState::Idle, events.take(3)) == Some(SessionState::Building));
    assert(events.take(4).drop_last() =~= events.take(3));
    assert(run(SessionState::Idle, events.take(4)) == Some(SessionState::Serializing));
    assert(events.take(5).drop_last() =~= events.take(4));
    assert(run(SessionState::Idle, events.take(5)) == Some(SessionState::Compressing));
    assert(events.take(6).drop_last() =~= events.take(5));
    assert(events.take(6) =~= events);
}

/// The sampling window that a request asks for: the seconds it names, or
/// the default where it names none.
pub open spec fn requested_window(seconds: Option<u64>) -> u64 {
    match seconds {
        Some(named) => named,
        None => DEFAULT_SECONDS,
    }
}

/// The sampling window of a request.
pub fn requested_seconds(seconds: Option<u64>) -> (window: u64)
    ensures
        window == requested_window(seconds),
{
    match seconds {
        Some(named) => named,
        None => DEFAULT_SECONDS,
    }
}

/// A request that names no duration asks for what a request for thirty
/// seconds asks for.
pub proof fn lemma_default_window()
    ensures
        requested_window(None) == requested_window(Some(30u64)),
{
}

/// Whether `result` is the outcome of building, encoding and compressing
/// the report of `ticks`: the failure of the serializer where it has one;
/// otherwise the compressor's outcome on the encoded report, which is its
/// finished stream, from which decompressing and decoding recover the
/// report, or a compression failure where the compressor fails.
pub open spec fn artifact_of(
    patterns: Seq<Seq<char>>,
    ticks: Seq<Seq<FrameModel>>,
    result: Result<Vec<u8>, ProfileError>,
) -> bool {
    let report = aggregate_spec(patterns, ticks);
    match encode_spec(report) {
        Ok(encoded) => match result {
            Ok(stream) => gzip_outcome(encoded) == Some(stream@) && gunzip(stream@) == Some(
                encoded,
            ) && decode_spec(encoded) == Some(report),
            Err(error) => error == ProfileError::Compression && gzip_outcome(encoded) is None,
        },
        Err(reason) => result == Err::<Vec<u8>, ProfileError>(reason),
    }
}

/// Decompressing an artifact and decoding what comes out gives a report
/// whose counts sum to the number of ticks whose filtered stack holds a
/// frame.
pub proof fn lemma_artifact_counts_ticks(
    patterns: Seq<Seq<char>>,
    ticks: Seq<Seq<FrameModel>>,
    artifact: Vec<u8>,
)
    requires
        artifact_of(patterns, ticks, Ok(artifact)),
    ensures
        gunzip(artifact@) matches Some(bytes) && decode_spec(bytes) matches Some(report)
            && total_count(report.samples) == nonempty_ticks(patterns, ticks),
{
    lemma_aggregate_sound(patterns, ticks);
}

/// Where every tick holds a frame and none that the filter drops, every
/// tick counts.
pub proof fn lemma_filtered_ticks_count(patterns: Seq<Seq<char>>, ticks: Seq<Seq<FrameModel>>)
    requires
        all_filtered(patterns, ticks),
    ensures
        nonempty_ticks(patterns, ticks) == ticks.len(),
    decreases ticks.len(),
{
    if ticks.len() > 0 {
        assert forall|i: int| 0 <= i < ticks.drop_last().len() implies (
        #[trigger] ticks.drop_last()[i]).len() > 0 && kept_frames(patterns, ticks.drop_last()[i])
            == ticks.drop_last()[i] by {
            assert(ticks.drop_last()[i] == ticks[i]);
        }
        lemma_filtered_ticks_count(patterns, ticks.drop_last());
        assert(ticks.last() == ticks[ticks.len() - 1]);
    }
}

/// The state in which a session ends on `result`.
pub open spec fn final_state(result: Result<Vec<u8>, ProfileError>) -> SessionState {
    match result {
        Ok(_) => SessionState::Completed,
        Err(reason) => SessionState::Failed(reason),
    }
}

/// Runs the stages that follow sampling: builds the report of `samples`,
/// encodes it and compresses the bytes. Starts in state `Building` and
/// returns the state in which the session ends, with the artifact or the
/// failure of the stage that failed.
pub fn build_artifact(samples: &Vec<RawSample>, filter: &FrameFilter) -> (outcome: (
    SessionState,
    Result<Vec<u8>, ProfileError>,
))
    ensures
        artifact_of(filter@, samples_view(samples@), outcome.1),
        outcome.0 == final_state(outcome.1),
        !(outcome.1 matches Err(ProfileError::MalformedReport)),
{
    let state = SessionState::Building;
    let report = aggregate(samples, filter);
    let state = step(state, SessionEvent::ReportBuilt);
    match encode(&report) {
        Ok(encoded) => {
            let state = step(state, SessionEvent::ReportEncoded);
            match compress(&encoded) {
                Ok(stream) => (step(state, SessionEvent::StreamFinished), Ok(stream)),
                Err(reason) => (step(state, SessionEvent::StageFailed(reason)), Err(reason)),
            }
        },
        Err(reason) => (step(state, SessionEvent::StageFailed(reason)), Err(reason)),
    }
}

fn step(state: SessionState, event: SessionEvent) -> (next: SessionState)
    requires
        next_state(state, event) is Some,
    ensures
        next_state(state, event) == Some(next),
{
    match advance(state, event) {
        Some(next) => next,
        None => state,
    }
}

/// A run without ticks gives a report without samples, and that report
/// encodes: an empty session is no failure.
pub proof fn lemma_empty_session_encodes(patterns: Seq<Seq<char>>)
    ensures
        aggregate_spec(patterns, Seq::empty()) == empty_report(),
        total_count(empty_report().samples) == 0,
        encode_spec(empty_report()) == Ok::<Seq<u8>, ProfileError>(profile_bytes(empty_report())),
{
}

/// One profiling session.
///
/// A session that is sampling holds the sampler of the process, and with
/// it the right to be the only session that samples.
pub struct ProfileSession {
    id: u64,
    state: SessionState,
    requested_duration: u64,
    frequency_hz: i32,
    started_at: u64,
    sampler: Option<Sampler>,
}

/// How a session ended.
#[derive(Debug, PartialEq, Eq)]
pub struct SessionOutcome {
    /// The session that ended.
    pub id: u64,
    /// The state in which it ended: `Completed` or `Failed`.
    pub state: SessionState,
    /// The number of ticks that went into the report.
    pub ticks: usize,
    /// The compressed artifact, or the failure.
    pub artifact: Result<Vec<u8>, ProfileError>,
}

impl ProfileSession {
    #[verifier::type_invariant]
    spec fn sound(self) -> bool {
        &&& self.state is Sampling || self.state is Failed
        &&& self.state is Sampling <==> self.sampler is Some
        &&& self.state matches SessionState::Failed(reason) ==> reason
            == ProfileError::InvalidFrequency || reason == ProfileError::AlreadyRunning || reason
            == ProfileError::Capture
        &&& self.sampler matches Some(sampler) ==> sampler.is_running() && !sampler.is_collected()
    }

    /// The state of the session.
    pub closed spec fn state_view(self) -> SessionState {
        self.state
    }

    /// The identifier of the session.
    pub closed spec fn ident(self) -> u64 {
        self.id
    }

    /// The time at which the session started, as the caller gave it.
    pub closed spec fn start_time(self) -> u64 {
        self.started_at
    }

    /// The sampling window in seconds.
    pub closed spec fn window(self) -> u64 {
        self.requested_duration
    }

    /// The sampling frequency in ticks a second.
    pub closed spec fn frequency(self) -> i32 {
        self.frequency_hz
    }

    /// The patterns that the sampler filters with, while there is one.
    pub closed spec fn patterns(self) -> Seq<Seq<char>> {
        match self.sampler {
            Some(sampler) => sampler.patterns(),
            None => Seq::empty(),
        }
    }

    /// Starts a session for a request: sets the sampling window to the
    /// seconds that the request names, or to the default, and starts the
    /// sampler at the fixed frequency with the default blocklist.
    ///
    /// The session comes back sampling, or failed where the sampler did
    /// not start: as busy while another session holds the sampler.
    pub fn begin(id: u64, seconds: Option<u64>, started_at: u64) -> (session: ProfileSession)
        ensures
            session.ident() == id,
            session.start_time() == started_at,
            session.window() == requested_window(seconds),
            session.frequency() == SAMPLING_FREQUENCY_HZ,
            session.state_view() is Sampling || session.state_view() == SessionState::Failed(
                ProfileError::AlreadyRunning,
            ) || session.state_view() == SessionState::Failed(ProfileError::Capture),
            session.state_view() is Sampling ==> session.patterns() == default_patterns(),
    {
        ProfileSession::begin_with(
            id,
            seconds,
            started_at,
            SAMPLING_FREQUENCY_HZ,
            FrameFilter::default_blocklist(),
        )
    }

    /// Starts a session as `begin` does, at a frequency and with a
    /// blocklist of the caller's choice. A frequency of zero or less fails
    /// the session before any sampling.
    pub fn begin_with(
        id: u64,
        seconds: Option<u64>,
        started_at: u64,
        frequency_hz: i32,
        blocklist: FrameFilter,
    ) -> (session: ProfileSession)
        ensures
            session.ident() == id,
            session.start_time() == started_at,
            session.window() == requested_window(seconds),
            session.frequency() == frequency_hz,
            frequency_hz <= 0 <==> session.state_view() == SessionState::Failed(
                ProfileError::InvalidFrequency,
            ),
            session.state_view() is Sampling || session.state_view() == SessionState::Failed(
                ProfileError::InvalidFrequency,
            ) || session.state_view() == SessionState::Failed(ProfileError::AlreadyRunning)
                || session.state_view() == SessionState::Failed(ProfileError::Capture),
            session.state_view() is Sampling ==> session.patterns() == blocklist@,
    {
        let state = step(SessionState::Idle, SessionEvent::Created);
        let requested_duration = requested_seconds(seconds);
        match Sampler::start(frequency_hz, blocklist) {
            Ok(sampler) => ProfileSession {
                id,
                state: step(state, SessionEvent::SamplerStarted),
                requested_duration,
                frequency_hz,
                started_at,
                sampler: Some(sampler),
            },
            Err(reason) => ProfileSession {
                id,
                state: step(state, SessionEvent::StageFailed(reason)),
                requested_duration,
                frequency_hz,
                started_at,
                sampler: None,
            },
        }
    }

    /// The identifier of the session.
    pub fn id(&self) -> (id: u64)
        ensures
            id == self.ident(),
    {
        self.id
    }

    /// The state of the session.
    pub fn state(&self) -> (state: SessionState)
        ensures
            state == self.state_view(),
            state is Sampling || state is Failed,
    {
        proof {
            use_type_invariant(self);
        }
        self.state
    }

    /// The number of seconds to wait between `begin` and `finish`.
    pub fn requested_duration(&self) -> (seconds: u64)
        ensures
            seconds == self.window(),
    {
        self.requested_duration
    }

    /// The sampling frequency in ticks a second.
    pub fn frequency_hz(&self) -> (frequency: i32)
        ensures
            frequency == self.frequency(),
    {
        self.frequency_hz
    }

    /// The time at which the session started, as the caller gave it.
    pub fn started_at(&self) -> (time: u64)
        ensures
            time == self.start_time(),
    {
        self.started_at
    }

    /// Ends the session: collects the samples, builds, encodes and
    /// compresses the report, and releases the sampler whatever happens.
    ///
    /// A session that failed at the start ends with that failure. For a
    /// window of zero seconds nothing is read out of the sampler: the
    /// session ends with the artifact of the empty report.
    pub fn finish(self) -> (outcome: SessionOutcome)
        ensures
            outcome.id == self.ident(),
            outcome.state == final_state(outcome.artifact),
            is_terminal(outcome.state),
            self.state_view() matches SessionState::Failed(reason) ==> outcome.artifact == Err::<
                Vec<u8>,
                ProfileError,
            >(reason) && outcome.ticks == 0,
            self.state_view() is Sampling ==> outcome.artifact == Err::<Vec<u8>, ProfileError>(
                ProfileError::Capture,
            ) && outcome.ticks == 0 || exists|ticks: Seq<Seq<FrameModel>>|
                ticks.len() == outcome.ticks && all_filtered(self.patterns(), ticks)
                    && nonempty_ticks(self.patterns(), ticks) == outcome.ticks && artifact_of(
                    self.patterns(),
                    ticks,
                    outcome.artifact,
                ),
            self.state_view() is Sampling && self.window() == 0 ==> outcome.ticks == 0
                && artifact_of(self.patterns(), Seq::empty(), outcome.artifact),
            !(outcome.artifact matches Err(ProfileError::MalformedReport)),
    {
        proof {
            use_type_invariant(&self);
        }
        let ProfileSession { id, state, requested_duration, frequency_hz, started_at, sampler } =
            self;
        match sampler {
            Some(mut sampler) => {
                // A window of zero seconds has no ticks: nothing is read out.
                let collected = if requested_duration == 0 {
                    Ok(Vec::new())
                } else {
                    sampler.collect()
                };
                match collected {
                    Ok(samples) => {
                        let state = step(state, SessionEvent::DurationElapsed);
                        proof {
                            if requested_duration == 0 {
                                assert(samples_view(samples@) =~= Seq::empty());
                            }
                            lemma_filtered_ticks_count(sampler.patterns(), samples_view(samples@));
                        }
                        let (state, artifact) = build_artifact(&samples, sampler.filter());
                        sampler.release();
                        SessionOutcome { id, state, ticks: samples.len(), artifact }
                    },
                    Err(reason) => {
                        let state = step(state, SessionEvent::StageFailed(reason));
                        sampler.release();
                        SessionOutcome { id, state, ticks: 0, artifact: Err(reason) }
                    },
                }
            },
            None => {
                match state {
                    SessionState::Failed(reason) => SessionOutcome {
                        id,
                        state,
                        ticks: 0,
                        artifact: Err(reason),
                    },
                    _ => SessionOutcome {
                        id,
                        state: SessionState::Failed(ProfileError::Capture),
                        ticks: 0,
                        artifact: Err(ProfileError::Capture),
                    },
                }
            },
        }
    }
}

} // verus!
