use flate2::read::GzDecoder;
use pprof::protos::{Message, Profile};
use profile_pipeline::compress::decompress;
use profile_pipeline::error::ProfileError;
use profile_pipeline::frame::{FrameFilter, RawSample, StackFrame};
use profile_pipeline::session::{
    advance, build_artifact, requested_seconds, ProfileSession, SessionEvent, SessionState,
    DEFAULT_SECONDS, SAMPLING_FREQUENCY_HZ,
};
use std::io::Read;

fn burn(milliseconds: u64) -> u64 {
    let start = std::time::Instant::now();
    let mut x: u64 = 1;
    while start.elapsed() < std::time::Duration::from_millis(milliseconds) {
        for _ in 0..10_000 {
            x = x.wrapping_mul(6364136223846793005).wrapping_add(1442695040888963407);
        }
    }
    x
}

fn decoded(artifact: &[u8]) -> Profile {
    let mut bytes = Vec::new();
    GzDecoder::new(artifact).read_to_end(&mut bytes).unwrap();
    Profile::parse_from_bytes(&bytes).unwrap()
}

#[test]
fn omitted_seconds_mean_thirty() {
    assert_eq!(DEFAULT_SECONDS, 30);
    assert_eq!(requested_seconds(None), 30);
    assert_eq!(requested_seconds(None), requested_seconds(Some(30)));
    assert_eq!(requested_seconds(Some(0)), 0);
    assert_eq!(requested_seconds(Some(7)), 7);
    assert_eq!(requested_seconds(Some(u64::MAX)), u64::MAX);
}

#[test]
fn the_frequency_is_a_thousand_hertz() {
    assert_eq!(SAMPLING_FREQUENCY_HZ, 1000);
}

#[test]
fn a_session_runs_through_its_stages() {
    let events = [
        (SessionEvent::Created, SessionState::Starting),
        (SessionEvent::SamplerStarted, SessionState::Sampling),
        (SessionEvent::DurationElapsed, SessionState::Building),
        (SessionEvent::ReportBuilt, SessionState::Serializing),
        (SessionEvent::ReportEncoded, SessionState::Compressing),
        (SessionEvent::StreamFinished, SessionState::Completed),
    ];
    let mut state = SessionState::Idle;
    for (event, expected) in events {
        state = advance(state, event).unwrap();
        assert_eq!(state, expected);
    }
}

#[test]
fn stages_cannot_be_skipped() {
    assert_eq!(advance(SessionState::Idle, SessionEvent::SamplerStarted), None);
    assert_eq!(advance(SessionState::Starting, SessionEvent::DurationElapsed), None);
    assert_eq!(advance(SessionState::Sampling, SessionEvent::ReportBuilt), None);
    assert_eq!(advance(SessionState::Building, SessionEvent::StreamFinished), None);
    assert_eq!(advance(SessionState::Compressing, SessionEvent::Created), None);
}

#[test]
fn every_running_stage_can_fail() {
    let running = [
        SessionState::Idle,
        SessionState::Starting,
        SessionState::Sampling,
        SessionState::Building,
        SessionState::Serializing,
        SessionState::Compressing,
    ];
    for state in running {
        assert_eq!(
            advance(state, SessionEvent::StageFailed(ProfileError::Compression)),
            Some(SessionState::Failed(ProfileError::Compression))
        );
    }
}

#[test]
fn ended_sessions_take_no_event() {
    let events = [
        SessionEvent::Created,
        SessionEvent::SamplerStarted,
        SessionEvent::DurationElapsed,
        SessionEvent::ReportBuilt,
        SessionEvent::ReportEncoded,
        SessionEvent::StreamFinished,
        SessionEvent::StageFailed(ProfileError::Capture),
    ];
    for event in events {
        assert_eq!(advance(SessionState::Completed, event), None);
        assert_eq!(advance(SessionState::Failed(ProfileError::Encoding), event), None);
    }
}

#[test]
fn each_failure_names_its_stage() {
    assert!(ProfileError::InvalidFrequency.message().starts_with("sampler:"));
    assert!(ProfileError::AlreadyRunning.message().contains("busy"));
    assert!(ProfileError::Capture.message().starts_with("sampler:"));
    assert!(ProfileError::Capture.message().contains("started or read out"));
    assert!(ProfileError::MalformedReport.message().starts_with("serializer:"));
    assert!(ProfileError::Encoding.message().starts_with("serializer:"));
    assert!(ProfileError::Compression.message().starts_with("compressor:"));
}

#[test]
fn artifact_of_given_samples_decodes_to_their_counts() {
    let frame = |address: u64, name: &str, module: &str| StackFrame {
        address,
        symbol_name: Some(name.to_string()),
        module_name: Some(module.to_string()),
    };
    let mut samples = Vec::new();
    for i in 0..1000u64 {
        if i % 10 == 0 {
            samples.push(RawSample { frames: vec![frame(0x50, "memcpy", "libc.so.6")] });
        } else {
            samples.push(RawSample {
                frames: vec![frame(0x10, "tight_loop", "app"), frame(0x20, "main", "app")],
            });
        }
    }
    let (state, artifact) = build_artifact(&samples, &FrameFilter::default_blocklist());
    assert_eq!(state, SessionState::Completed);
    let artifact = artifact.unwrap();
    let profile = decoded(&artifact);
    let total: i64 = profile.sample.iter().map(|s| s.value[0]).sum();
    assert_eq!(total, 900);
    assert_eq!(profile.sample.len(), 1);
    assert_eq!(profile.location.iter().map(|l| l.address).collect::<Vec<_>>(), vec![0x10, 0x20]);
    let names: Vec<&str> =
        profile.function.iter().map(|f| profile.string_table[f.name as usize].as_str()).collect();
    assert_eq!(names, vec!["tight_loop", "main"]);
    assert!(!profile.string_table.iter().any(|s| s.starts_with("libc")));
}

#[test]
fn artifacts_are_reproducible() {
    let samples = vec![RawSample {
        frames: vec![StackFrame { address: 1, symbol_name: None, module_name: None }],
    }];
    let filter = FrameFilter::default_blocklist();
    assert_eq!(build_artifact(&samples, &filter), build_artifact(&samples, &filter));
}

#[test]
fn zero_seconds_give_an_empty_report() {
    let session = ProfileSession::begin(1, Some(0), 0);
    assert_eq!(session.state(), SessionState::Sampling);
    assert_eq!(session.requested_duration(), 0);
    assert!(burn(20) != 0);
    let outcome = session.finish();
    assert_eq!(outcome.state, SessionState::Completed);
    assert_eq!(outcome.ticks, 0);
    let profile = decoded(&outcome.artifact.unwrap());
    assert!(profile.sample.is_empty());
    assert!(profile.location.is_empty());
    assert_eq!(profile.sample_type.len(), 1);
}

#[test]
fn a_busy_loop_is_sampled() {
    let session = ProfileSession::begin(7, Some(1), 123);
    assert_eq!(session.id(), 7);
    assert_eq!(session.started_at(), 123);
    assert_eq!(session.frequency_hz(), 1000);
    assert_eq!(session.requested_duration(), 1);
    assert_eq!(session.state(), SessionState::Sampling);
    let run: fn(u64) -> u64 = burn;
    assert!(std::hint::black_box(run)(1000) != 0);
    let outcome = session.finish();
    assert_eq!(outcome.id, 7);
    assert_eq!(outcome.state, SessionState::Completed);
    let artifact = outcome.artifact.unwrap();
    let profile = decoded(&artifact);
    let total: i64 = profile.sample.iter().map(|s| s.value[0]).sum();
    assert_eq!(total as usize, outcome.ticks);
    // One second at a thousand ticks a second, give or take the scheduler
    // and the resolution of the system's timer.
    assert!(outcome.ticks > 0);
    assert!(outcome.ticks <= 1200);
    for sample in &profile.sample {
        assert!(!sample.location_id.is_empty());
        for row in &sample.location_id {
            assert!(*row >= 1 && *row as usize <= profile.location.len());
        }
    }
    // The loop is all that runs: one stack holds most of the ticks, and the
    // loop is one of its frames.
    let dominant = profile.sample.iter().max_by_key(|s| s.value[0]).unwrap();
    assert!(dominant.value[0] as usize * 2 > outcome.ticks);
    let names: Vec<&str> = dominant
        .location_id
        .iter()
        .map(|row| &profile.location[*row as usize - 1])
        .filter(|location| !location.line.is_empty())
        .map(|location| &profile.function[location.line[0].function_id as usize - 1])
        .map(|function| profile.string_table[function.name as usize].as_str())
        .collect();
    assert!(names.iter().any(|name| name.ends_with("burn")));
    let raw = decompress(&artifact).unwrap();
    assert_eq!(Profile::parse_from_bytes(&raw).unwrap(), profile);
}

#[test]
fn a_second_session_is_told_busy() {
    let first = ProfileSession::begin(1, Some(1), 0);
    assert_eq!(first.state(), SessionState::Sampling);
    let second = ProfileSession::begin(2, None, 0);
    assert_eq!(second.state(), SessionState::Failed(ProfileError::AlreadyRunning));
    assert_eq!(second.requested_duration(), 30);
    let refused = second.finish();
    assert_eq!(refused.state, SessionState::Failed(ProfileError::AlreadyRunning));
    assert_eq!(refused.artifact, Err(ProfileError::AlreadyRunning));
    assert_eq!(refused.ticks, 0);
    // The first session is unharmed, and its end releases the sampler.
    let outcome = first.finish();
    assert_eq!(outcome.state, SessionState::Completed);
    assert!(decompress(&outcome.artifact.unwrap()).is_some());
    let third = ProfileSession::begin(3, Some(0), 0);
    assert_eq!(third.state(), SessionState::Sampling);
    assert_eq!(third.finish().state, SessionState::Completed);
}

#[test]
fn an_invalid_frequency_fails_the_session() {
    let session = ProfileSession::begin_with(4, Some(5), 0, 0, FrameFilter::default_blocklist());
    assert_eq!(session.state(), SessionState::Failed(ProfileError::InvalidFrequency));
    assert_eq!(session.finish().artifact, Err(ProfileError::InvalidFrequency));
    let session = ProfileSession::begin_with(5, None, 0, -1, FrameFilter::default_blocklist());
    assert_eq!(session.state(), SessionState::Failed(ProfileError::InvalidFrequency));
    // No sampler was taken.
    let session = ProfileSession::begin(6, Some(0), 0);
    assert_eq!(session.state(), SessionState::Sampling);
    assert_eq!(session.finish().state, SessionState::Completed);
}
