use virus_bot::proto::client::{next_backoff, on_frame, Frame, FrameStep, ProtoError};
use virus_bot::proto::config::BotConfig;
use virus_bot::time::Duration;

fn config() -> BotConfig {
    BotConfig {
        reconnect_min: Duration::from_secs(1),
        reconnect_max: Duration::from_secs(30),
        stable_session: Duration::from_secs(30),
        ..BotConfig::default()
    }
}

#[test]
fn a_flapping_endpoint_backs_off_to_the_ceiling() {
    let config = config();
    let mut backoff = config.reconnect_min;
    let instant_failure = Duration::from_millis(20);
    for _ in 0..10 {
        backoff = next_backoff(backoff, instant_failure, &config);
    }
    assert_eq!(backoff, config.reconnect_max);
}

#[test]
fn a_healthy_session_resets_the_backoff() {
    let config = config();
    let at_ceiling = config.reconnect_max;
    assert_eq!(
        next_backoff(at_ceiling, Duration::from_secs(3600), &config),
        config.reconnect_min
    );
    // Exactly at the threshold counts as healthy.
    assert_eq!(next_backoff(at_ceiling, config.stable_session, &config), config.reconnect_min);
    // Just under it does not.
    assert_eq!(
        next_backoff(
            config.reconnect_min,
            config.stable_session.saturating_sub(Duration::from_millis(1)),
            &config
        ),
        config.reconnect_min.saturating_mul(2)
    );
}

#[test]
fn a_frame_is_handled_answered_or_ends_the_session() {
    assert!(matches!(
        on_frame(Frame::Text("hi".to_owned())),
        FrameStep::Handle(t) if t == "hi"
    ));
    assert!(matches!(
        on_frame(Frame::Binary("gr\u{fc}n \u{1F9A0}".as_bytes().to_vec())),
        FrameStep::Handle(t) if t == "gr\u{fc}n \u{1F9A0}"
    ));
    assert!(matches!(on_frame(Frame::Binary(vec![0xC3, 0x28])), FrameStep::NotText));
    assert!(matches!(on_frame(Frame::Binary(vec![0xED, 0xA0, 0x80])), FrameStep::NotText));
    assert!(matches!(
        on_frame(Frame::Ping(vec![1, 2, 3])),
        FrameStep::Answer(p) if p == vec![1, 2, 3]
    ));
    assert!(matches!(on_frame(Frame::Pong), FrameStep::Ignore));
    assert!(matches!(on_frame(Frame::Close), FrameStep::Finish));
    assert!(matches!(on_frame(Frame::End), FrameStep::Finish));
    assert!(matches!(
        on_frame(Frame::Fault("reset".to_owned())),
        FrameStep::Fail(ProtoError::Socket(d)) if d == "reset"
    ));
}

#[test]
fn a_failure_says_where_it_happened() {
    assert_eq!(ProtoError::Connect("refused".to_owned()).message(), "connect failed: refused");
    assert_eq!(ProtoError::Socket("reset".to_owned()).message(), "socket error: reset");
}

#[test]
fn a_healthy_session_resets_even_the_longest_backoff() {
    let config = config();
    let longest = Duration::from_nanos(u128::MAX);
    assert_eq!(next_backoff(longest, config.stable_session, &config), config.reconnect_min);
}
