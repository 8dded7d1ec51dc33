//! The transport's decisions: what to do with a frame, what a dead session
//! means, and how long to wait before the next one.

use crate::proto::config::BotConfig;
use crate::time::{Duration, MAX_NANOS};
use vstd::prelude::*;
use vstd::utf8::{decode_utf8, valid_utf8};

verus! {

/// The error of [`std::str::from_utf8`], which says where the bytes stop being
/// text.
#[verifier::external_type_specification]
#[verifier::external_body]
pub struct ExUtf8Error(std::str::Utf8Error);

/// [`std::str::from_utf8`] reads bytes as text exactly when they are UTF-8, and
/// the text is then the one they encode.
pub assume_specification[ std::str::from_utf8 ](bytes: &[u8]) -> (r: Result<
    &str,
    std::str::Utf8Error,
>)
    ensures
        r is Ok <==> valid_utf8(bytes@),
        r is Ok ==> r->Ok_0@ == decode_utf8(bytes@),
;

/// A transport failure. Every variant is retryable.
#[derive(Debug)]
pub enum ProtoError {
    /// The dial or the WebSocket handshake failed.
    Connect(String),
    /// The socket faulted mid-session.
    Socket(String),
}

impl ProtoError {
    /// The failure in words.
    pub fn message(&self) -> (r: String)
        ensures
            r@ == match *self {
                ProtoError::Connect(detail) => "connect failed: "@ + detail@,
                ProtoError::Socket(detail) => "socket error: "@ + detail@,
            },
    {
        match self {
            ProtoError::Connect(detail) => {
                let mut text = "connect failed: ".to_owned();
                text.append(detail.as_str());
                text
            },
            ProtoError::Socket(detail) => {
                let mut text = "socket error: ".to_owned();
                text.append(detail.as_str());
                text
            },
        }
    }
}

/// What the socket gave.
#[derive(Debug)]
pub enum Frame {
    Text(String),
    Binary(Vec<u8>),
    /// A ping, with the payload its answer has to carry.
    Ping(Vec<u8>),
    Pong,
    /// The peer is closing the connection.
    Close,
    /// The stream is over.
    End,
    /// The socket faulted.
    Fault(String),
}

/// What to do about it.
#[derive(Debug)]
pub enum FrameStep {
    /// Hand this text to the bot.
    Handle(String),
    /// Answer the ping with this payload, now.
    Answer(Vec<u8>),
    /// Log that a binary frame was not text, and go on.
    NotText,
    /// Go on.
    Ignore,
    /// The session is over.
    Finish,
    /// The session is over, with an error.
    Fail(ProtoError),
}

/// `step` is what `frame` calls for. Text is text, whichever kind of frame it
/// came in; a ping is answered with its own payload; a close and an end are no
/// errors, and a fault is one.
pub open spec fn calls_for(frame: Frame, step: FrameStep) -> bool {
    match frame {
        Frame::Text(text) => step matches FrameStep::Handle(t) && t@ == text@,
        Frame::Binary(bytes) => if valid_utf8(bytes@) {
            step matches FrameStep::Handle(t) && t@ == decode_utf8(bytes@)
        } else {
            step is NotText
        },
        Frame::Ping(payload) => step matches FrameStep::Answer(p) && p@ == payload@,
        Frame::Pong => step is Ignore,
        Frame::Close => step is Finish,
        Frame::End => step is Finish,
        Frame::Fault(detail) => step matches FrameStep::Fail(ProtoError::Socket(d)) && d@
            == detail@,
    }
}

/// What to do with a frame.
pub fn on_frame(frame: Frame) -> (r: FrameStep)
    ensures
        calls_for(frame, r),
{
    match frame {
        Frame::Text(text) => FrameStep::Handle(text),
        Frame::Binary(bytes) => match std::str::from_utf8(bytes.as_slice()) {
            Ok(text) => FrameStep::Handle(text.to_owned()),
            Err(_) => FrameStep::NotText,
        },
        Frame::Ping(payload) => FrameStep::Answer(payload),
        Frame::Pong => FrameStep::Ignore,
        Frame::Close => FrameStep::Finish,
        Frame::End => FrameStep::Finish,
        Frame::Fault(detail) => FrameStep::Fail(ProtoError::Socket(detail)),
    }
}

/// Whether a frame ends the session: a close, an end or a fault, and nothing
/// else.
pub proof fn only_the_socket_ends_a_session(frame: Frame, step: FrameStep)
    requires
        calls_for(frame, step),
    ensures
        (step is Finish || step is Fail) <==> (frame is Close || frame is End || frame is Fault),
        step is Fail <==> frame is Fault,
{
}

/// A text frame and the binary frame of its bytes are handled alike.
pub proof fn text_is_text_in_either_frame(
    text: String,
    bytes: Vec<u8>,
    a: FrameStep,
    b: FrameStep,
)
    requires
        bytes@ == vstd::utf8::encode_utf8(text@),
        calls_for(Frame::Text(text), a),
        calls_for(Frame::Binary(bytes), b),
    ensures
        a matches FrameStep::Handle(s) && b matches FrameStep::Handle(t) && s@ == t@,
{
    vstd::utf8::encode_utf8_valid_utf8(text@);
    vstd::utf8::encode_utf8_decode_utf8(text@);
}

/// The delay that follows `current` after a session of length `session`.
pub open spec fn backoff_after(
    current: int,
    session: int,
    stable: int,
    shortest: int,
    longest: int,
) -> int {
    if session >= stable {
        shortest
    } else if current * 2 <= longest {
        current * 2
    } else {
        longest
    }
}

/// The delay before the next reconnect attempt.
///
/// A session that lasted is evidence the endpoint is healthy, and the next
/// outage deserves a fresh, short retry; an immediate accept-then-drop keeps
/// climbing.
pub fn next_backoff(current: Duration, session: Duration, config: &BotConfig) -> (r: Duration)
    requires
        session@ < config.stable_session@ ==> current@ * 2 <= MAX_NANOS,
    ensures
        r@ == backoff_after(
            current@,
            session@,
            config.stable_session@,
            config.reconnect_min@,
            config.reconnect_max@,
        ),
{
    if session.as_nanos() >= config.stable_session.as_nanos() {
        config.reconnect_min
    } else {
        current.saturating_mul(2).shorter(config.reconnect_max)
    }
}

/// The delay after `failures` sessions in a row that did not last.
pub open spec fn backoff_climb(start: int, longest: int, failures: nat) -> int
    decreases failures,
{
    if failures == 0 {
        start
    } else {
        backoff_after(backoff_climb(start, longest, (failures - 1) as nat), 0, 1, start, longest)
    }
}

/// A flapping endpoint is retried ever more slowly, and never more slowly than
/// the ceiling: each delay is at least the one before it and at most the
/// longest.
pub proof fn a_flapping_endpoint_climbs_to_the_ceiling(start: int, longest: int, failures: nat)
    requires
        0 < start <= longest,
    ensures
        start <= backoff_climb(start, longest, failures) <= longest,
        backoff_climb(start, longest, failures) <= backoff_climb(start, longest, failures + 1),
        backoff_climb(start, longest, failures) == longest || backoff_climb(start, longest, failures)
            >= start + failures,
    decreases failures,
{
    if failures > 0 {
        a_flapping_endpoint_climbs_to_the_ceiling(start, longest, (failures - 1) as nat);
    }
}

/// A session that lasted starts the delays over at the shortest, however long
/// the last was. After any other the delay doubles, and stops at the longest.
pub proof fn a_lasting_session_starts_over(
    current: int,
    session: int,
    stable: int,
    shortest: int,
    longest: int,
)
    ensures
        session >= stable ==> backoff_after(current, session, stable, shortest, longest)
            == shortest,
        session < stable && 2 * current <= longest ==> backoff_after(
            current,
            session,
            stable,
            shortest,
            longest,
        ) == 2 * current,
        session < stable && 2 * current > longest ==> backoff_after(
            current,
            session,
            stable,
            shortest,
            longest,
        ) == longest,
{
}

/// After so many failures in a row the first delay has doubled as often, or has
/// reached the longest.
pub proof fn a_delay_doubles_with_every_failure(start: int, longest: int, failures: nat)
    requires
        0 < start <= longest,
    ensures
        ({
            let doubled = start * vstd::arithmetic::power2::pow2(failures);
            &&& doubled <= longest ==> backoff_climb(start, longest, failures) == doubled
            &&& doubled > longest ==> backoff_climb(start, longest, failures) == longest
        }),
    decreases failures,
{
    if failures == 0 {
        vstd::arithmetic::power2::lemma2_to64();
        assert(start * vstd::arithmetic::power2::pow2(0) == start) by (nonlinear_arith)
            requires
                vstd::arithmetic::power2::pow2(0) == 1,
        ;
    } else {
        let before = (failures - 1) as nat;
        a_delay_doubles_with_every_failure(start, longest, before);
        vstd::arithmetic::power2::lemma_pow2_unfold(failures);
        let p = vstd::arithmetic::power2::pow2(before) as int;
        assert(start * (2 * p) == 2 * (start * p)) by (nonlinear_arith);
    }
}

/// A ping is answered with the very payload it brought and a pong with nothing;
/// bytes that are no text are reported and cost nothing else; a fault is passed
/// on in its own words.
pub proof fn every_frame_has_its_answer(frame: Frame, step: FrameStep)
    requires
        calls_for(frame, step),
    ensures
        frame matches Frame::Ping(payload) ==> step matches FrameStep::Answer(answer) && answer@
            == payload@,
        frame is Pong ==> step is Ignore,
        frame matches Frame::Text(text) ==> step matches FrameStep::Handle(heard) && heard@
            == text@,
        frame matches Frame::Binary(bytes) ==> (step is NotText <==> !valid_utf8(bytes@)),
        step is Answer <==> frame is Ping,
        frame matches Frame::Fault(detail) ==> step matches FrameStep::Fail(ProtoError::Socket(d))
            && d@ == detail@,
        frame is Close || frame is End ==> step is Finish,
{
}

} // verus!
