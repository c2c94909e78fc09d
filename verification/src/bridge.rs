//! The protocol between the browser extension and the collector: frames of at
//! most [`MAX_FRAME`] bytes behind a four-byte little-endian length, the
//! messages, and how each message changes the collector and is answered.
use crate::runtime::{
    chrome_in_focus, clock_ok, invalidated, runtime_wf, ticked, BrowserState, BrowserView, Runtime, RuntimeView,
};
use crate::sessions::{spec_valid_hostname, valid_hostname, Stamp};
use crate::text::{
    decimal_int, decimal_nat, opt_clone, opt_view, owned, push_char, push_decimal_i64, push_decimal_u64, push_str,
    str_eq,
};
use crate::tracker::Foreground;
use vstd::prelude::*;

verus! {

/// The name the native messaging host is registered under.
pub const HOST_NAME: &'static str = "local.caixapreta.dodia";

/// The largest frame payload, in bytes.
pub const MAX_FRAME: usize = 16_384;

/// Why a frame could not be read or written.
#[derive(Debug, Clone, Copy, PartialEq, Eq, Structural)]
pub enum FrameError {
    /// The input ended before the frame did.
    Truncated,
    /// The length is zero or above [`MAX_FRAME`].
    InvalidLength,
}

/// The number four little-endian bytes stand for.
pub open spec fn le_value(b0: u8, b1: u8, b2: u8, b3: u8) -> int {
    b0 + 256 * b1 + 65_536 * b2 + 16_777_216 * b3
}

/// The four little-endian bytes of a length below 2^32.
pub open spec fn le_header(n: nat) -> Seq<u8> {
    seq![(n % 256) as u8, ((n / 256) % 256) as u8, ((n / 65_536) % 256) as u8, ((n / 16_777_216) % 256) as u8]
}

/// A payload length a frame may carry.
pub open spec fn frame_size_ok(n: int) -> bool {
    1 <= n <= MAX_FRAME
}

/// The frame at the start of `input`: its payload, or why there is none.
pub open spec fn read_spec(input: Seq<u8>) -> Result<Seq<u8>, FrameError> {
    if input.len() < 4 {
        Err(FrameError::Truncated)
    } else {
        let n = le_value(input[0], input[1], input[2], input[3]);
        if !frame_size_ok(n) {
            Err(FrameError::InvalidLength)
        } else if input.len() < 4 + n {
            Err(FrameError::Truncated)
        } else {
            Ok(input.subrange(4, 4 + n))
        }
    }
}

/// The payload length a header announces, when a frame may carry it.
pub fn frame_length(header: [u8; 4]) -> (r: Result<usize, FrameError>)
    ensures
        frame_size_ok(le_value(header[0], header[1], header[2], header[3])) ==> r == Ok::<usize, FrameError>(
            le_value(header[0], header[1], header[2], header[3]) as usize,
        ),
        !frame_size_ok(le_value(header[0], header[1], header[2], header[3])) ==> r == Err::<usize, FrameError>(
            FrameError::InvalidLength,
        ),
{
    let n: u64 = header[0] as u64 + 256 * (header[1] as u64) + 65_536 * (header[2] as u64) + 16_777_216 * (
    header[3] as u64);
    if n == 0 || n > MAX_FRAME as u64 {
        Err(FrameError::InvalidLength)
    } else {
        Ok(n as usize)
    }
}

/// Reads the frame at the start of `input`; see [`read_spec`].
pub fn read_frame(input: &[u8]) -> (r: Result<Vec<u8>, FrameError>)
    ensures
        match r {
            Ok(v) => read_spec(input@) == Ok::<Seq<u8>, FrameError>(v@),
            Err(e) => read_spec(input@) == Err::<Seq<u8>, FrameError>(e),
        },
{
    if input.len() < 4 {
        return Err(FrameError::Truncated);
    }
    let n = match frame_length([input[0], input[1], input[2], input[3]]) {
        Ok(n) => n,
        Err(e) => return Err(e),
    };
    if input.len() - 4 < n {
        return Err(FrameError::Truncated);
    }
    let mut v: Vec<u8> = Vec::new();
    let mut i: usize = 0;
    while i < n
        invariant
            i <= n,
            4 + n <= input.len(),
            v@ == input@.subrange(4, 4 + i),
        decreases n - i,
    {
        v.push(input[4 + i]);
        proof {
            assert(input@.subrange(4, 4 + i + 1) =~= input@.subrange(4, 4 + i).push(input@[4 + i]));
        }
        i = i + 1;
    }
    Ok(v)
}

/// Appends `data` to `output` as one frame. Refused: an empty payload and one
/// above [`MAX_FRAME`], leaving `output` unchanged.
pub fn write_frame(output: &mut Vec<u8>, data: &[u8]) -> (r: Result<(), FrameError>)
    ensures
        r is Err <==> !frame_size_ok(data@.len() as int),
        r matches Err(e) ==> e == FrameError::InvalidLength && final(output)@ == old(output)@,
        r is Ok ==> final(output)@ == old(output)@ + le_header(data@.len()) + data@,
{
    let n = data.len();
    if n == 0 || n > MAX_FRAME {
        return Err(FrameError::InvalidLength);
    }
    let ghost start = output@;
    output.push((n % 256) as u8);
    output.push(((n / 256) % 256) as u8);
    output.push(((n / 65_536) % 256) as u8);
    output.push(((n / 16_777_216) % 256) as u8);
    proof {
        assert(output@ =~= start + le_header(n as nat));
    }
    let mut i: usize = 0;
    while i < n
        invariant
            n == data@.len(),
            i <= n,
            output@ == start + le_header(n as nat) + data@.take(i as int),
        decreases n - i,
    {
        output.push(data[i]);
        proof {
            assert(data@.take(i + 1) =~= data@.take(i as int).push(data@[i as int]));
            assert(output@ =~= start + le_header(n as nat) + data@.take(i + 1));
        }
        i = i + 1;
    }
    proof {
        assert(data@.take(n as int) =~= data@);
    }
    Ok(())
}

/// Reading back a written frame gives its payload, whatever follows it.
pub proof fn lemma_frame_round_trip(data: Seq<u8>, rest: Seq<u8>)
    requires
        frame_size_ok(data.len() as int),
    ensures
        read_spec(le_header(data.len()) + data + rest) == Ok::<Seq<u8>, FrameError>(data),
{
    let n = data.len();
    let h = le_header(n);
    let all = h + data + rest;
    assert(all[0] == h[0] && all[1] == h[1] && all[2] == h[2] && all[3] == h[3]);
    assert(le_value(h[0], h[1], h[2], h[3]) == n) by {
        assert(n < 65_536);
        assert((n / 65_536) == 0);
        assert(n / 16_777_216 == 0);
        assert((n % 256) + 256 * ((n / 256) % 256) == n);
    }
    assert(all.subrange(4, 4 + n as int) =~= data);
}


/// A message from the extension.
#[derive(Debug)]
pub enum Message {
    /// The opening handshake, with the protocol version.
    Hello { version: u32 },
    /// A keep-alive.
    Poll {},
    /// What the focused browser window shows: a hostname or a browser page,
    /// with the tab and window it is in.
    BrowserState {
        generation: u64,
        sequence: u64,
        focused: bool,
        hostname: Option<String>,
        tab_id: Option<i64>,
        window_id: Option<i64>,
        system: bool,
    },
}

/// The mathematical value of a [`Message`].
pub enum MessageView {
    Hello { version: u32 },
    Poll,
    BrowserState {
        generation: u64,
        sequence: u64,
        focused: bool,
        hostname: Option<Seq<char>>,
        tab_id: Option<i64>,
        window_id: Option<i64>,
        system: bool,
    },
}

impl View for Message {
    type V = MessageView;

    open spec fn view(&self) -> MessageView {
        match self {
            Message::Hello { version } => MessageView::Hello { version: *version },
            Message::Poll {} => MessageView::Poll,
            Message::BrowserState { generation, sequence, focused, hostname, tab_id, window_id, system } => {
                MessageView::BrowserState {
                    generation: *generation,
                    sequence: *sequence,
                    focused: *focused,
                    hostname: opt_view(*hostname),
                    tab_id: *tab_id,
                    window_id: *window_id,
                    system: *system,
                }
            },
        }
    }
}

/// The collector's answer to every message.
#[derive(Debug)]
pub struct Reply {
    pub kind: String,
    pub version: u32,
    pub generation: u64,
    pub paused: bool,
    pub browser_in_focus: bool,
    pub error: Option<String>,
}

/// The message's own fault, if any: an unsupported version, or a hostname that
/// is invalid, or reported for an unfocused window, for a browser page, or
/// without its tab or window.
pub open spec fn message_error(m: MessageView) -> Option<Seq<char>> {
    match m {
        MessageView::Hello { version } => if version != 1 {
            Some("Versão de protocolo incompatível"@)
        } else {
            None
        },
        MessageView::Poll => None,
        MessageView::BrowserState { focused, hostname, tab_id, window_id, system, .. } => {
            if hostname is Some && (!spec_valid_hostname(hostname->0) || !focused || system || tab_id is None
                || window_id is None) {
                Some("Metadados inválidos"@)
            } else {
                None
            }
        },
    }
}

/// The collector takes a browser state: it is recording, without an error, and
/// the state belongs to the current generation and is newer than the last.
pub open spec fn accepts(r: RuntimeView, generation: u64, sequence: u64) -> bool {
    !r.settings.paused && r.error is None && generation == r.generation && sequence > r.last_sequence
}

/// The key of a tab for one generation: `generation:window:tab`.
pub open spec fn tab_key_of(generation: u64, tab_id: Option<i64>, window_id: Option<i64>) -> Option<Seq<char>> {
    match (tab_id, window_id) {
        (Some(t), Some(w)) => Some(
            decimal_nat(generation as nat) + seq![':'] + decimal_int(w as int) + seq![':'] + decimal_int(t as int),
        ),
        _ => None,
    }
}

/// `after` and the answer `reply` are what handling `m` at `at`, with the
/// foreground sample `fresh`, makes of `before`: a valid hello forgets the
/// browser and notes the contact; a poll notes the contact; an accepted
/// browser state becomes the collector's browser state, with the contact
/// noted, and a tick follows. Anything else changes nothing. The answer gives
/// the generation, whether recording is paused or failed, whether Chrome is in
/// the foreground, and the message's fault or else the pending error.
pub open spec fn handled(
    before: RuntimeView,
    m: MessageView,
    at: Stamp,
    fresh: crate::tracker::ForegroundView,
    after: RuntimeView,
    reply: (Seq<char>, u32, u64, bool, bool, Option<Seq<char>>),
) -> bool {
    &&& match m {
        MessageView::Hello { version } => if version != 1 {
            after == before
        } else {
            after == (RuntimeView { last_poll: Some(at.mono), ..invalidated(before) })
        },
        MessageView::Poll => after == (RuntimeView { last_poll: Some(at.mono), ..before }),
        MessageView::BrowserState { generation, sequence, focused, hostname, tab_id, window_id, system } => {
            if message_error(m) is Some || !accepts(before, generation, sequence) {
                after == before
            } else {
                ticked(
                    RuntimeView {
                        last_sequence: sequence,
                        browser: Some(
                            BrowserView {
                                generation,
                                sequence,
                                focused,
                                hostname,
                                tab_key: tab_key_of(generation, tab_id, window_id),
                                system,
                                confirmed: at,
                            },
                        ),
                        last_poll: Some(at.mono),
                        ..before
                    },
                    None,
                    fresh,
                    at,
                    after,
                )
            }
        },
    }
    &&& reply == (
        "tracking_state"@,
        1u32,
        after.generation,
        after.settings.paused || after.error is Some,
        chrome_in_focus(after.foreground),
        match message_error(m) {
            Some(e) => Some(e),
            None => after.error,
        },
    )
}

fn tab_key(generation: u64, tab_id: Option<i64>, window_id: Option<i64>) -> (r: Option<String>)
    ensures
        opt_view(r) == tab_key_of(generation, tab_id, window_id),
{
    match (tab_id, window_id) {
        (Some(t), Some(w)) => {
            let mut k = String::new();
            push_decimal_u64(&mut k, generation);
            push_char(&mut k, ':');
            push_decimal_i64(&mut k, w);
            push_char(&mut k, ':');
            push_decimal_i64(&mut k, t);
            proof {
                assert(k@ =~= decimal_nat(generation as nat) + seq![':'] + decimal_int(w as int) + seq![':']
                    + decimal_int(t as int));
            }
            Some(k)
        },
        _ => None,
    }
}

/// Handles one message from the extension at `at`, with the foreground sample
/// `fresh`; see [`handled`].
pub fn handle(state: &mut Runtime, message: Message, at: Stamp, fresh: Foreground) -> (r: Reply)
    requires
        runtime_wf(old(state)@),
        clock_ok(at),
    ensures
        runtime_wf(final(state)@),
        handled(
            old(state)@,
            message@,
            at,
            fresh@,
            final(state)@,
            (r.kind@, r.version, r.generation, r.paused, r.browser_in_focus, opt_view(r.error)),
        ),
{
    let ghost m = message@;
    let mut error: Option<String> = None;
    match message {
        Message::Hello { version } => {
            if version != 1 {
                error = Some(owned("Versão de protocolo incompatível"));
            } else {
                state.invalidate_browser();
                state.last_poll = Some(at.mono);
            }
        },
        Message::Poll {} => {
            state.last_poll = Some(at.mono);
        },
        Message::BrowserState { generation, sequence, focused, hostname, tab_id, window_id, system } => {
            let invalid = match &hostname {
                Some(h) => !valid_hostname(h.as_str()) || !focused || system || tab_id.is_none() || window_id.is_none(),
                None => false,
            };
            if invalid {
                error = Some(owned("Metadados inválidos"));
            } else if !state.settings.paused && state.error.is_none() && generation == state.generation && sequence
                > state.last_sequence {
                state.last_sequence = sequence;
                let key = tab_key(generation, tab_id, window_id);
                state.browser = Some(
                    BrowserState { generation, sequence, focused, hostname, tab_key: key, system, confirmed: at },
                );
                state.last_poll = Some(at.mono);
                state.tick(None, fresh, at);
            }
        },
    }
    let chrome = match &state.foreground.identity {
        Some(i) => str_eq(i.executable.as_str(), "chrome.exe"),
        None => false,
    };
    let answer = match error {
        Some(e) => Some(e),
        None => opt_clone(&state.error),
    };
    Reply {
        kind: owned("tracking_state"),
        version: 1,
        generation: state.generation,
        paused: state.settings.paused || state.error.is_some(),
        browser_in_focus: chrome,
        error: answer,
    }
}

/// The named pipe of a user, by security identifier, and Windows session.
pub open spec fn pipe_name_of(sid: Seq<char>, session: u32) -> Seq<char> {
    "\\\\.\\pipe\\CaixaPretaDoDia-"@ + sid + seq!['-'] + decimal_nat(session as nat)
}

/// See [`pipe_name_of`].
pub fn pipe_name(sid: &str, session: u32) -> (r: String)
    ensures
        r@ == pipe_name_of(sid@, session),
{
    let mut name = owned("\\\\.\\pipe\\CaixaPretaDoDia-");
    push_str(&mut name, sid);
    push_char(&mut name, '-');
    push_decimal_u64(&mut name, session as u64);
    proof {
        assert(name@ =~= pipe_name_of(sid@, session));
    }
    name
}


/// A browser state that is not newer than the last one taken, or that belongs
/// to another generation, changes nothing: repeated, stale and out-of-order
/// messages cannot rewrite what was recorded.
pub proof fn lemma_stale_state_ignored(
    before: RuntimeView,
    m: MessageView,
    at: Stamp,
    fresh: crate::tracker::ForegroundView,
    after: RuntimeView,
    reply: (Seq<char>, u32, u64, bool, bool, Option<Seq<char>>),
)
    requires
        handled(before, m, at, fresh, after, reply),
        m matches MessageView::BrowserState { generation, sequence, .. } && (sequence <= before.last_sequence
            || generation != before.generation),
    ensures
        after == before,
{
}

/// While recording is paused no browser state is taken.
pub proof fn lemma_paused_ignores_browser(
    before: RuntimeView,
    m: MessageView,
    at: Stamp,
    fresh: crate::tracker::ForegroundView,
    after: RuntimeView,
    reply: (Seq<char>, u32, u64, bool, bool, Option<Seq<char>>),
)
    requires
        handled(before, m, at, fresh, after, reply),
        m is BrowserState,
        before.settings.paused,
    ensures
        after == before,
        reply.3,
{
}


/// A connection opens with a hello of version one; anything else first closes it.
pub fn opens_connection(message: &Message) -> (r: bool)
    ensures
        r == (message@ matches MessageView::Hello { version } && version == 1),
{
    match message {
        Message::Hello { version } => *version == 1,
        _ => false,
    }
}

} // verus!
