use caixa_preta::bridge::{
    frame_length, handle, pipe_name, read_frame, write_frame, FrameError, Message, MAX_FRAME,
};
use caixa_preta::runtime::Runtime;
use caixa_preta::sessions::{valid_hostname, Stamp};
use caixa_preta::store::{Store, VdiIdentity};
use caixa_preta::tracker::Foreground;

#[test]
fn frames_validate_lengths_and_partial_input() {
    assert!(read_frame(&((MAX_FRAME + 1) as u32).to_le_bytes()[..]).is_err());
    assert!(read_frame(&[4, 0, 0, 0, 1][..]).is_err());
    let mut bytes = vec![];
    write_frame(&mut bytes, b"{\"kind\":\"poll\"}").unwrap();
    assert_eq!(read_frame(bytes.as_slice()).unwrap(), b"{\"kind\":\"poll\"}");
}

#[test]
fn frame_errors_say_why() {
    assert_eq!(read_frame(&[1, 0]), Err(FrameError::Truncated));
    assert_eq!(read_frame(&[0, 0, 0, 0]), Err(FrameError::InvalidLength));
    assert_eq!(read_frame(&[2, 0, 0, 0, 7]), Err(FrameError::Truncated));
    assert_eq!(read_frame(&[1, 0, 0, 0, 7, 8]), Ok(vec![7]));
    let mut out = vec![9u8];
    assert_eq!(write_frame(&mut out, b""), Err(FrameError::InvalidLength));
    assert_eq!(write_frame(&mut out, &vec![0u8; MAX_FRAME + 1]), Err(FrameError::InvalidLength));
    assert_eq!(out, vec![9]);
    assert_eq!(frame_length([0, 64, 0, 0]), Ok(16_384));
    assert_eq!(frame_length([1, 64, 0, 0]), Err(FrameError::InvalidLength));
    assert_eq!(frame_length([0, 0, 0, 1]), Err(FrameError::InvalidLength));
}

#[test]
fn a_written_frame_reads_back_whatever_follows() {
    let payload = vec![5u8; 300];
    let mut out = vec![];
    write_frame(&mut out, &payload).unwrap();
    assert_eq!(&out[..4], &[44, 1, 0, 0]);
    out.extend_from_slice(&[1, 2, 3]);
    assert_eq!(read_frame(&out).unwrap(), payload);
}

#[test]
fn hostnames_with_paths_are_refused() {
    assert!(!valid_hostname("example.com/path?token=secret"));
    assert!(valid_hostname("sub.example.com"));
    assert!(!valid_hostname("Example.com"));
    assert!(!valid_hostname("example..com"));
    assert!(!valid_hostname("example.com."));
    assert!(!valid_hostname(""));
}

#[test]
fn the_pipe_is_named_by_user_and_session() {
    assert_eq!(
        pipe_name("S-1-5-21-1", 2),
        "\\\\.\\pipe\\CaixaPretaDoDia-S-1-5-21-1-2"
    );
}

fn stamp(seconds: u64) -> Stamp {
    Stamp {
        utc: 1_788_956_400_000 + seconds as i64 * 1000,
        mono: seconds * 1000,
        offset: -10_800,
    }
}

fn chrome() -> Foreground {
    Foreground {
        hwnd: 7,
        identity: Some(VdiIdentity {
            executable: "chrome.exe".into(),
            window_class: "Chrome_WidgetWin_1".into(),
        }),
        app_name: Some("Google Chrome".into()),
        idle_ms: Some(0),
    }
}

fn running() -> Runtime {
    let mut rt = Runtime::new(Store::new(), stamp(0), 1, chrome(), "data.sqlite3".into()).unwrap();
    rt.configure_vdi(VdiIdentity {
        executable: "WindowsApp/msrdc.exe".into(),
        window_class: "TscShellContainerClass".into(),
    });
    rt.pause(false, stamp(0), chrome()).unwrap();
    rt
}

fn state(generation: u64, sequence: u64, host: Option<&str>) -> Message {
    Message::BrowserState {
        generation,
        sequence,
        focused: true,
        hostname: host.map(str::to_string),
        tab_id: Some(3),
        window_id: Some(9),
        system: false,
    }
}

#[test]
fn handshake_and_browser_state_feed_the_recorder() {
    let mut rt = running();
    let reply = handle(&mut rt, Message::Hello { version: 1 }, stamp(1), chrome());
    assert_eq!(reply.kind, "tracking_state");
    assert_eq!(reply.version, 1);
    assert!(!reply.paused);
    assert!(reply.browser_in_focus);
    assert_eq!(reply.error, None);
    let generation = reply.generation;
    let reply = handle(&mut rt, state(generation, 1, Some("example.org")), stamp(2), chrome());
    assert_eq!(reply.error, None);
    assert_eq!(rt.browser.as_ref().unwrap().tab_key.as_deref(), Some(format!("{generation}:9:3").as_str()));
    assert_eq!(rt.recorder.activity().unwrap().hostname.as_deref(), Some("example.org"));
    assert_eq!(rt.last_poll, Some(2000));
}

#[test]
fn stale_and_invalid_messages_change_nothing() {
    let mut rt = running();
    let generation = handle(&mut rt, Message::Hello { version: 1 }, stamp(1), chrome()).generation;
    handle(&mut rt, state(generation, 5, Some("example.org")), stamp(2), chrome());
    let reply = handle(&mut rt, state(generation, 5, Some("other.org")), stamp(3), chrome());
    assert_eq!(reply.error, None);
    assert_eq!(rt.browser.as_ref().unwrap().hostname.as_deref(), Some("example.org"));
    let reply = handle(&mut rt, state(generation + 1, 9, Some("other.org")), stamp(3), chrome());
    assert_eq!(reply.error, None);
    assert_eq!(rt.browser.as_ref().unwrap().sequence, 5);
    let reply = handle(&mut rt, state(generation, 9, Some("other.org/path")), stamp(3), chrome());
    assert_eq!(reply.error.as_deref(), Some("Metadados inválidos"));
    let unfocused = Message::BrowserState {
        generation,
        sequence: 10,
        focused: false,
        hostname: Some("other.org".into()),
        tab_id: Some(1),
        window_id: Some(1),
        system: false,
    };
    assert_eq!(
        handle(&mut rt, unfocused, stamp(3), chrome()).error.as_deref(),
        Some("Metadados inválidos")
    );
    let reply = handle(&mut rt, Message::Hello { version: 2 }, stamp(3), chrome());
    assert_eq!(reply.error.as_deref(), Some("Versão de protocolo incompatível"));
    assert_eq!(reply.generation, generation);
    assert_eq!(rt.browser.as_ref().unwrap().hostname.as_deref(), Some("example.org"));
}

#[test]
fn paused_collector_ignores_the_browser() {
    let mut rt = Runtime::new(Store::new(), stamp(0), 1, chrome(), "data.sqlite3".into()).unwrap();
    let generation = handle(&mut rt, Message::Hello { version: 1 }, stamp(1), chrome()).generation;
    let reply = handle(&mut rt, state(generation, 1, Some("example.org")), stamp(2), chrome());
    assert!(reply.paused);
    assert!(rt.browser.is_none());
    let reply = handle(&mut rt, Message::Poll {}, stamp(3), chrome());
    assert!(reply.paused);
    assert_eq!(rt.last_poll, Some(3000));
}

#[test]
fn only_a_first_hello_opens_a_connection() {
    assert!(caixa_preta::bridge::opens_connection(&Message::Hello { version: 1 }));
    assert!(!caixa_preta::bridge::opens_connection(&Message::Hello { version: 2 }));
    assert!(!caixa_preta::bridge::opens_connection(&Message::Poll {}));
}
