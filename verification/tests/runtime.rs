use caixa_preta::bridge::{handle, Message};
use caixa_preta::runtime::{clock_usable, export_path_allowed, Runtime};
use caixa_preta::sessions::Stamp;
use caixa_preta::store::{Store, VdiIdentity};
use caixa_preta::tracker::{Foreground, PlatformEvent};

fn stamp(seconds: u64) -> Stamp {
    Stamp {
        utc: 1_788_956_400_000 + seconds as i64 * 1000,
        mono: seconds * 1000,
        offset: -10_800,
    }
}

fn at_ms(ms: u64) -> Stamp {
    Stamp {
        utc: 1_788_956_400_000 + ms as i64,
        mono: ms,
        offset: -10_800,
    }
}

fn remote() -> VdiIdentity {
    VdiIdentity {
        executable: "WindowsApp/msrdc.exe".into(),
        window_class: "TscShellContainerClass".into(),
    }
}

fn vdi_window(idle: u64) -> Foreground {
    Foreground {
        hwnd: 5,
        identity: Some(remote()),
        app_name: Some("Windows App".into()),
        idle_ms: Some(idle),
    }
}

fn chrome() -> Foreground {
    Foreground {
        hwnd: 7,
        identity: Some(VdiIdentity {
            executable: "chrome.exe".into(),
            window_class: "Chrome_WidgetWin_1".into(),
        }),
        app_name: Some("Google Chrome".into()),
        idle_ms: Some(0),
    }
}

fn started(fg: Foreground) -> Runtime {
    let mut rt = Runtime::new(Store::new(), stamp(0), 1, fg.clone(), "C:\\data.sqlite3".into()).unwrap();
    rt.configure_vdi(remote());
    rt.pause(false, stamp(0), fg).unwrap();
    rt
}

#[test]
fn a_new_collector_starts_paused_and_refuses_to_resume_without_a_vdi() {
    let mut rt = Runtime::new(Store::new(), stamp(0), 1, chrome(), "C:\\data.sqlite3".into()).unwrap();
    let status = rt.status(0);
    assert!(status.settings.paused);
    assert_eq!(status.activity.source, "paused");
    assert_eq!(status.activity.reason, "not_started");
    assert!(!status.extension_connected);
    assert!(!status.vdi_in_focus);
    assert_eq!(status.last_saved_utc, None);
    assert_eq!(status.data_path, "C:\\data.sqlite3");
    assert_eq!(
        rt.pause(false, stamp(1), chrome()).unwrap_err(),
        "Configure a janela da VDI antes de iniciar."
    );
    assert!(rt.settings.paused);
}

#[test]
fn vdi_time_counts_only_with_the_remote_window_in_focus() {
    let mut rt = started(vdi_window(0));
    for t in 1..=10 {
        rt.tick(None, vdi_window(0), stamp(t));
    }
    let status = rt.status(10_000);
    assert!(status.vdi_in_focus);
    assert_eq!(status.activity.source, "vdi");
    for t in 11..=15 {
        rt.tick(Some(PlatformEvent::Focus), chrome(), stamp(t));
    }
    rt.recorder.flush().unwrap();
    let report = rt.recorder.report(&stamp(0).date()).unwrap();
    assert_eq!(report.vdi_ms, 11_000);
    assert!(report.app_totals.is_empty());
    assert_eq!(report.unknown_ms, 4_000);
    assert_eq!(report.unidentified_ms, 4_000);
    assert_eq!(rt.recorder.activity().unwrap().source, "unknown");
    assert_eq!(rt.recorder.activity().unwrap().reason, "extension_unavailable");
}

#[test]
fn inactivity_starts_at_the_limit_without_going_back() {
    let mut rt = started(vdi_window(0));
    for t in 1..=10 {
        rt.tick(None, vdi_window(0), stamp(t));
    }
    rt.tick(None, vdi_window(300_500), stamp(11));
    rt.tick(None, vdi_window(301_500), stamp(12));
    rt.recorder.flush().unwrap();
    let report = rt.recorder.report(&stamp(0).date()).unwrap();
    assert_eq!(report.vdi_ms, 10_500);
    assert_eq!(report.idle_ms, 1_500);
}

#[test]
fn locking_the_session_is_inactivity() {
    let mut rt = started(vdi_window(0));
    rt.tick(None, vdi_window(0), stamp(1));
    rt.tick(Some(PlatformEvent::Locked(true)), vdi_window(0), stamp(2));
    assert!(rt.locked);
    let status = rt.status(2_000);
    assert_eq!(status.activity.source, "idle");
    assert_eq!(status.activity.reason, "session_locked");
    rt.tick(Some(PlatformEvent::Suspended(true)), vdi_window(0), stamp(3));
    assert_eq!(rt.status(3_000).activity.source, "unobserved");
    rt.tick(Some(PlatformEvent::Failure), vdi_window(0), stamp(4));
    assert!(rt.warning.is_some());
}

#[test]
fn a_silent_extension_stops_the_domain_at_its_last_confirmation() {
    let mut rt = started(chrome());
    let generation = handle(&mut rt, Message::Hello { version: 1 }, stamp(1), chrome()).generation;
    let state = |sequence: u64| Message::BrowserState {
        generation,
        sequence,
        focused: true,
        hostname: Some("example.org".into()),
        tab_id: Some(1),
        window_id: Some(1),
        system: false,
    };
    handle(&mut rt, state(1), stamp(2), chrome());
    for t in 3..=6 {
        rt.tick(None, chrome(), stamp(t));
    }
    handle(&mut rt, state(2), stamp(7), chrome());
    for t in 8..=17 {
        rt.tick(None, chrome(), stamp(t));
    }
    assert_eq!(rt.status(17_000).activity.source, "browser");
    rt.tick(None, chrome(), stamp(18));
    assert!(rt.browser.is_none());
    let report = rt.recorder.report(&stamp(0).date()).unwrap();
    assert_eq!(report.domains[0].hostname, "example.org");
    assert_eq!(report.domains[0].duration_ms, 5_000);
    assert_eq!(report.domains[0].accesses, 1);
    assert_eq!(report.app_totals.len(), 1);
    assert_eq!(report.app_totals[0].label, "Google Chrome");
    assert_eq!(report.app_totals[0].duration_ms, 5_000);
    assert_eq!(report.app_totals[0].category, "local");
    assert_eq!(report.unidentified_ms, 13_000);
    assert!(report
        .sessions
        .iter()
        .any(|s| s.activity.source == "unknown" && s.activity.reason == "extension_unavailable"));
}

#[test]
fn the_idle_limit_is_between_one_and_sixty_minutes() {
    let mut rt = started(vdi_window(0));
    assert_eq!(rt.set_idle_minutes(0).unwrap_err(), "Escolha entre 1 e 60 minutos.");
    assert_eq!(rt.set_idle_minutes(61).unwrap_err(), "Escolha entre 1 e 60 minutos.");
    rt.set_idle_minutes(10).unwrap();
    assert_eq!(rt.settings.idle_minutes, 10);
    assert!(rt.recorder.activity().is_none());
}

#[test]
fn deleting_pauses_and_removes_the_day() {
    let mut rt = started(vdi_window(0));
    for t in 1..=5 {
        rt.tick(None, vdi_window(0), stamp(t));
    }
    let day = stamp(0).date();
    assert_eq!(
        rt.delete(Some("2026-99-99"), stamp(6), vdi_window(0)).unwrap_err(),
        "Data inválida."
    );
    assert!(rt.settings.paused);
    rt.delete(Some(&day), stamp(7), vdi_window(0)).unwrap();
    assert!(rt.settings.paused);
    let report = rt.recorder.report(&day).unwrap();
    assert_eq!(report.coverage_ms, 0);
    assert!(report.sessions.is_empty());
    rt.tick(None, vdi_window(0), stamp(8));
    assert!(rt.recorder.activity().is_none());
}

#[test]
fn shutting_down_closes_and_marks_a_clean_exit() {
    let mut rt = started(vdi_window(0));
    rt.tick(None, vdi_window(0), stamp(1));
    rt.shutdown();
    assert!(rt.shutting_down);
    assert!(rt.recorder.store.checkpoint().unwrap().clean_exit);
    assert!(rt.recorder.activity().is_none());
    rt.tick(None, vdi_window(0), stamp(2));
    assert!(rt.recorder.activity().is_none());
}

#[test]
fn export_stores_the_open_segment_first() {
    let mut rt = started(vdi_window(0));
    rt.tick(None, vdi_window(0), at_ms(1_000));
    rt.tick(None, vdi_window(0), at_ms(2_500));
    let report = rt.export_report(&stamp(0).date()).unwrap();
    assert_eq!(report.vdi_ms, 2_500);
    assert!(rt.export_report("2026-13-01").is_err());
}

#[test]
fn stamps_near_the_calendar_limits_are_refused() {
    assert!(clock_usable(&stamp(0)));
    assert!(!clock_usable(&Stamp { utc: i64::MAX, mono: 0, offset: 0 }));
    assert!(!clock_usable(&Stamp { utc: 0, mono: u64::MAX, offset: 0 }));
}

#[test]
fn a_failed_start_is_reported_as_paused_storage() {
    let issue = caixa_preta::runtime::StartupIssue {
        message: "Não foi possível abrir o banco local.".into(),
        path: "C:\\data.sqlite3".into(),
    };
    let status = caixa_preta::runtime::startup_status(&issue);
    assert!(status.settings.paused);
    assert_eq!(status.activity.source, "paused");
    assert_eq!(status.activity.reason, "storage_unavailable");
    assert_eq!(status.error.as_deref(), Some("Não foi possível abrir o banco local."));
    assert_eq!(status.data_path, "C:\\data.sqlite3");
    assert!(!status.extension_connected);
}

#[test]
fn a_storage_failure_stops_recording_once() {
    let mut rt = started(vdi_window(0));
    let generation = rt.generation;
    rt.storage_failed("disk I/O error");
    assert_eq!(
        rt.error.as_deref(),
        Some("Não foi possível gravar a atividade: disk I/O error")
    );
    assert_eq!(rt.generation, generation + 1);
    rt.storage_failed("again");
    assert_eq!(rt.generation, generation + 1);
    assert_eq!(
        rt.pause(false, stamp(1), vdi_window(0)).unwrap_err(),
        "Resolva o erro de gravação antes de retomar. Feche e reabra o aplicativo para tentar novamente."
    );
    rt.tick(None, vdi_window(0), stamp(2));
    assert_eq!(rt.status(2_000).activity.source, "vdi");
}

#[test]
fn losing_the_extension_ends_its_domain_at_the_last_confirmation() {
    let mut rt = started(chrome());
    let generation = handle(&mut rt, Message::Hello { version: 1 }, stamp(1), chrome()).generation;
    let state = Message::BrowserState {
        generation,
        sequence: 1,
        focused: true,
        hostname: Some("example.org".into()),
        tab_id: Some(1),
        window_id: Some(1),
        system: false,
    };
    handle(&mut rt, state, stamp(2), chrome());
    for t in 3..=6 {
        rt.tick(None, chrome(), stamp(t));
    }
    rt.browser_disconnected();
    assert!(rt.browser.is_none());
    assert_eq!(rt.last_poll, None);
    rt.recorder.flush().unwrap();
    let report = rt.recorder.report(&stamp(0).date()).unwrap();
    assert_eq!(report.domains[0].duration_ms, 0);
    assert_eq!(
        rt.recorder.activity().unwrap().reason,
        "extension_unavailable"
    );
    assert_eq!(rt.recorder.activity().unwrap().source, "unknown");
}

#[test]
fn exports_go_only_to_json_files() {
    assert!(export_path_allowed("C:\\Users\\ana\\dia.json"));
    assert!(export_path_allowed("/tmp/dia.JSON"));
    assert!(export_path_allowed("/tmp/dia.Json/"));
    assert!(export_path_allowed("/tmp/..json"));
    assert!(!export_path_allowed("/tmp/dia.txt"));
    assert!(!export_path_allowed("/tmp/.json"));
    assert!(!export_path_allowed("/tmp/dia.json.bak"));
    assert!(!export_path_allowed("/tmp/json"));
    assert!(!export_path_allowed("/tmp.json/dia"));
    assert!(!export_path_allowed(""));
}
