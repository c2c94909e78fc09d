use caixa_preta::sessions::Activity;
use caixa_preta::store::VdiIdentity;
use caixa_preta::tracker::{capture_vdi, describe_window, friendly_app_name, resolve, Foreground};

fn fg(exe: &str, idle: Option<u64>) -> Foreground {
    Foreground {
        hwnd: 1,
        identity: Some(VdiIdentity {
            executable: exe.into(),
            window_class: "session".into(),
        }),
        app_name: Some(friendly_app_name(exe)),
        idle_ms: idle,
    }
}

#[test]
fn focus_and_idle_have_explicit_precedence() {
    let remote = fg("WindowsApp/msrdc.exe", Some(0));
    let vdi = remote.identity.as_ref();
    assert_eq!(
        resolve(&remote, vdi, false, false, false, 300_000).source,
        "vdi"
    );
    assert_eq!(
        resolve(&fg("chrome.exe", Some(0)), vdi, false, false, false, 300_000)
            .app_name
            .as_deref(),
        Some("Google Chrome")
    );
    assert_eq!(resolve(&remote, vdi, true, true, true, 300_000).source, "paused");
    assert_eq!(resolve(&remote, vdi, false, true, false, 300_000).source, "idle");
    assert_eq!(
        resolve(
            &fg("WindowsApp/msrdc.exe", Some(300_000)),
            vdi,
            false,
            false,
            false,
            300_000
        )
        .source,
        "idle"
    );
    assert_eq!(
        resolve(&fg("WindowsApp/msrdc.exe", None), vdi, false, false, false, 300_000).source,
        "unknown"
    );
}

#[test]
fn same_executable_different_class_is_not_vdi() {
    let remote = fg("WindowsApp/msrdc.exe", Some(0));
    let mut launcher = remote.clone();
    launcher.identity.as_mut().unwrap().window_class = "launcher".into();
    assert_ne!(
        resolve(&launcher, remote.identity.as_ref(), false, false, false, 300_000).source,
        "vdi"
    );
}

#[test]
fn local_apps_use_a_readable_name_without_window_content() {
    assert_eq!(
        resolve(&fg("LeagueClientUx.exe", Some(0)), None, false, false, false, 300_000),
        Activity::app("League of Legends".into(), "foreground_app")
    );
    assert_eq!(
        resolve(&fg("ChatGPT.exe", Some(0)), None, false, false, false, 300_000)
            .app_name
            .as_deref(),
        Some("ChatGPT")
    );
}

#[test]
fn suspension_is_unobserved_and_this_application_is_system() {
    let remote = fg("WindowsApp/msrdc.exe", Some(0));
    let suspended = resolve(&remote, remote.identity.as_ref(), false, true, true, 300_000);
    assert_eq!((suspended.source.as_str(), suspended.reason.as_str()), ("unobserved", "suspended"));
    let own = resolve(&fg("caixa-preta-do-dia.exe", Some(0)), None, false, false, false, 300_000);
    assert_eq!(own.source, "system");
    assert_eq!(own.reason, "app");
    assert_eq!(own.app_name.as_deref(), Some("Caixa Preta do Dia"));
    let mut nameless = fg("notepad.exe", Some(0));
    nameless.app_name = None;
    assert_eq!(
        resolve(&nameless, None, false, false, false, 300_000).reason,
        "unidentified_window"
    );
    let mut unknown = fg("notepad.exe", Some(0));
    unknown.identity = None;
    assert_eq!(resolve(&unknown, None, false, false, false, 300_000).source, "unknown");
    let unavailable = resolve(&fg("notepad.exe", None), None, false, false, false, 300_000);
    assert_eq!(unavailable.reason, "input_unavailable");
}

#[test]
fn readable_names_strip_the_suffix_and_separators() {
    assert_eq!(friendly_app_name("my_tool-x.exe"), "my tool x");
    assert_eq!(friendly_app_name("EDITOR.EXE"), "EDITOR");
    assert_eq!(friendly_app_name("Mixed.Exe"), "Mixed.Exe");
    assert_eq!(friendly_app_name("CHROME.EXE"), "Google Chrome");
    assert_eq!(friendly_app_name("msrdc.exe"), "Windows App");
    assert_eq!(friendly_app_name("League of Legends.exe"), "League of Legends");
    assert_eq!(friendly_app_name("LeagueClient.exe"), "League of Legends");
    assert_eq!(friendly_app_name("caixa-preta-do-dia.exe"), "Caixa Preta do Dia");
}

#[test]
fn window_identity_marks_the_windows_app_package() {
    let (identity, name) = describe_window(
        "C:\\Program Files\\WindowsApps\\MicrosoftCorporationII.Windows365_2.0.1375.0_x64__8wekyb3d8bbwe\\msrdc\\msrdc.exe",
        "TscShellContainerClass",
    );
    assert_eq!(identity.executable, "WindowsApp/msrdc.exe");
    assert_eq!(identity.window_class, "TscShellContainerClass");
    assert_eq!(name, "Windows App");
    let (other, name) = describe_window("C:\\Windows\\System32\\mstsc\\MSRDC.EXE", "x");
    assert_eq!(other.executable, "msrdc.exe");
    assert_eq!(name, "Windows App");
    let (chrome, name) = describe_window("C:\\Program Files\\Google\\Chrome\\Application\\Chrome.exe", "Chrome_WidgetWin_1");
    assert_eq!(chrome.executable, "chrome.exe");
    assert_eq!(name, "Google Chrome");
    let (bare, name) = describe_window("tool_x.exe", "c");
    assert_eq!(bare.executable, "tool_x.exe");
    assert_eq!(name, "tool x");
}

#[test]
fn capturing_the_vdi_needs_the_remote_session_window() {
    let mut sample = fg("WindowsApp/msrdc.exe", Some(0));
    sample.identity.as_mut().unwrap().window_class = "TscShellContainerClass".into();
    let identity = capture_vdi(&sample).unwrap();
    assert_eq!(identity.window_class, "TscShellContainerClass");
    let launcher = fg("WindowsApp/msrdc.exe", Some(0));
    assert_eq!(
        capture_vdi(&launcher).unwrap_err(),
        "Coloque a janela da sessão remota do Windows App em foco, não a tela de conexões, e tente novamente."
    );
    let mut none = launcher.clone();
    none.identity = None;
    assert_eq!(
        capture_vdi(&none).unwrap_err(),
        "Não foi possível identificar a janela em foco."
    );
}
