//! What the foreground window is: its identity, a readable name for it, and
//! which activity it stands for under the precedence of pause, suspension,
//! lock, inactivity, the VDI, this application and other applications.
use crate::sessions::{Activity, ActivityView};
use crate::store::{identity_eq, opt_identity, VdiIdentity, VdiIdentityView};
use crate::text::{chars_contains, chars_of, contains_seq, opt_clone, opt_view, owned, str_eq, string_from_chars};
use vstd::prelude::*;

verus! {

/// What was sampled of the foreground window: its handle, its identity, a
/// readable application name, and the milliseconds since the last input when
/// the system reported them.
#[derive(Debug)]
pub struct Foreground {
    pub hwnd: usize,
    pub identity: Option<VdiIdentity>,
    pub app_name: Option<String>,
    pub idle_ms: Option<u64>,
}

/// The mathematical value of a [`Foreground`].
pub struct ForegroundView {
    pub hwnd: usize,
    pub identity: Option<VdiIdentityView>,
    pub app_name: Option<Seq<char>>,
    pub idle_ms: Option<u64>,
}

impl View for Foreground {
    type V = ForegroundView;

    open spec fn view(&self) -> ForegroundView {
        ForegroundView {
            hwnd: self.hwnd,
            identity: opt_identity(self.identity),
            app_name: opt_view(self.app_name),
            idle_ms: self.idle_ms,
        }
    }
}

impl Clone for Foreground {
    fn clone(&self) -> (r: Self)
        ensures
            r@ == self@,
    {
        Foreground {
            hwnd: self.hwnd,
            identity: match &self.identity {
                Some(i) => Some(i.clone()),
                None => None,
            },
            app_name: opt_clone(&self.app_name),
            idle_ms: self.idle_ms,
        }
    }
}

/// A notification from the system.
#[derive(Clone, Copy, Debug)]
pub enum PlatformEvent {
    /// The foreground window changed.
    Focus,
    /// The session was locked or unlocked.
    Locked(bool),
    /// The computer is suspending or resumed.
    Suspended(bool),
    /// The notifications could not be set up.
    Failure,
}

/// An ASCII uppercase letter in lowercase; any other character unchanged.
pub open spec fn lower_char(c: char) -> char {
    if 'A' <= c && c <= 'Z' {
        ((c as u32) + 32) as char
    } else {
        c
    }
}

/// The text with ASCII letters in lowercase.
pub open spec fn ascii_lower(s: Seq<char>) -> Seq<char> {
    s.map_values(|c: char| lower_char(c))
}

/// The text after the last `sep`, or all of it when there is none.
pub open spec fn after_last(s: Seq<char>, sep: char) -> Seq<char>
    decreases s.len(),
{
    if s.len() == 0 {
        s
    } else if s.last() == sep {
        Seq::empty()
    } else {
        after_last(s.drop_last(), sep).push(s.last())
    }
}

/// The text without a trailing `.exe` or `.EXE`.
pub open spec fn strip_exe(s: Seq<char>) -> Seq<char> {
    if s.len() >= 4 && (s.subrange(s.len() - 4, s.len() as int) == seq!['.', 'e', 'x', 'e']
        || s.subrange(s.len() - 4, s.len() as int) == seq!['.', 'E', 'X', 'E']) {
        s.subrange(0, s.len() - 4)
    } else {
        s
    }
}

/// Underscores and hyphens become spaces.
pub open spec fn spaced(s: Seq<char>) -> Seq<char> {
    s.map_values(|c: char| if c == '_' || c == '-' { ' ' } else { c })
}

/// The readable name of an executable: known programs by their product name,
/// any other without its `.exe` suffix and with underscores and hyphens as
/// spaces.
pub open spec fn friendly_name(executable: Seq<char>) -> Seq<char> {
    let l = ascii_lower(executable);
    if l == "leagueclient.exe"@ || l == "leagueclientux.exe"@ || l == "league of legends.exe"@ {
        "League of Legends"@
    } else if l == "chatgpt.exe"@ {
        "ChatGPT"@
    } else if l == "chrome.exe"@ {
        "Google Chrome"@
    } else if l == "msrdc.exe"@ {
        "Windows App"@
    } else if l == "caixa-preta-do-dia.exe"@ {
        "Caixa Preta do Dia"@
    } else {
        spaced(strip_exe(executable))
    }
}

fn lower(c: char) -> (r: char)
    ensures
        r == lower_char(c),
{
    if 'A' <= c && c <= 'Z' {
        ((c as u8) + 32) as char
    } else {
        c
    }
}

fn lower_all(v: &Vec<char>) -> (r: Vec<char>)
    ensures
        r@ == ascii_lower(v@),
{
    let mut r: Vec<char> = Vec::new();
    let mut i: usize = 0;
    while i < v.len()
        invariant
            i <= v.len(),
            r@ == ascii_lower(v@.take(i as int)),
        decreases v.len() - i,
    {
        r.push(lower(v[i]));
        proof {
            assert(ascii_lower(v@.take(i + 1)) =~= ascii_lower(v@.take(i as int)).push(lower_char(v@[i as int])));
        }
        i = i + 1;
    }
    proof {
        assert(v@.take(v.len() as int) =~= v@);
    }
    r
}

fn strip_exe_chars(v: &Vec<char>) -> (r: Vec<char>)
    ensures
        r@ == strip_exe(v@),
{
    let n = v.len();
    let tail = n >= 4 && v[n - 4] == '.' && ((v[n - 3] == 'e' && v[n - 2] == 'x' && v[n - 1] == 'e') || (
    v[n - 3] == 'E' && v[n - 2] == 'X' && v[n - 1] == 'E'));
    proof {
        if n >= 4 {
            let t = v@.subrange(n - 4, n as int);
            assert(t.len() == 4 && t[0] == v@[n - 4] && t[1] == v@[n - 3] && t[2] == v@[n - 2] && t[3] == v@[n - 1]);
            if t == seq!['.', 'e', 'x', 'e'] || t == seq!['.', 'E', 'X', 'E'] {
                assert(tail);
            }
            if tail {
                if v@[n - 3] == 'e' {
                    assert(t =~= seq!['.', 'e', 'x', 'e']);
                } else {
                    assert(t =~= seq!['.', 'E', 'X', 'E']);
                }
            }
        }
    }
    let keep = if tail { n - 4 } else { n };
    let mut r: Vec<char> = Vec::new();
    let mut i: usize = 0;
    while i < keep
        invariant
            keep <= v.len(),
            i <= keep,
            r@ == v@.take(i as int),
        decreases keep - i,
    {
        r.push(v[i]);
        proof {
            assert(v@.take(i + 1) =~= v@.take(i as int).push(v@[i as int]));
        }
        i = i + 1;
    }
    proof {
        assert(v@.take(keep as int) =~= v@.subrange(0, keep as int));
        if !tail {
            assert(v@.take(keep as int) =~= v@);
        }
    }
    r
}

fn spaced_chars(v: &Vec<char>) -> (r: Vec<char>)
    ensures
        r@ == spaced(v@),
{
    let mut r: Vec<char> = Vec::new();
    let mut i: usize = 0;
    while i < v.len()
        invariant
            i <= v.len(),
            r@ == spaced(v@.take(i as int)),
        decreases v.len() - i,
    {
        let c = v[i];
        r.push(if c == '_' || c == '-' { ' ' } else { c });
        proof {
            assert(spaced(v@.take(i + 1)) =~= spaced(v@.take(i as int)).push(
                if c == '_' || c == '-' { ' ' } else { c },
            ));
        }
        i = i + 1;
    }
    proof {
        assert(v@.take(v.len() as int) =~= v@);
    }
    r
}

/// See [`friendly_name`].
pub fn friendly_app_name(executable: &str) -> (r: String)
    ensures
        r@ == friendly_name(executable@),
{
    let v = chars_of(executable);
    let l = string_from_chars(&lower_all(&v));
    let s = l.as_str();
    if str_eq(s, "leagueclient.exe") || str_eq(s, "leagueclientux.exe") || str_eq(s, "league of legends.exe") {
        owned("League of Legends")
    } else if str_eq(s, "chatgpt.exe") {
        owned("ChatGPT")
    } else if str_eq(s, "chrome.exe") {
        owned("Google Chrome")
    } else if str_eq(s, "msrdc.exe") {
        owned("Windows App")
    } else if str_eq(s, "caixa-preta-do-dia.exe") {
        owned("Caixa Preta do Dia")
    } else {
        string_from_chars(&spaced_chars(&strip_exe_chars(&v)))
    }
}


/// The identity of a window from its executable's full path and its class: the
/// executable is the path's last component in lowercase, except that the
/// Windows App's `msrdc.exe`, recognised by its package directory, is
/// `WindowsApp/msrdc.exe`; with it the readable name of the executable.
pub open spec fn window_identity(path: Seq<char>, class: Seq<char>) -> (VdiIdentityView, Seq<char>) {
    let name = after_last(path, '\\');
    let exe = ascii_lower(name);
    let executable = if exe == "msrdc.exe"@ && contains_seq(ascii_lower(path), "microsoftcorporationii.windows365_"@) {
        "WindowsApp/msrdc.exe"@
    } else {
        exe
    };
    (VdiIdentityView { executable, window_class: class }, friendly_name(name))
}

fn last_component(v: &Vec<char>) -> (r: Vec<char>)
    ensures
        r@ == after_last(v@, '\\'),
{
    let mut r: Vec<char> = Vec::new();
    let mut i: usize = 0;
    while i < v.len()
        invariant
            i <= v.len(),
            r@ == after_last(v@.take(i as int), '\\'),
        decreases v.len() - i,
    {
        proof {
            assert(v@.take(i + 1).drop_last() =~= v@.take(i as int));
            assert(v@.take(i + 1).last() == v@[i as int]);
        }
        if v[i] == '\\' {
            r = Vec::new();
            proof {
                assert(r@ =~= Seq::<char>::empty());
            }
        } else {
            r.push(v[i]);
        }
        i = i + 1;
    }
    proof {
        assert(v@.take(v.len() as int) =~= v@);
    }
    r
}

/// See [`window_identity`].
pub fn describe_window(path: &str, class: &str) -> (r: (VdiIdentity, String))
    ensures
        (r.0@, r.1@) == window_identity(path@, class@),
{
    let v = chars_of(path);
    let name = last_component(&v);
    let exe = string_from_chars(&lower_all(&name));
    let marker = chars_of("microsoftcorporationii.windows365_");
    let packaged = str_eq(exe.as_str(), "msrdc.exe") && chars_contains(&lower_all(&v), &marker);
    let executable = if packaged { owned("WindowsApp/msrdc.exe") } else { exe };
    let name_text = string_from_chars(&name);
    (VdiIdentity { executable, window_class: owned(class) }, friendly_app_name(name_text.as_str()))
}

/// The identity of the remote session window when the sampled foreground is
/// one: the Windows App's `msrdc.exe` with the class `TscShellContainerClass`.
/// Refused: no identity was sampled, or another window is in focus.
pub fn capture_vdi(sample: &Foreground) -> (r: Result<VdiIdentity, String>)
    ensures
        match opt_identity(sample.identity) {
            None => r matches Err(e) && e@ == "Não foi possível identificar a janela em foco."@,
            Some(i) => if i.executable == "WindowsApp/msrdc.exe"@ && i.window_class == "TscShellContainerClass"@ {
                r matches Ok(c) && c@ == i
            } else {
                r matches Err(e) && e@
                    == "Coloque a janela da sessão remota do Windows App em foco, não a tela de conexões, e tente novamente."@
            },
        },
{
    match &sample.identity {
        None => Err(owned("Não foi possível identificar a janela em foco.")),
        Some(candidate) => {
            if !str_eq(candidate.executable.as_str(), "WindowsApp/msrdc.exe") || !str_eq(
                candidate.window_class.as_str(),
                "TscShellContainerClass",
            ) {
                Err(
                    owned(
                        "Coloque a janela da sessão remota do Windows App em foco, não a tela de conexões, e tente novamente.",
                    ),
                )
            } else {
                Ok(candidate.clone())
            }
        },
    }
}

/// An activity with no hostname nor application.
pub open spec fn plain(source: Seq<char>, reason: Seq<char>) -> ActivityView {
    ActivityView { source, hostname: None, app_name: None, reason }
}

/// The view of an optional identity reference.
pub open spec fn opt_identity_ref(o: Option<&VdiIdentity>) -> Option<VdiIdentityView> {
    match o {
        Some(i) => Some(i@),
        None => None,
    }
}

/// The activity the foreground stands for, by precedence: a pause, a
/// suspension (unobserved), a lock (idle), unavailable input (unknown), input
/// older than the limit (idle), the configured VDI, this application (system),
/// another application by its name, and an unidentified window (unknown).
pub open spec fn resolve_spec(
    fg: ForegroundView,
    vdi: Option<VdiIdentityView>,
    paused: bool,
    locked: bool,
    suspended: bool,
    idle_limit: u64,
) -> ActivityView {
    if paused {
        plain("paused"@, "manual_pause"@)
    } else if suspended {
        plain("unobserved"@, "suspended"@)
    } else if locked {
        plain("idle"@, "session_locked"@)
    } else {
        match fg.idle_ms {
            None => plain("unknown"@, "input_unavailable"@),
            Some(idle) => if idle >= idle_limit {
                plain("idle"@, "no_input"@)
            } else {
                match fg.identity {
                    Some(id) => if vdi == Some(id) {
                        plain("vdi"@, ""@)
                    } else if id.executable == "caixa-preta-do-dia.exe"@ {
                        ActivityView { app_name: fg.app_name, ..plain("system"@, "app"@) }
                    } else {
                        match fg.app_name {
                            Some(n) => ActivityView { app_name: Some(n), ..plain("app"@, "foreground_app"@) },
                            None => plain("unknown"@, "unidentified_window"@),
                        }
                    },
                    None => plain("unknown"@, "unidentified_window"@),
                }
            },
        }
    }
}

/// See [`resolve_spec`].
pub fn resolve(
    fg: &Foreground,
    vdi: Option<&VdiIdentity>,
    paused: bool,
    locked: bool,
    suspended: bool,
    idle_limit: u64,
) -> (r: Activity)
    ensures
        r@ == resolve_spec(fg@, opt_identity_ref(vdi), paused, locked, suspended, idle_limit),
{
    if paused {
        return Activity::new("paused", "manual_pause");
    }
    if suspended {
        return Activity::new("unobserved", "suspended");
    }
    if locked {
        return Activity::new("idle", "session_locked");
    }
    match fg.idle_ms {
        None => return Activity::new("unknown", "input_unavailable"),
        Some(idle) => {
            if idle >= idle_limit {
                return Activity::new("idle", "no_input");
            }
        },
    }
    match &fg.identity {
        Some(identity) => {
            let is_vdi = match vdi {
                Some(v) => identity_eq(identity, v),
                None => false,
            };
            if is_vdi {
                Activity::new("vdi", "")
            } else if str_eq(identity.executable.as_str(), "caixa-preta-do-dia.exe") {
                let mut activity = Activity::new("system", "app");
                activity.app_name = opt_clone(&fg.app_name);
                activity
            } else {
                match &fg.app_name {
                    Some(name) => Activity::app(name.clone(), "foreground_app"),
                    None => Activity::new("unknown", "unidentified_window"),
                }
            }
        },
        None => Activity::new("unknown", "unidentified_window"),
    }
}

} // verus!
