//! The collector's state between ticks: settings, the last browser state, the
//! sampled foreground, lock and suspension, and the decisions taken on each
//! tick about what is recorded.
use crate::recorder::{
    close_spec, duration_fits, extension_unavailable, ids_suffice, mono_since, observe_spec, rec_wf, stamp_ok, start_spec,
    truncate_browser_spec, truncate_ok, Recorder, RecorderView,
};
use crate::sessions::{Activity, ActivityView, Stamp, CALENDAR_MAX_UTC, CALENDAR_MIN_UTC, DAY_MS};
use crate::store::{
    default_settings, delete_spec, opt_str, saved_settings_spec, store_wf, Settings, SettingsView, Store, StoreView,
    VdiIdentity,
};
use crate::text::{chars_of, opt_clone, opt_view, owned, push_str, str_eq};
use crate::tracker::{resolve, resolve_spec, Foreground, ForegroundView, PlatformEvent};
use vstd::prelude::*;

verus! {

/// A browser state older than this, on the monotonic clock, is no longer trusted.
pub const BROWSER_TIMEOUT_MS: u64 = 10_000;

/// The last state the browser extension reported.
#[derive(Debug)]
pub struct BrowserState {
    pub generation: u64,
    pub sequence: u64,
    pub focused: bool,
    pub hostname: Option<String>,
    pub tab_key: Option<String>,
    pub system: bool,
    pub confirmed: Stamp,
}

/// The mathematical value of a [`BrowserState`].
pub struct BrowserView {
    pub generation: u64,
    pub sequence: u64,
    pub focused: bool,
    pub hostname: Option<Seq<char>>,
    pub tab_key: Option<Seq<char>>,
    pub system: bool,
    pub confirmed: Stamp,
}

impl View for BrowserState {
    type V = BrowserView;

    open spec fn view(&self) -> BrowserView {
        BrowserView {
            generation: self.generation,
            sequence: self.sequence,
            focused: self.focused,
            hostname: opt_view(self.hostname),
            tab_key: opt_view(self.tab_key),
            system: self.system,
            confirmed: self.confirmed,
        }
    }
}

impl Clone for BrowserState {
    fn clone(&self) -> (r: Self)
        ensures
            r@ == self@,
    {
        BrowserState {
            generation: self.generation,
            sequence: self.sequence,
            focused: self.focused,
            hostname: opt_clone(&self.hostname),
            tab_key: opt_clone(&self.tab_key),
            system: self.system,
            confirmed: self.confirmed,
        }
    }
}

/// What the window and the tray show of the collector.
#[derive(Debug)]
pub struct Status {
    pub settings: Settings,
    pub activity: Activity,
    pub error: Option<String>,
    pub warning: Option<String>,
    pub extension_connected: bool,
    pub vdi_in_focus: bool,
    pub last_saved_utc: Option<i64>,
    pub data_path: String,
}

/// The collector.
pub struct Runtime {
    pub recorder: Recorder,
    pub settings: Settings,
    pub error: Option<String>,
    pub warning: Option<String>,
    pub browser: Option<BrowserState>,
    pub generation: u64,
    pub last_sequence: u64,
    /// The monotonic instant of the extension's last message.
    pub last_poll: Option<u64>,
    pub foreground: Foreground,
    pub locked: bool,
    pub suspended: bool,
    pub data_path: String,
    pub shutting_down: bool,
}

/// The mathematical value of the [`Runtime`].
pub struct RuntimeView {
    pub recorder: RecorderView,
    pub settings: SettingsView,
    pub error: Option<Seq<char>>,
    pub warning: Option<Seq<char>>,
    pub browser: Option<BrowserView>,
    pub generation: u64,
    pub last_sequence: u64,
    pub last_poll: Option<u64>,
    pub foreground: ForegroundView,
    pub locked: bool,
    pub suspended: bool,
    pub data_path: Seq<char>,
    pub shutting_down: bool,
}

impl View for Runtime {
    type V = RuntimeView;

    open spec fn view(&self) -> RuntimeView {
        RuntimeView {
            recorder: self.recorder@,
            settings: self.settings@,
            error: opt_view(self.error),
            warning: opt_view(self.warning),
            browser: match self.browser {
                Some(b) => Some(b@),
                None => None,
            },
            generation: self.generation,
            last_sequence: self.last_sequence,
            last_poll: self.last_poll,
            foreground: self.foreground@,
            locked: self.locked,
            suspended: self.suspended,
            data_path: self.data_path@,
            shutting_down: self.shutting_down,
        }
    }
}

/// The collector is well formed: its recorder is, and a browser state carries a
/// usable stamp.
pub open spec fn runtime_wf(r: RuntimeView) -> bool {
    &&& rec_wf(r.recorder)
    &&& match r.browser {
        Some(b) => stamp_ok(b.confirmed),
        None => true,
    }
}

/// A stamp a tick can work with: usable, and still usable one second earlier.
pub open spec fn clock_ok(at: Stamp) -> bool {
    &&& stamp_ok(at)
    &&& CALENDAR_MIN_UTC + 3 * DAY_MS + 1_000 <= at.utc
}

/// See [`clock_ok`].
pub fn clock_usable(at: &Stamp) -> (r: bool)
    ensures
        r == clock_ok(*at),
{
    CALENDAR_MIN_UTC + 3 * (DAY_MS as i64) + 1_000 <= at.utc && at.utc <= CALENDAR_MAX_UTC - 3 * (DAY_MS as i64)
        && at.mono <= crate::recorder::MONO_LIMIT
}

/// The browser state is forgotten and later messages must carry the next generation.
pub open spec fn invalidated(r: RuntimeView) -> RuntimeView {
    RuntimeView {
        generation: if r.generation == u64::MAX {
            0
        } else {
            (r.generation + 1) as u64
        },
        browser: None,
        last_sequence: 0,
        ..r
    }
}

/// The inactivity limit of the settings, in milliseconds.
pub open spec fn idle_limit(s: SettingsView) -> u64 {
    (s.idle_minutes * 60_000) as u64
}

/// Google Chrome is the foreground application.
pub open spec fn chrome_in_focus(fg: ForegroundView) -> bool {
    fg.identity matches Some(i) && i.executable == "chrome.exe"@
}

/// The browser state belongs to the current generation, is recent and says the
/// browser window has the focus.
pub open spec fn browser_fresh(b: BrowserView, generation: u64, at: Stamp) -> bool {
    b.generation == generation && mono_since(at.mono, b.confirmed.mono) <= BROWSER_TIMEOUT_MS && b.focused
}

/// A focused tab on `host` in Google Chrome.
pub open spec fn browser_activity(host: Seq<char>) -> ActivityView {
    ActivityView { source: "browser"@, hostname: Some(host), app_name: Some("Google Chrome"@), reason: Seq::empty() }
}

/// An internal page of Google Chrome.
pub open spec fn browser_internal() -> ActivityView {
    ActivityView { source: "system"@, hostname: None, app_name: Some("Google Chrome"@), reason: "browser_internal"@ }
}

/// The activity and tab observed at `at`: what the foreground stands for, where
/// a fresh browser state refines Google Chrome into a tab on a domain or an
/// internal page, and Google Chrome without one is unknown time, the extension
/// being unavailable.
pub open spec fn observed_activity(r: RuntimeView, at: Stamp) -> (ActivityView, Option<Seq<char>>) {
    let a = resolve_spec(r.foreground, r.settings.vdi, r.settings.paused, r.locked, r.suspended, idle_limit(r.settings));
    if chrome_in_focus(r.foreground) && a.source == "app"@ {
        match r.browser {
            Some(b) => if browser_fresh(b, r.generation, at) {
                match b.hostname {
                    Some(h) => (browser_activity(h), b.tab_key),
                    None => if b.system {
                        (browser_internal(), None)
                    } else {
                        (a, None)
                    },
                }
            } else {
                (extension_unavailable(), None)
            },
            None => (extension_unavailable(), None),
        }
    } else {
        (a, None)
    }
}

/// The browser state is too old.
pub open spec fn browser_expired(r: RuntimeView, at: Stamp) -> bool {
    r.browser matches Some(b) && mono_since(at.mono, b.confirmed.mono) > BROWSER_TIMEOUT_MS
}

/// A stale browser connection stops being assigned at its last confirmed
/// observation, and is forgotten.
pub open spec fn after_expiry(r: RuntimeView, at: Stamp) -> RuntimeView {
    if browser_expired(r, at) {
        invalidated(RuntimeView { recorder: truncate_browser_spec(r.recorder, r.browser->0.confirmed), ..r })
    } else {
        r
    }
}

/// The smaller of two integers.
pub open spec fn min_of(a: int, b: int) -> int {
    if a < b {
        a
    } else {
        b
    }
}

/// When inactivity begins after other activity, the instant the limit was
/// reached, at most one second before `at`.
pub open spec fn idle_boundary(r: RuntimeView, at: Stamp, a: ActivityView) -> Option<Stamp> {
    if a.source == "idle"@ && a.reason == "no_input"@ && (r.recorder.current matches Some(c) && c.activity.source
        != "idle"@) {
        let limit = idle_limit(r.settings);
        let idle = match r.foreground.idle_ms {
            Some(i) => i,
            None => limit,
        };
        let excess = min_of(if idle > limit { idle - limit } else { 0 }, 1_000);
        Some(Stamp { utc: (at.utc - excess) as i64, mono: mono_since(at.mono, excess as u64) as u64, offset: at.offset })
    } else {
        None
    }
}

/// One recording step at `at`: nothing while paused with no open segment;
/// otherwise the stale browser time is cut, the idle boundary observed, and the
/// current activity observed.
pub open spec fn record_spec(r: RuntimeView, at: Stamp) -> RuntimeView {
    if r.settings.paused && r.recorder.current is None {
        r
    } else {
        let (a, tab) = observed_activity(r, at);
        let r1 = after_expiry(r, at);
        let rec = match idle_boundary(r1, at, a) {
            Some(b) => observe_spec(r1.recorder, b, a, None),
            None => r1.recorder,
        };
        RuntimeView { recorder: observe_spec(rec, at, a, tab), ..r1 }
    }
}


/// Observing `a` on `tab` at `at` can be done: the open segment's duration
/// fits and the store has the ids the observation needs.
pub open spec fn observe_ok(rec: RecorderView, at: Stamp, a: ActivityView, tab: Option<Seq<char>>) -> bool {
    duration_fits(rec, at) && ids_suffice(rec.store, observe_spec(rec, at, a, tab).store)
}

/// The recording step at `at` succeeds: the stale browser time can be cut and
/// each observation can be done.
pub open spec fn record_ok(r: RuntimeView, at: Stamp) -> bool {
    if r.settings.paused && r.recorder.current is None {
        true
    } else {
        let (a, tab) = observed_activity(r, at);
        let r1 = after_expiry(r, at);
        &&& (browser_expired(r, at) ==> truncate_ok(r.recorder, r.browser->0.confirmed))
        &&& match idle_boundary(r1, at, a) {
            Some(b) => observe_ok(r1.recorder, b, a, None) && observe_ok(observe_spec(r1.recorder, b, a, None), at, a, tab),
            None => observe_ok(r1.recorder, at, a, tab),
        }
    }
}

/// The warning shown when the system notifications could not be set up.
pub open spec fn notifications_warning() -> Seq<char> {
    "Notificações do Windows indisponíveis. Verifique foco, bloqueio e suspensão antes de confiar na coleta."@
}

/// The effect of a system notification: a lock or a suspension changes state
/// and forgets the browser; a failure sets the warning.
pub open spec fn event_spec(r: RuntimeView, e: Option<PlatformEvent>) -> RuntimeView {
    match e {
        Some(PlatformEvent::Locked(v)) => invalidated(RuntimeView { locked: v, ..r }),
        Some(PlatformEvent::Suspended(v)) => invalidated(RuntimeView { suspended: v, ..r }),
        Some(PlatformEvent::Failure) => RuntimeView { warning: Some(notifications_warning()), ..r },
        _ => r,
    }
}

/// A new foreground sample: a different window forgets the browser.
pub open spec fn sampled(r: RuntimeView, fresh: ForegroundView) -> RuntimeView {
    let r1 = if fresh.hwnd != r.foreground.hwnd {
        invalidated(r)
    } else {
        r
    };
    RuntimeView { foreground: fresh, ..r1 }
}

/// The text of a recording failure.
pub open spec fn record_failure(e: Seq<char>) -> Seq<char> {
    "Não foi possível gravar a atividade: "@ + e
}

/// `after` is what a tick makes of `before`: nothing once shutting down;
/// otherwise the event and the sample are applied and, unless an error is
/// pending, the step is recorded, or its failure becomes the error and the
/// browser is forgotten.
pub open spec fn ticked(before: RuntimeView, e: Option<PlatformEvent>, fresh: ForegroundView, at: Stamp, after: RuntimeView) -> bool {
    if before.shutting_down {
        after == before
    } else {
        let r0 = sampled(event_spec(before, e), fresh);
        if r0.error is Some {
            after == r0
        } else if record_ok(r0, at) {
            after == record_spec(r0, at)
        } else {
            ||| exists|msg: Seq<char>|
                after == invalidated(RuntimeView { recorder: after.recorder, error: Some(#[trigger] record_failure(msg)), ..r0 })
            ||| exists|msg: Seq<char>|
                after == invalidated(
                    RuntimeView { recorder: after.recorder, error: Some(#[trigger] record_failure(msg)), ..invalidated(r0) },
                )
        }
    }
}


/// The settings with the pause set and marked as configured, stored, and the
/// browser forgotten.
pub open spec fn with_pause(r: RuntimeView, paused: bool) -> RuntimeView {
    let s = SettingsView { paused, configured: true, ..r.settings };
    invalidated(
        RuntimeView {
            recorder: RecorderView { store: saved_settings_spec(r.recorder.store, s), ..r.recorder },
            settings: s,
            ..r
        },
    )
}

/// The message refusing to start without a configured VDI window.
pub open spec fn vdi_missing() -> Seq<char> {
    "Configure a janela da VDI antes de iniciar."@
}

/// The message refusing to resume while a recording error is pending.
pub open spec fn error_pending() -> Seq<char> {
    "Resolva o erro de gravação antes de retomar. Feche e reabra o aplicativo para tentar novamente."@
}



/// The state after the tick that pausing takes, when it records without error.
pub open spec fn paused_state(before: RuntimeView, at: Stamp, fresh: ForegroundView) -> RuntimeView {
    let p = with_pause(before, true);
    if p.shutting_down {
        p
    } else {
        record_spec(sampled(p, fresh), at)
    }
}

/// Deleting succeeds: no error is pending, the pausing tick records, the open
/// segment can then be stored, and the day, when given, is valid.
pub open spec fn delete_ok(before: RuntimeView, day: Option<&str>, at: Stamp, fresh: ForegroundView) -> bool {
    let p = with_pause(before, true);
    let mid = paused_state(before, at, fresh);
    &&& before.error is None
    &&& (p.shutting_down || record_ok(sampled(p, fresh), at))
    &&& !(mid.recorder.current matches Some(c) && c.id == 0 && mid.recorder.store.next_id == i64::MAX)
    &&& !(day matches Some(d) && !crate::sessions::spec_valid_day(d))
}

/// `after` is what deleting the data of `day`, or all of it, at `at` makes of
/// `before`: tracking is paused through a tick that records without error, the
/// open segment is closed, the browser forgotten and the rows deleted.
pub open spec fn deleted_from(
    before: RuntimeView,
    day: Option<Seq<char>>,
    at: Stamp,
    fresh: ForegroundView,
    after: RuntimeView,
) -> bool {
    exists|mid: RuntimeView|
        #[trigger] ticked(with_pause(before, true), None, fresh, at, mid) && mid.error is None && after == (RuntimeView {
            recorder: RecorderView { store: delete_spec(close_spec(mid.recorder).store, day), ..close_spec(mid.recorder) },
            ..invalidated(mid)
        })
}

/// A new collector over a store: recording starts as [`start_spec`] says, with
/// the stored settings, generation one and nothing else known.
pub open spec fn runtime_start(st: StoreView, at: Stamp, pid: u32, fg: ForegroundView, path: Seq<char>) -> RuntimeView {
    RuntimeView {
        recorder: start_spec(st, at, pid),
        settings: match st.settings {
            Some(s) => s,
            None => default_settings(),
        },
        error: None,
        warning: None,
        browser: None,
        generation: 1,
        last_sequence: 0,
        last_poll: None,
        foreground: fg,
        locked: false,
        suspended: false,
        data_path: path,
        shutting_down: false,
    }
}

impl Runtime {
    /// Forgets the browser state; the next messages must carry the next generation.
    pub fn invalidate_browser(&mut self)
        ensures
            final(self)@ == invalidated(old(self)@),
    {
        self.generation = if self.generation == u64::MAX {
            0
        } else {
            self.generation + 1
        };
        self.browser = None;
        self.last_sequence = 0;
    }
}


impl Runtime {
    /// Starts the collector over `store` at `at` for the process `pid`; see
    /// [`runtime_start`]. Refused as [`Recorder::new`] is.
    pub fn new(store: Store, at: Stamp, pid: u32, foreground: Foreground, data_path: String) -> (r: Result<Runtime, String>)
        requires
            store_wf(store@),
            stamp_ok(at),
        ensures
            r matches Ok(rt) ==> rt@ == runtime_start(store@, at, pid, foreground@, data_path@) && runtime_wf(rt@),
            r is Err ==> (store@.checkpoint matches Some(k) && k.confirmed_utc < at.utc),
            r is Ok <==> ids_suffice(store@, start_spec(store@, at, pid).store),
    {
        let settings = match store.settings() {
            Ok(s) => s,
            Err(e) => return Err(e),
        };
        let recorder = match Recorder::new(store, &at, pid) {
            Ok(rec) => rec,
            Err(e) => return Err(e),
        };
        Ok(
            Runtime {
                recorder,
                settings,
                error: None,
                warning: None,
                browser: None,
                generation: 1,
                last_sequence: 0,
                last_poll: None,
                foreground,
                locked: false,
                suspended: false,
                data_path,
                shutting_down: false,
            },
        )
    }

    fn observed(&self, at: Stamp) -> (r: (Activity, Option<String>))
        ensures
            (r.0@, opt_view(r.1)) == observed_activity(self@, at),
    {
        let limit: u64 = self.settings.idle_minutes as u64 * 60_000;
        let vdi: Option<&VdiIdentity> = match &self.settings.vdi {
            Some(v) => Some(v),
            None => None,
        };
        let mut activity = resolve(&self.foreground, vdi, self.settings.paused, self.locked, self.suspended, limit);
        let mut tab: Option<String> = None;
        let chrome = match &self.foreground.identity {
            Some(i) => str_eq(i.executable.as_str(), "chrome.exe"),
            None => false,
        };
        if chrome && str_eq(activity.source.as_str(), "app") {
            match &self.browser {
                Some(b) => {
                    let age: u64 = if at.mono >= b.confirmed.mono { at.mono - b.confirmed.mono } else { 0 };
                    if b.generation == self.generation && age <= BROWSER_TIMEOUT_MS && b.focused {
                        match &b.hostname {
                            Some(host) => {
                                activity = Activity::browser(host.clone());
                                tab = opt_clone(&b.tab_key);
                            },
                            None => {
                                if b.system {
                                    let mut internal = Activity::new("system", "browser_internal");
                                    internal.app_name = Some(owned("Google Chrome"));
                                    activity = internal;
                                }
                            },
                        }
                    } else {
                        activity = Activity::new("unknown", "extension_unavailable");
                    }
                },
                None => {
                    activity = Activity::new("unknown", "extension_unavailable");
                },
            }
        }
        (activity, tab)
    }

    fn expire_browser(&mut self, at: Stamp) -> (r: Result<(), String>)
        requires
            runtime_wf(old(self)@),
            clock_ok(at),
        ensures
            runtime_wf(final(self)@),
            r is Ok ==> final(self)@ == after_expiry(old(self)@, at),
            r is Ok <==> (browser_expired(old(self)@, at) ==> truncate_ok(
                old(self)@.recorder,
                old(self)@.browser->0.confirmed,
            )),
            r is Err ==> final(self)@ == (RuntimeView { recorder: final(self)@.recorder, ..old(self)@ }),
    {
        let expired = match &self.browser {
            Some(b) => (if at.mono >= b.confirmed.mono { at.mono - b.confirmed.mono } else { 0 }) > BROWSER_TIMEOUT_MS,
            None => false,
        };
        if expired {
            let confirmed = match &self.browser {
                Some(b) => b.confirmed,
                None => at,
            };
            let cut = self.recorder.truncate_browser(&confirmed);
            if cut.is_err() {
                return cut;
            }
            self.invalidate_browser();
        }
        Ok(())
    }

    fn observe_step(&mut self, at: Stamp, activity: Activity, tab: Option<String>) -> (r: Result<(), String>)
        requires
            runtime_wf(old(self)@),
            clock_ok(at),
        ensures
            runtime_wf(final(self)@),
            final(self)@ == (RuntimeView { recorder: final(self)@.recorder, ..old(self)@ }),
            r is Ok ==> final(self)@.recorder == match idle_boundary(old(self)@, at, activity@) {
                Some(b) => observe_spec(observe_spec(old(self)@.recorder, b, activity@, None), at, activity@, opt_view(tab)),
                None => observe_spec(old(self)@.recorder, at, activity@, opt_view(tab)),
            },
            r is Ok <==> match idle_boundary(old(self)@, at, activity@) {
                Some(b) => observe_ok(old(self)@.recorder, b, activity@, None) && observe_ok(
                    observe_spec(old(self)@.recorder, b, activity@, None),
                    at,
                    activity@,
                    opt_view(tab),
                ),
                None => observe_ok(old(self)@.recorder, at, activity@, opt_view(tab)),
            },
    {
        let ghost r1 = self@;
        let limit: u64 = self.settings.idle_minutes as u64 * 60_000;
        let limit_reached = str_eq(activity.source.as_str(), "idle") && str_eq(activity.reason.as_str(), "no_input");
        let leaving = match self.recorder.activity() {
            Some(a) => !str_eq(a.source.as_str(), "idle"),
            None => false,
        };
        if limit_reached && leaving {
            let idle = match self.foreground.idle_ms {
                Some(i) => i,
                None => limit,
            };
            let over = if idle > limit { idle - limit } else { 0 };
            let excess = if over < 1_000 { over } else { 1_000 };
            let boundary = Stamp {
                utc: at.utc - excess as i64,
                mono: if at.mono >= excess { at.mono - excess } else { 0 },
                offset: at.offset,
            };
            proof {
                assert(idle_boundary(r1, at, activity@) == Some(boundary));
            }
            if !self.recorder.fits(&boundary) {
                return Err(owned("Duração fora do intervalo suportado."));
            }
            let seen = self.recorder.observe(boundary, activity.clone(), None);
            if seen.is_err() {
                return seen;
            }
        } else {
            proof {
                assert(idle_boundary(r1, at, activity@) is None);
            }
        }
        if !self.recorder.fits(&at) {
            return Err(owned("Duração fora do intervalo suportado."));
        }
        self.recorder.observe(at, activity, tab)
    }

    fn record(&mut self, at: Stamp) -> (r: Result<(), String>)
        requires
            runtime_wf(old(self)@),
            clock_ok(at),
        ensures
            runtime_wf(final(self)@),
            r is Ok ==> final(self)@ == record_spec(old(self)@, at),
            r is Ok <==> record_ok(old(self)@, at),
            r is Err ==> final(self)@ == (RuntimeView { recorder: final(self)@.recorder, ..old(self)@ })
                || final(self)@ == (RuntimeView { recorder: final(self)@.recorder, ..invalidated(old(self)@) }),
    {
        if self.settings.paused && self.recorder.activity().is_none() {
            return Ok(());
        }
        let (activity, tab) = self.observed(at);
        let cut = self.expire_browser(at);
        if cut.is_err() {
            return cut;
        }
        self.observe_step(at, activity, tab)
    }
}


impl Runtime {
    /// One tick at `at` with the sampled foreground; see [`ticked`].
    pub fn tick(&mut self, event: Option<PlatformEvent>, fresh: Foreground, at: Stamp)
        requires
            runtime_wf(old(self)@),
            clock_ok(at),
        ensures
            runtime_wf(final(self)@),
            ticked(old(self)@, event, fresh@, at, final(self)@),
    {
        if self.shutting_down {
            return;
        }
        match event {
            Some(PlatformEvent::Locked(v)) => {
                self.locked = v;
                self.invalidate_browser();
            },
            Some(PlatformEvent::Suspended(v)) => {
                self.suspended = v;
                self.invalidate_browser();
            },
            Some(PlatformEvent::Failure) => {
                self.warning = Some(
                    owned(
                        "Notificações do Windows indisponíveis. Verifique foco, bloqueio e suspensão antes de confiar na coleta.",
                    ),
                );
            },
            _ => {},
        }
        if fresh.hwnd != self.foreground.hwnd {
            self.invalidate_browser();
        }
        self.foreground = fresh;
        if self.error.is_some() {
            return;
        }
        let ghost r0 = self@;
        let recorded = self.record(at);
        match recorded {
            Err(e) => {
                let mut msg = owned("Não foi possível gravar a atividade: ");
                push_str(&mut msg, e.as_str());
                self.error = Some(msg);
                self.invalidate_browser();
                proof {
                    assert(msg@ == record_failure(e@));
                }
            },
            Ok(()) => {},
        }
    }

    /// Pauses or resumes: refused when resuming without a configured VDI
    /// window, or while a recording error is pending; otherwise the settings
    /// are stored, the browser forgotten and a tick taken, whose error, if any,
    /// is the answer.
    pub fn pause(&mut self, paused: bool, at: Stamp, fresh: Foreground) -> (r: Result<(), String>)
        requires
            runtime_wf(old(self)@),
            clock_ok(at),
        ensures
            runtime_wf(final(self)@),
            !paused && old(self)@.settings.vdi is None ==> (r matches Err(e) && e@ == vdi_missing()) && final(self)@
                == old(self)@,
            !(!paused && old(self)@.settings.vdi is None) && old(self)@.error is Some ==> (r matches Err(e) && e@
                == error_pending()) && final(self)@ == old(self)@,
            !(!paused && old(self)@.settings.vdi is None) && old(self)@.error is None ==> ticked(
                with_pause(old(self)@, paused),
                None,
                fresh@,
                at,
                final(self)@,
            ) && match final(self)@.error {
                Some(e) => r matches Err(m) && m@ == e,
                None => r is Ok,
            },
    {
        if !paused && self.settings.vdi.is_none() {
            return Err(owned("Configure a janela da VDI antes de iniciar."));
        }
        if self.error.is_some() {
            return Err(
                owned("Resolva o erro de gravação antes de retomar. Feche e reabra o aplicativo para tentar novamente."),
            );
        }
        let mut settings = self.settings.clone();
        settings.paused = paused;
        settings.configured = true;
        self.recorder.save_settings(&settings);
        self.settings = settings;
        self.invalidate_browser();
        self.tick(None, fresh, at);
        match &self.error {
            Some(e) => Err(e.clone()),
            None => Ok(()),
        }
    }

    /// Deletes the data of a day, or all of it: tracking is paused, the open
    /// segment closed, the browser forgotten and the store's rows deleted.
    /// Refused: as pausing is, when the open segment cannot be stored, and an
    /// invalid day (after pausing).
    pub fn delete(&mut self, day: Option<&str>, at: Stamp, fresh: Foreground) -> (r: Result<(), String>)
        requires
            runtime_wf(old(self)@),
            clock_ok(at),
        ensures
            runtime_wf(final(self)@),
            old(self)@.error is Some ==> (r matches Err(e) && e@ == error_pending()) && final(self)@ == old(self)@,
            r is Ok ==> !(day matches Some(d) && !crate::sessions::spec_valid_day(d)),
            r is Ok ==> deleted_from(old(self)@, opt_str(day), at, fresh@, final(self)@),
            r is Ok <==> delete_ok(old(self)@, day, at, fresh@),
    {
        let paused = self.pause(true, at, fresh);
        if paused.is_err() {
            return paused;
        }
        let ghost mid = self@;
        let closed = self.recorder.close();
        if closed.is_err() {
            return closed;
        }
        self.invalidate_browser();
        self.recorder.delete(day)
    }

    /// Closes the open segment, when it can be stored, marks a clean exit and
    /// stops ticking.
    pub fn shutdown(&mut self)
        requires
            runtime_wf(old(self)@),
        ensures
            runtime_wf(final(self)@),
            final(self)@.shutting_down,
            final(self)@ == (RuntimeView { recorder: final(self)@.recorder, shutting_down: true, ..old(self)@ }),
            !(old(self)@.recorder.current matches Some(c) && c.id == 0 && old(self)@.recorder.store.next_id
                == i64::MAX) ==> final(self)@.recorder == (RecorderView {
                store: crate::store::clean_exit_spec(close_spec(old(self)@.recorder).store),
                ..close_spec(old(self)@.recorder)
            }),
            final(self)@.recorder.store.checkpoint == match close_spec(old(self)@.recorder).store.checkpoint {
                Some(c) => Some(crate::store::Checkpoint { clean_exit: true, ..c }),
                None => None,
            } || (old(self)@.recorder.current matches Some(c) && c.id == 0 && old(self)@.recorder.store.next_id
                == i64::MAX && final(self)@.recorder.store == crate::store::clean_exit_spec(old(self)@.recorder.store)),
    {
        let _ = self.recorder.close();
        self.recorder.clean_exit();
        self.shutting_down = true;
    }

    /// Changes the inactivity limit: refused outside 1 to 60 minutes; otherwise
    /// the settings are stored, the open segment closed (refused when it cannot
    /// be stored, the settings then staying stored but not in use), and the
    /// browser forgotten.
    pub fn set_idle_minutes(&mut self, minutes: u32) -> (r: Result<(), String>)
        requires
            runtime_wf(old(self)@),
        ensures
            runtime_wf(final(self)@),
            !(1 <= minutes <= 60) ==> (r matches Err(e) && e@ == "Escolha entre 1 e 60 minutos."@) && final(self)@
                == old(self)@,
            1 <= minutes <= 60 && r is Ok ==> final(self)@ == invalidated(
                RuntimeView {
                    recorder: close_spec(
                        RecorderView {
                            store: saved_settings_spec(
                                old(self)@.recorder.store,
                                SettingsView { idle_minutes: minutes, ..old(self)@.settings },
                            ),
                            ..old(self)@.recorder
                        },
                    ),
                    settings: SettingsView { idle_minutes: minutes, ..old(self)@.settings },
                    ..old(self)@
                },
            ),
            1 <= minutes <= 60 ==> (r is Err <==> (old(self)@.recorder.current matches Some(c) && c.id == 0
                && old(self)@.recorder.store.next_id == i64::MAX)),
    {
        if minutes < 1 || minutes > 60 {
            return Err(owned("Escolha entre 1 e 60 minutos."));
        }
        let mut settings = self.settings.clone();
        settings.idle_minutes = minutes;
        self.recorder.save_settings(&settings);
        let closed = self.recorder.close();
        if closed.is_err() {
            return closed;
        }
        self.settings = settings;
        self.invalidate_browser();
        Ok(())
    }

    /// Configures the VDI window: the settings are stored with it and the
    /// browser forgotten.
    pub fn configure_vdi(&mut self, identity: VdiIdentity)
        requires
            runtime_wf(old(self)@),
        ensures
            runtime_wf(final(self)@),
            final(self)@ == invalidated(
                RuntimeView {
                    recorder: RecorderView {
                        store: saved_settings_spec(
                            old(self)@.recorder.store,
                            SettingsView { vdi: Some(identity@), ..old(self)@.settings },
                        ),
                        ..old(self)@.recorder
                    },
                    settings: SettingsView { vdi: Some(identity@), ..old(self)@.settings },
                    ..old(self)@
                },
            ),
    {
        let mut settings = self.settings.clone();
        settings.vdi = Some(identity);
        self.recorder.save_settings(&settings);
        self.settings = settings;
        self.invalidate_browser();
    }

    /// What the window shows at the monotonic instant `now`: the settings, the
    /// open segment's activity (or a pause that has not started), the error and
    /// warning, whether the extension spoke in the last ten seconds, whether the
    /// configured VDI window is in focus, the last confirmed instant and the data
    /// path.
    pub fn status(&self, now: u64) -> (r: Status)
        ensures
            r.settings@ == self@.settings,
            r.activity@ == match self@.recorder.current {
                Some(c) => c.activity,
                None => ActivityView { source: "paused"@, hostname: None, app_name: None, reason: "not_started"@ },
            },
            opt_view(r.error) == self@.error,
            opt_view(r.warning) == self@.warning,
            r.extension_connected == (self@.last_poll matches Some(t) && mono_since(now, t) < BROWSER_TIMEOUT_MS),
            r.vdi_in_focus == (self@.settings.vdi is Some && self@.foreground.identity == self@.settings.vdi),
            r.last_saved_utc == match self@.recorder.store.checkpoint {
                Some(k) => Some(k.confirmed_utc),
                None => None,
            },
            r.data_path@ == self@.data_path,
    {
        let activity = match self.recorder.activity() {
            Some(a) => a,
            None => Activity::new("paused", "not_started"),
        };
        let connected = match self.last_poll {
            Some(t) => (if now >= t { now - t } else { 0 }) < BROWSER_TIMEOUT_MS,
            None => false,
        };
        let in_focus = match (&self.settings.vdi, &self.foreground.identity) {
            (Some(v), Some(i)) => crate::store::identity_eq(v, i),
            _ => false,
        };
        Status {
            settings: self.settings.clone(),
            activity,
            error: opt_clone(&self.error),
            warning: opt_clone(&self.warning),
            extension_connected: connected,
            vdi_in_focus: in_focus,
            last_saved_utc: self.recorder.last_saved(),
            data_path: self.data_path.clone(),
        }
    }

    /// The report of a day for export: the open segment is stored first unless
    /// an error is pending. Refused: when the open segment cannot be stored, and
    /// as [`Store::report`] refuses.
    pub fn export_report(&mut self, day: &str) -> (r: Result<crate::sessions::DayReport, String>)
        requires
            runtime_wf(old(self)@),
        ensures
            runtime_wf(final(self)@),
            final(self)@ == (RuntimeView { recorder: final(self)@.recorder, ..old(self)@ }),
            r is Err <==> (old(self)@.error is None && (old(self)@.recorder.current matches Some(c) && c.id == 0
                && old(self)@.recorder.store.next_id == i64::MAX)) || !crate::sessions::spec_valid_day(day)
                || !crate::store::day_inputs_fit(
                crate::store::sessions_of_day(final(self)@.recorder.store.sessions, day@),
            ),
            r is Ok ==> final(self)@.recorder == (if old(self)@.error is None {
                match old(self)@.recorder.current {
                    Some(c) => {
                        let (st, saved) = crate::store::persist_spec(old(self)@.recorder.store, c, None);
                        RecorderView { store: st, current: Some(saved), ..old(self)@.recorder }
                    },
                    None => old(self)@.recorder,
                }
            } else {
                old(self)@.recorder
            }),
            r matches Ok(rep) ==> crate::sessions::spec_valid_day(day) && crate::report::day_report(
                rep,
                day@,
                crate::store::sessions_of_day(final(self)@.recorder.store.sessions, day@),
                crate::store::accesses_of_day(final(self)@.recorder.store.accesses, day@),
                final(self)@.recorder.store.categories,
                crate::store::choice_pairs(final(self)@.recorder.store.domain_categories),
                crate::store::choice_pairs(final(self)@.recorder.store.app_categories),
            ),
    {
        if self.error.is_none() {
            let flushed = self.recorder.flush();
            if flushed.is_err() {
                return Err(flushed.unwrap_err());
            }
        }
        self.recorder.report(day)
    }
}


/// What a tick attributes time to: nothing but the pause while paused; the VDI
/// only when the configured window is in the foreground, with input, unlocked
/// and awake; a domain only while Chrome is in the foreground and the browser
/// state is of the current generation, focused and at most ten seconds old; a
/// tab only with a domain; and Google Chrome, as an application in the
/// foreground without such a state, is unknown time with the extension
/// unavailable.
pub proof fn lemma_attribution(r: RuntimeView, at: Stamp)
    ensures
        r.settings.paused ==> observed_activity(r, at) == (
            ActivityView { source: "paused"@, hostname: None, app_name: None, reason: "manual_pause"@ },
            None::<Seq<char>>,
        ),
        observed_activity(r, at).0.source == "vdi"@ ==> r.settings.vdi is Some && r.foreground.identity
            == r.settings.vdi && !r.settings.paused && !r.locked && !r.suspended,
        observed_activity(r, at).0.source == "browser"@ ==> chrome_in_focus(r.foreground) && (r.browser matches Some(
            b,
        ) && browser_fresh(b, r.generation, at) && observed_activity(r, at).0.hostname == b.hostname),
        observed_activity(r, at).1 is Some ==> observed_activity(r, at).0.source == "browser"@,
        !r.settings.paused && !r.suspended && r.locked ==> observed_activity(r, at).0 == (ActivityView {
            source: "idle"@,
            hostname: None,
            app_name: None,
            reason: "session_locked"@,
        }),
        !r.settings.paused && !r.suspended && r.locked ==> observed_activity(r, at).1 is None,
        ({
            let a = resolve_spec(r.foreground, r.settings.vdi, r.settings.paused, r.locked, r.suspended, idle_limit(r.settings));
            chrome_in_focus(r.foreground) && a.source == "app"@ && !(r.browser matches Some(b) && browser_fresh(b, r.generation, at))
        }) ==> observed_activity(r, at) == (extension_unavailable(), None::<Seq<char>>),
{
    reveal_strlit("paused");
    reveal_strlit("unobserved");
    reveal_strlit("idle");
    reveal_strlit("unknown");
    reveal_strlit("vdi");
    reveal_strlit("system");
    reveal_strlit("app");
    reveal_strlit("browser");
    assert("paused"@.len() == 6 && "unobserved"@.len() == 10 && "idle"@.len() == 4 && "unknown"@.len() == 7);
    assert("vdi"@.len() == 3 && "system"@.len() == 6 && "app"@.len() == 3 && "browser"@.len() == 7);
    assert("app"@[0] != "vdi"@[0]);
    assert("paused"@[0] != "system"@[0]);
    assert("unknown"@[0] != "browser"@[0]);
}


/// Collection stays stopped: a tick after shutdown changes nothing, and a tick
/// while a recording error is pending records nothing, so the recorder, and
/// with it every stored segment, access and checkpoint, is left as it was and
/// the error stays.
pub proof fn lemma_stopped_tick_records_nothing(
    before: RuntimeView,
    e: Option<PlatformEvent>,
    fresh: ForegroundView,
    at: Stamp,
    after: RuntimeView,
)
    requires
        ticked(before, e, fresh, at, after),
        before.shutting_down || before.error is Some,
    ensures
        after.recorder == before.recorder,
        after.error == before.error,
        before.shutting_down ==> after == before,
{
}

/// A separator between path components.
pub open spec fn is_separator(c: char) -> bool {
    c == '/' || c == '\\'
}

/// The four characters spell `json`, in any ASCII case.
pub open spec fn spells_json(a: char, b: char, c: char, d: char) -> bool {
    &&& (a == 'j' || a == 'J')
    &&& (b == 's' || b == 'S')
    &&& (c == 'o' || c == 'O')
    &&& (d == 'n' || d == 'N')
}

/// `p[s..e]` is the path's last component, preceded by a separator or the
/// start and followed only by separators, and it ends in `.json`, in any ASCII
/// case, with something before the dot.
pub open spec fn json_name_at(p: Seq<char>, s: int, e: int) -> bool {
    &&& 0 <= s && s + 6 <= e && e <= p.len()
    &&& (s == 0 || is_separator(p[s - 1]))
    &&& forall|j: int| s <= j < e ==> !is_separator(#[trigger] p[j])
    &&& forall|j: int| e <= j < p.len() ==> is_separator(#[trigger] p[j])
    &&& p[e - 5] == '.'
    &&& spells_json(p[e - 4], p[e - 3], p[e - 2], p[e - 1])
}

/// The path's last component, after any trailing separators, has the
/// extension `json` in any ASCII case.
pub open spec fn export_path_ok(p: Seq<char>) -> bool {
    exists|s: int, e: int| #[trigger] json_name_at(p, s, e)
}

/// Whether a day may be exported to `path`; see [`export_path_ok`].
pub fn export_path_allowed(path: &str) -> (r: bool)
    ensures
        r == export_path_ok(path@),
{
    let v = chars_of(path);
    let ghost p = v@;
    let n = v.len();
    let mut end = n;
    while end > 0 && (v[end - 1] == '/' || v[end - 1] == '\\')
        invariant
            end <= n,
            n == v.len(),
            forall|j: int| end <= j < n ==> is_separator(#[trigger] p[j]),
            p == v@,
        decreases end,
    {
        end = end - 1;
    }
    let mut start = end;
    while start > 0 && !(v[start - 1] == '/' || v[start - 1] == '\\')
        invariant
            start <= end <= n,
            n == v.len(),
            forall|j: int| start <= j < end ==> !is_separator(#[trigger] p[j]),
            p == v@,
        decreases start,
    {
        start = start - 1;
    }
    let ok = end >= 6 && end - 6 >= start && v[end - 5] == '.' && (v[end - 4] == 'j' || v[end - 4] == 'J') && (
    v[end - 3] == 's' || v[end - 3] == 'S') && (v[end - 2] == 'o' || v[end - 2] == 'O') && (v[end - 1] == 'n'
        || v[end - 1] == 'N');
    proof {
        if ok {
            assert(json_name_at(p, start as int, end as int));
        } else if export_path_ok(p) {
            let (s, e) = choose|s: int, e: int| #[trigger] json_name_at(p, s, e);
            if e < end {
                assert(!is_separator(p[end - 1]));
                assert(is_separator(p[end - 1]));
            }
            if e > end {
                assert(!is_separator(p[e - 1]));
                assert(is_separator(p[e - 1]));
            }
            if s < start {
                assert(is_separator(p[start - 1]));
                assert(!is_separator(p[start - 1]));
            }
            assert(false);
        }
    }
    ok
}

/// A lock or suspension notification sets the collector's flag to what it
/// says, whatever the flag was and whatever the tick then records; other
/// notifications leave both flags as they were. Only a collector that is
/// shutting down ignores them.
pub proof fn lemma_notifications_set_the_flags(
    before: RuntimeView,
    e: Option<PlatformEvent>,
    fresh: ForegroundView,
    at: Stamp,
    after: RuntimeView,
)
    requires
        ticked(before, e, fresh, at, after),
        !before.shutting_down,
    ensures
        e matches Some(PlatformEvent::Locked(v)) ==> after.locked == v && after.suspended == before.suspended,
        e matches Some(PlatformEvent::Suspended(v)) ==> after.suspended == v && after.locked == before.locked,
        !(e matches Some(PlatformEvent::Locked(_))) && !(e matches Some(PlatformEvent::Suspended(_)))
            ==> after.locked == before.locked && after.suspended == before.suspended,
{
}

/// Why the collector could not start, and where its database is.
#[derive(Debug)]
pub struct StartupIssue {
    pub message: String,
    pub path: String,
}

/// The status shown when the collector could not start: the default settings,
/// a pause because storage is unavailable, the issue as the error, and the
/// database path.
pub fn startup_status(issue: &StartupIssue) -> (r: Status)
    ensures
        r.settings@ == default_settings(),
        r.activity@ == (ActivityView {
            source: "paused"@,
            hostname: None,
            app_name: None,
            reason: "storage_unavailable"@,
        }),
        opt_view(r.error) == Some(issue.message@),
        r.warning is None,
        !r.extension_connected,
        !r.vdi_in_focus,
        r.last_saved_utc is None,
        r.data_path@ == issue.path@,
{
    Status {
        settings: Settings::default(),
        activity: Activity::new("paused", "storage_unavailable"),
        error: Some(issue.message.clone()),
        warning: None,
        extension_connected: false,
        vdi_in_focus: false,
        last_saved_utc: None,
        data_path: issue.path.clone(),
    }
}

impl Runtime {
    /// The extension went away: when a browser state was held, its domain ends
    /// at the last confirmation; the browser is forgotten and the contact too.
    pub fn browser_disconnected(&mut self)
        requires
            runtime_wf(old(self)@),
        ensures
            runtime_wf(final(self)@),
            final(self)@ == (RuntimeView { recorder: final(self)@.recorder, last_poll: None, ..invalidated(old(self)@) }),
            match old(self)@.browser {
                Some(b) => final(self)@.recorder == truncate_browser_spec(old(self)@.recorder, b.confirmed)
                    || final(self)@.recorder.store.next_id == i64::MAX,
                None => final(self)@.recorder == old(self)@.recorder,
            },
    {
        let confirmed = match &self.browser {
            Some(b) => Some(b.confirmed),
            None => None,
        };
        match confirmed {
            Some(at) => {
                let _ = self.recorder.truncate_browser(&at);
            },
            None => {},
        }
        self.invalidate_browser();
        self.last_poll = None;
    }

    /// Storing what was recorded failed: unless an error is already pending,
    /// the failure becomes the error and the browser is forgotten.
    pub fn storage_failed(&mut self, reason: &str)
        ensures
            old(self)@.error is Some ==> final(self)@ == old(self)@,
            old(self)@.error is None ==> final(self)@ == invalidated(
                RuntimeView { error: Some(record_failure(reason@)), ..old(self)@ },
            ),
    {
        if self.error.is_none() {
            let mut msg = owned("Não foi possível gravar a atividade: ");
            push_str(&mut msg, reason);
            self.error = Some(msg);
            self.invalidate_browser();
        }
    }
}


/// Inactivity is not back-dated: its boundary lies at most one second before
/// the tick that sees it.
pub proof fn lemma_idle_not_retroactive(r: RuntimeView, at: Stamp, a: ActivityView)
    requires
        clock_ok(at),
    ensures
        idle_boundary(r, at, a) matches Some(b) ==> at.utc - 1_000 <= b.utc <= at.utc && b.mono <= at.mono
            && b.offset == at.offset,
{
}


/// Deleting a day leaves tracking paused with no open segment, keeps the
/// categories, the category choices and the settings, and leaves nothing of
/// that day while every other day stays as it was.
pub proof fn lemma_delete_pauses_and_erases(
    before: RuntimeView,
    day: Seq<char>,
    other: Seq<char>,
    at: Stamp,
    fresh: ForegroundView,
    after: RuntimeView,
)
    requires
        deleted_from(before, Some(day), at, fresh, after),
    ensures
        after.settings.paused,
        after.recorder.current is None,
        after.recorder.store.categories == before.recorder.store.categories,
        after.recorder.store.domain_categories == before.recorder.store.domain_categories,
        after.recorder.store.app_categories == before.recorder.store.app_categories,
        crate::store::sessions_of_day(after.recorder.store.sessions, day) == Seq::<crate::sessions::SegmentView>::empty(),
        crate::store::accesses_of_day(after.recorder.store.accesses, day) == Seq::<crate::sessions::AccessView>::empty(),
{
    let mid = choose|mid: RuntimeView|
        #[trigger] ticked(with_pause(before, true), None, fresh, at, mid) && mid.error is None && after == (RuntimeView {
            recorder: RecorderView {
                store: delete_spec(close_spec(mid.recorder).store, Some(day)),
                ..close_spec(mid.recorder)
            },
            ..invalidated(mid)
        });
    crate::store::lemma_delete_scope(close_spec(mid.recorder).store, day, day);
    lemma_pause_keeps_choices(before, fresh, at, mid);
}

proof fn lemma_pause_keeps_choices(before: RuntimeView, fresh: ForegroundView, at: Stamp, mid: RuntimeView)
    requires
        ticked(with_pause(before, true), None, fresh, at, mid),
        mid.error is None,
    ensures
        mid.settings.paused,
        mid.recorder.store.categories == before.recorder.store.categories,
        mid.recorder.store.domain_categories == before.recorder.store.domain_categories,
        mid.recorder.store.app_categories == before.recorder.store.app_categories,
{
    let p = with_pause(before, true);
    if !p.shutting_down {
        let r0 = sampled(event_spec(p, None), fresh);
        if r0.error is None && record_ok(r0, at) {
            lemma_record_keeps_choices(r0, at);
        }
    }
}

proof fn lemma_record_keeps_choices(r: RuntimeView, at: Stamp)
    ensures
        record_spec(r, at).settings == r.settings,
        record_spec(r, at).recorder.store.categories == r.recorder.store.categories,
        record_spec(r, at).recorder.store.domain_categories == r.recorder.store.domain_categories,
        record_spec(r, at).recorder.store.app_categories == r.recorder.store.app_categories,
{
    if !(r.settings.paused && r.recorder.current is None) {
        let (a, tab) = observed_activity(r, at);
        let r1 = after_expiry(r, at);
        if browser_expired(r, at) {
            crate::recorder::lemma_truncate_keeps_choices(r.recorder, r.browser->0.confirmed);
        }
        match idle_boundary(r1, at, a) {
            Some(b) => {
                crate::recorder::lemma_observe_keeps_choices(r1.recorder, b, a, None);
                crate::recorder::lemma_observe_keeps_choices(observe_spec(r1.recorder, b, a, None), at, a, tab);
            },
            None => {
                crate::recorder::lemma_observe_keeps_choices(r1.recorder, at, a, tab);
            },
        }
    }
}

} // verus!
