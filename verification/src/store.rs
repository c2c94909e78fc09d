//! The local database: settings, categories, category choices, segments,
//! accesses and the recording checkpoint, with every change also written to a
//! journal that the storage layer applies to disk in order.
use crate::report::{accesses_view, categories_view, lookup, pairs_view, segment_in_range, segs_view, session_category, total_all};
use crate::sessions::{
    midnight_defined, report, spec_valid_day, spec_valid_hostname, stamp_date, valid_day,
    valid_hostname, Access, AccessView, ActivityView, Category, CategoryView, DayReport, Segment,
    SegmentView, Stamp,
};
use crate::text::{chars_of, opt_view, owned, str_eq};
use vstd::prelude::*;

verus! {

/// What identifies the remote session window: its executable and window class.
#[derive(Debug, PartialEq, Eq)]
pub struct VdiIdentity {
    pub executable: String,
    pub window_class: String,
}

/// The mathematical value of a [`VdiIdentity`].
pub struct VdiIdentityView {
    pub executable: Seq<char>,
    pub window_class: Seq<char>,
}

impl View for VdiIdentity {
    type V = VdiIdentityView;

    open spec fn view(&self) -> VdiIdentityView {
        VdiIdentityView { executable: self.executable@, window_class: self.window_class@ }
    }
}

impl Clone for VdiIdentity {
    fn clone(&self) -> (r: Self)
        ensures
            r@ == self@,
    {
        VdiIdentity { executable: self.executable.clone(), window_class: self.window_class.clone() }
    }
}

/// The view of an optional identity.
pub open spec fn opt_identity(o: Option<VdiIdentity>) -> Option<VdiIdentityView> {
    match o {
        Some(i) => Some(i@),
        None => None,
    }
}

/// Two identities are the same window kind.
pub fn identity_eq(a: &VdiIdentity, b: &VdiIdentity) -> (r: bool)
    ensures
        r == (a@ == b@),
{
    str_eq(a.executable.as_str(), b.executable.as_str()) && str_eq(
        a.window_class.as_str(),
        b.window_class.as_str(),
    )
}

/// The user's settings.
#[derive(Debug)]
pub struct Settings {
    pub paused: bool,
    pub configured: bool,
    pub idle_minutes: u32,
    pub vdi: Option<VdiIdentity>,
}

/// The mathematical value of [`Settings`].
pub struct SettingsView {
    pub paused: bool,
    pub configured: bool,
    pub idle_minutes: u32,
    pub vdi: Option<VdiIdentityView>,
}

impl View for Settings {
    type V = SettingsView;

    open spec fn view(&self) -> SettingsView {
        SettingsView {
            paused: self.paused,
            configured: self.configured,
            idle_minutes: self.idle_minutes,
            vdi: opt_identity(self.vdi),
        }
    }
}

impl Clone for Settings {
    fn clone(&self) -> (r: Self)
        ensures
            r@ == self@,
    {
        Settings {
            paused: self.paused,
            configured: self.configured,
            idle_minutes: self.idle_minutes,
            vdi: match &self.vdi {
                Some(v) => Some(v.clone()),
                None => None,
            },
        }
    }
}

/// Settings before the first change: paused, not configured, five minutes of
/// inactivity, no VDI window.
pub open spec fn default_settings() -> SettingsView {
    SettingsView { paused: true, configured: false, idle_minutes: 5, vdi: None }
}

impl Default for Settings {
    fn default() -> (r: Self)
        ensures
            r@ == default_settings(),
    {
        Settings { paused: true, configured: false, idle_minutes: 5, vdi: None }
    }
}

/// An access as stored: with its run and local date.
#[derive(Debug)]
pub struct AccessRecord {
    pub run_id: String,
    pub at_utc: i64,
    pub local_date: String,
    pub hostname: String,
    pub tab_key: String,
}

/// The mathematical value of an [`AccessRecord`].
pub struct AccessRecordView {
    pub run_id: Seq<char>,
    pub at_utc: i64,
    pub local_date: Seq<char>,
    pub hostname: Seq<char>,
    pub tab_key: Seq<char>,
}

impl View for AccessRecord {
    type V = AccessRecordView;

    open spec fn view(&self) -> AccessRecordView {
        AccessRecordView {
            run_id: self.run_id@,
            at_utc: self.at_utc,
            local_date: self.local_date@,
            hostname: self.hostname@,
            tab_key: self.tab_key@,
        }
    }
}

/// A category choice for a domain or an application, with when it was made.
#[derive(Debug)]
pub struct Choice {
    pub name: String,
    pub category: String,
    pub updated_at: i64,
}

/// The mathematical value of a [`Choice`].
pub struct ChoiceView {
    pub name: Seq<char>,
    pub category: Seq<char>,
    pub updated_at: i64,
}

impl View for Choice {
    type V = ChoiceView;

    open spec fn view(&self) -> ChoiceView {
        ChoiceView { name: self.name@, category: self.category@, updated_at: self.updated_at }
    }
}

/// The last confirmed instant of recording, and whether the application then
/// exited cleanly.
#[derive(Debug, Clone, Copy)]
pub struct Checkpoint {
    pub confirmed_utc: i64,
    pub clean_exit: bool,
}

/// One change to the database, in the order it was made.
#[derive(Debug)]
pub enum Write {
    /// Store the settings.
    Settings(Settings),
    /// Set the category of a domain.
    DomainCategory(Choice),
    /// Set the category of an application.
    AppCategory(Choice),
    /// Mark a category as a distraction or not.
    Distraction(String, bool),
    /// Close every open segment.
    CloseOpen,
    /// Insert the segment with its id, or update its end, duration and openness.
    Session(Segment),
    /// Insert an access.
    Access(AccessRecord),
    /// Set the checkpoint to this instant, not a clean exit.
    Checkpoint(i64),
    /// Mark the checkpoint as a clean exit.
    CleanExit,
    /// Delete the segments and accesses of a day, or all of them, and the checkpoint.
    Delete(Option<String>),
    /// Cut the browser segments of a run at an instant.
    TruncateBrowser(String, i64),
}

/// The mathematical value of a [`Write`].
pub enum WriteView {
    Settings(SettingsView),
    DomainCategory(ChoiceView),
    AppCategory(ChoiceView),
    Distraction(Seq<char>, bool),
    CloseOpen,
    Session(SegmentView),
    Access(AccessRecordView),
    Checkpoint(i64),
    CleanExit,
    Delete(Option<Seq<char>>),
    TruncateBrowser(Seq<char>, i64),
}

impl View for Write {
    type V = WriteView;

    open spec fn view(&self) -> WriteView {
        match self {
            Write::Settings(s) => WriteView::Settings(s@),
            Write::DomainCategory(c) => WriteView::DomainCategory(c@),
            Write::AppCategory(c) => WriteView::AppCategory(c@),
            Write::Distraction(i, b) => WriteView::Distraction(i@, *b),
            Write::CloseOpen => WriteView::CloseOpen,
            Write::Session(s) => WriteView::Session(s@),
            Write::Access(a) => WriteView::Access(a@),
            Write::Checkpoint(t) => WriteView::Checkpoint(*t),
            Write::CleanExit => WriteView::CleanExit,
            Write::Delete(d) => WriteView::Delete(opt_view(*d)),
            Write::TruncateBrowser(r, t) => WriteView::TruncateBrowser(r@, *t),
        }
    }
}

/// The database.
pub struct Store {
    sessions: Vec<Segment>,
    accesses: Vec<AccessRecord>,
    categories: Vec<Category>,
    domain_categories: Vec<Choice>,
    app_categories: Vec<Choice>,
    checkpoint: Option<Checkpoint>,
    settings: Option<Settings>,
    next_id: i64,
    journal: Vec<Write>,
}

/// The mathematical value of the [`Store`].
pub struct StoreView {
    pub sessions: Seq<SegmentView>,
    pub accesses: Seq<AccessRecordView>,
    pub categories: Seq<CategoryView>,
    pub domain_categories: Seq<ChoiceView>,
    pub app_categories: Seq<ChoiceView>,
    pub checkpoint: Option<Checkpoint>,
    pub settings: Option<SettingsView>,
    pub next_id: i64,
    pub journal: Seq<WriteView>,
}

/// The views of stored accesses.
pub open spec fn records_view(v: Seq<AccessRecord>) -> Seq<AccessRecordView> {
    v.map_values(|a: AccessRecord| a@)
}

/// The views of choices.
pub open spec fn choices_view(v: Seq<Choice>) -> Seq<ChoiceView> {
    v.map_values(|c: Choice| c@)
}

/// The views of journal entries.
pub open spec fn writes_view(v: Seq<Write>) -> Seq<WriteView> {
    v.map_values(|w: Write| w@)
}

impl View for Store {
    type V = StoreView;

    closed spec fn view(&self) -> StoreView {
        StoreView {
            sessions: segs_view(self.sessions@),
            accesses: records_view(self.accesses@),
            categories: categories_view(self.categories@),
            domain_categories: choices_view(self.domain_categories@),
            app_categories: choices_view(self.app_categories@),
            checkpoint: self.checkpoint,
            settings: match self.settings {
                Some(s) => Some(s@),
                None => None,
            },
            next_id: self.next_id,
            journal: writes_view(self.journal@),
        }
    }
}

/// The database is well formed: segment ids are positive and below the next id,
/// category ids are distinct, and the checkpoint lies where the calendar has a
/// next midnight.
pub open spec fn store_wf(s: StoreView) -> bool {
    &&& 1 <= s.next_id
    &&& forall|i: int| 0 <= i < s.sessions.len() ==> 1 <= #[trigger] s.sessions[i].id < s.next_id
    &&& forall|i: int, j: int| 0 <= i < j < s.sessions.len() ==> s.sessions[i].id < s.sessions[j].id
    &&& forall|i: int, j: int| 0 <= i < j < s.categories.len() ==> s.categories[i].id != s.categories[j].id
    &&& match s.checkpoint {
        Some(c) => midnight_defined(c.confirmed_utc as int),
        None => true,
    }
}

/// The categories a new database starts with, in display order.
pub open spec fn initial_categories() -> Seq<CategoryView> {
    seq![
        CategoryView { id: "vdi"@, name: "VDI / trabalho focado"@, distraction: false },
        CategoryView { id: "local"@, name: "Trabalho local"@, distraction: false },
        CategoryView { id: "social"@, name: "Redes sociais"@, distraction: false },
        CategoryView { id: "video"@, name: "Vídeo"@, distraction: false },
        CategoryView { id: "entertainment"@, name: "Entretenimento"@, distraction: false },
        CategoryView { id: "research"@, name: "Pesquisa"@, distraction: false },
        CategoryView { id: "communication"@, name: "Comunicação"@, distraction: false },
        CategoryView { id: "system"@, name: "Sistema"@, distraction: false },
        CategoryView { id: "unknown"@, name: "Desconhecido"@, distraction: false },
    ]
}

/// The segments with `id` replaced by the given end, duration and openness.
pub open spec fn update_segment(ss: Seq<SegmentView>, seg: SegmentView) -> Seq<SegmentView> {
    ss.map_values(
        |r: SegmentView|
            if r.id == seg.id {
                SegmentView { end_utc: seg.end_utc, duration_ms: seg.duration_ms, is_open: seg.is_open, ..r }
            } else {
                r
            },
    )
}

/// Persists a segment, with an optional access at a tab: a new segment (id 0)
/// is inserted under the next id, a known one has its end, duration and
/// openness updated; an access is stored when the segment has a hostname; the
/// checkpoint moves to the segment's end. The journal records the same changes.
pub open spec fn persist_spec(
    st: StoreView,
    seg: SegmentView,
    access: Option<(Stamp, Seq<char>)>,
) -> (StoreView, SegmentView) {
    let saved = if seg.id == 0 {
        SegmentView { id: st.next_id, ..seg }
    } else {
        seg
    };
    let sessions = if seg.id == 0 {
        st.sessions.push(saved)
    } else {
        update_segment(st.sessions, seg)
    };
    let record = match access {
        Some(p) => match seg.activity.hostname {
            Some(h) => Some(
                AccessRecordView {
                    run_id: seg.run_id,
                    at_utc: p.0.utc,
                    local_date: stamp_date(p.0.utc, p.0.offset),
                    hostname: h,
                    tab_key: p.1,
                },
            ),
            None => None,
        },
        None => None,
    };
    let accesses = match record {
        Some(a) => st.accesses.push(a),
        None => st.accesses,
    };
    let journal = match record {
        Some(a) => st.journal.push(WriteView::Session(saved)).push(WriteView::Access(a)).push(
            WriteView::Checkpoint(seg.end_utc),
        ),
        None => st.journal.push(WriteView::Session(saved)).push(WriteView::Checkpoint(seg.end_utc)),
    };
    (
        StoreView {
            sessions,
            accesses,
            checkpoint: Some(Checkpoint { confirmed_utc: seg.end_utc, clean_exit: false }),
            next_id: if seg.id == 0 {
                (st.next_id + 1) as i64
            } else {
                st.next_id
            },
            journal,
            ..st
        },
        saved,
    )
}

/// A stored choice list with `name` set to `category`: an existing entry is
/// updated in place, a new one appended.
pub open spec fn upsert_choice(cs: Seq<ChoiceView>, c: ChoiceView) -> Seq<ChoiceView> {
    if exists|i: int| 0 <= i < cs.len() && #[trigger] cs[i].name == c.name {
        cs.map_values(|x: ChoiceView| if x.name == c.name { c } else { x })
    } else {
        cs.push(c)
    }
}

/// The choice of `category` for `name` at `at`.
pub open spec fn chosen(name: Seq<char>, category: Seq<char>, at: i64) -> ChoiceView {
    ChoiceView { name, category, updated_at: at }
}

/// Some category has this id.
pub open spec fn category_exists(cats: Seq<CategoryView>, id: Seq<char>) -> bool {
    exists|i: int| 0 <= i < cats.len() && #[trigger] cats[i].id == id
}

/// An application name that may be stored: 1 to 255 bytes, without control
/// characters.
pub open spec fn spec_valid_app_name(name: &str) -> bool {
    name.len() != 0 && name.len() <= 255 && forall|i: int| 0 <= i < name@.len() ==> !is_control(#[trigger] name@[i])
}

/// A control character in the sense of `char::is_control` (general category Cc).
pub open spec fn is_control(c: char) -> bool {
    (c as u32) <= 0x1F || (0x7F <= (c as u32) && (c as u32) <= 0x9F)
}

/// The pairs name → category of stored choices.
pub open spec fn choice_pairs(cs: Seq<ChoiceView>) -> Seq<(Seq<char>, Seq<char>)> {
    cs.map_values(|c: ChoiceView| (c.name, c.category))
}

/// The segments of a local date, in id order.
pub open spec fn sessions_of_day(ss: Seq<SegmentView>, day: Seq<char>) -> Seq<SegmentView> {
    ss.filter(|s: SegmentView| s.local_date == day)
}

/// The accesses of a local date, in insertion order.
pub open spec fn accesses_of_day(acc: Seq<AccessRecordView>, day: Seq<char>) -> Seq<AccessView> {
    acc.filter(|a: AccessRecordView| a.local_date == day).map_values(
        |a: AccessRecordView| AccessView { at_utc: a.at_utc, hostname: a.hostname, tab_key: a.tab_key },
    )
}

/// The current UTC time from chrono's `Utc::now()`, in milliseconds. Of the
/// reading only what chrono's type keeps is stated: the instant lies in the
/// calendar's range.
#[verifier::external_body]
fn utc_now_ms() -> (r: i64)
    ensures
        crate::sessions::calendar_utc(r as int),
{
    chrono::Utc::now().timestamp_millis()
}

impl Store {
    /// An empty database with the initial categories and no choices.
    pub fn new() -> (s: Self)
        ensures
            s@.sessions == Seq::<SegmentView>::empty(),
            s@.accesses == Seq::<AccessRecordView>::empty(),
            s@.categories == initial_categories(),
            s@.domain_categories == Seq::<ChoiceView>::empty(),
            s@.app_categories == Seq::<ChoiceView>::empty(),
            s@.checkpoint == None::<Checkpoint>,
            s@.settings == None::<SettingsView>,
            s@.next_id == 1,
            s@.journal == Seq::<WriteView>::empty(),
            store_wf(s@),
    {
        let mut categories: Vec<Category> = Vec::new();
        categories.push(Category { id: owned("vdi"), name: owned("VDI / trabalho focado"), distraction: false });
        categories.push(Category { id: owned("local"), name: owned("Trabalho local"), distraction: false });
        categories.push(Category { id: owned("social"), name: owned("Redes sociais"), distraction: false });
        categories.push(Category { id: owned("video"), name: owned("Vídeo"), distraction: false });
        categories.push(Category { id: owned("entertainment"), name: owned("Entretenimento"), distraction: false });
        categories.push(Category { id: owned("research"), name: owned("Pesquisa"), distraction: false });
        categories.push(Category { id: owned("communication"), name: owned("Comunicação"), distraction: false });
        categories.push(Category { id: owned("system"), name: owned("Sistema"), distraction: false });
        categories.push(Category { id: owned("unknown"), name: owned("Desconhecido"), distraction: false });
        let s = Store {
            sessions: Vec::new(),
            accesses: Vec::new(),
            categories,
            domain_categories: Vec::new(),
            app_categories: Vec::new(),
            checkpoint: None,
            settings: None,
            next_id: 1,
            journal: Vec::new(),
        };
        proof {
            assert(segs_view(s.sessions@) =~= Seq::<SegmentView>::empty());
            assert(records_view(s.accesses@) =~= Seq::<AccessRecordView>::empty());
            assert(choices_view(s.domain_categories@) =~= Seq::<ChoiceView>::empty());
            assert(choices_view(s.app_categories@) =~= Seq::<ChoiceView>::empty());
            assert(writes_view(s.journal@) =~= Seq::<WriteView>::empty());
            assert(categories_view(s.categories@) =~= initial_categories());
            reveal_strlit("vdi");
            reveal_strlit("local");
            reveal_strlit("social");
            reveal_strlit("video");
            reveal_strlit("entertainment");
            reveal_strlit("research");
            reveal_strlit("communication");
            reveal_strlit("system");
            reveal_strlit("unknown");
            let c = initial_categories();
            assert forall|i: int, j: int| 0 <= i < j < c.len() implies c[i].id != c[j].id by {
                if c[i].id == c[j].id {
                    assert(c[i].id.len() == c[j].id.len());
                    assert(c[i].id[0] == c[j].id[0]);
                    assert(c[i].id[1] == c[j].id[1]);
                }
            }
        }
        s
    }

    /// The stored settings, or the defaults when none were saved.
    pub fn settings(&self) -> (r: Result<Settings, String>)
        ensures
            r matches Ok(v) && v@ == settings_read(self@),
    {
        match &self.settings {
            Some(s) => Ok(s.clone()),
            None => Ok(Settings::default()),
        }
    }

    /// Stores the settings.
    pub fn save_settings(&mut self, settings: &Settings) -> (r: Result<(), String>)
        ensures
            r is Ok,
            final(self)@ == saved_settings_spec(old(self)@, settings@),
    {
        self.settings = Some(settings.clone());
        self.journal.push(Write::Settings(settings.clone()));
        proof {
            assert(writes_view(self.journal@) =~= writes_view(old(self).journal@).push(WriteView::Settings(settings@)));
        }
        Ok(())
    }

    /// The categories in display order.
    pub fn categories(&self) -> (r: Result<Vec<Category>, String>)
        ensures
            r matches Ok(v) && categories_view(v@) == self@.categories,
    {
        let mut v: Vec<Category> = Vec::new();
        let mut i: usize = 0;
        while i < self.categories.len()
            invariant
                i <= self.categories.len(),
                categories_view(v@) == categories_view(self.categories@).take(i as int),
            decreases self.categories.len() - i,
        {
            let c = self.categories[i].clone();
            let ghost before = v@;
            v.push(c);
            proof {
                assert(categories_view(v@) =~= categories_view(before).push(c@));
                assert(categories_view(self.categories@).take(i + 1) =~= categories_view(self.categories@).take(i as int).push(self.categories@[i as int]@));
            }
            i = i + 1;
        }
        proof {
            assert(categories_view(self.categories@).take(self.categories.len() as int) =~= categories_view(self.categories@));
        }
        Ok(v)
    }

    fn has_category(&self, id: &str) -> (r: bool)
        ensures
            r == category_exists(self@.categories, id@),
    {
        let mut i: usize = 0;
        while i < self.categories.len()
            invariant
                i <= self.categories.len(),
                forall|j: int| 0 <= j < i ==> categories_view(self.categories@)[j].id != id@,
            decreases self.categories.len() - i,
        {
            if str_eq(self.categories[i].id.as_str(), id) {
                proof {
                    assert(categories_view(self.categories@)[i as int].id == id@);
                }
                return true;
            }
            i = i + 1;
        }
        false
    }

    /// Sets the category of a domain. Refused: an invalid hostname, the reserved
    /// VDI category, a category that does not exist.
    pub fn classify(&mut self, hostname: &str, category: &str) -> (r: Result<(), String>)
        ensures
            r is Err <==> (!spec_valid_hostname(hostname@) || category@ == "vdi"@ || !category_exists(old(self)@.categories, category@)),
            r is Err ==> final(self)@ == old(self)@,
            r is Ok ==> exists|at: i64| final(self)@ == (StoreView {
                domain_categories: upsert_choice(old(self)@.domain_categories, #[trigger] chosen(hostname@, category@, at)),
                journal: old(self)@.journal.push(WriteView::DomainCategory(chosen(hostname@, category@, at))),
                ..old(self)@
            }),
    {
        if !valid_hostname(hostname) {
            return Err(owned("Domínio inválido."));
        }
        if str_eq(category, "vdi") {
            return Err(owned("A categoria VDI é reservada à janela remota."));
        }
        if !self.has_category(category) {
            return Err(owned("FOREIGN KEY constraint failed"));
        }
        let at = utc_now_ms();
        let ghost before = choices_view(self.domain_categories@);
        upsert(&mut self.domain_categories, hostname, category, at);
        proof {
            assert(chosen(hostname@, category@, at) == ChoiceView { name: hostname@, category: category@, updated_at: at });
        }
        self.journal.push(Write::DomainCategory(Choice { name: owned(hostname), category: owned(category), updated_at: at }));
        proof {
            assert(writes_view(self.journal@) =~= writes_view(old(self).journal@).push(WriteView::DomainCategory(ChoiceView { name: hostname@, category: category@, updated_at: at })));
        }
        Ok(())
    }

    /// Sets the category of a local application. Refused: an invalid name, the
    /// reserved VDI category, a category that does not exist.
    pub fn classify_app(&mut self, app_name: &str, category: &str) -> (r: Result<(), String>)
        ensures
            r is Err <==> (!spec_valid_app_name(app_name) || category@ == "vdi"@ || !category_exists(old(self)@.categories, category@)),
            r is Err ==> final(self)@ == old(self)@,
            r is Ok ==> exists|at: i64| final(self)@ == (StoreView {
                app_categories: upsert_choice(old(self)@.app_categories, #[trigger] chosen(app_name@, category@, at)),
                journal: old(self)@.journal.push(WriteView::AppCategory(chosen(app_name@, category@, at))),
                ..old(self)@
            }),
    {
        if !valid_app_name(app_name) {
            return Err(owned("Aplicativo inválido."));
        }
        if str_eq(category, "vdi") {
            return Err(owned("A categoria VDI é reservada à janela remota."));
        }
        if !self.has_category(category) {
            return Err(owned("FOREIGN KEY constraint failed"));
        }
        let at = utc_now_ms();
        upsert(&mut self.app_categories, app_name, category, at);
        proof {
            assert(chosen(app_name@, category@, at) == ChoiceView { name: app_name@, category: category@, updated_at: at });
        }
        self.journal.push(Write::AppCategory(Choice { name: owned(app_name), category: owned(category), updated_at: at }));
        proof {
            assert(writes_view(self.journal@) =~= writes_view(old(self).journal@).push(WriteView::AppCategory(ChoiceView { name: app_name@, category: category@, updated_at: at })));
        }
        Ok(())
    }

    /// Marks a category as a distraction or not. Refused: the VDI category, an
    /// unknown category.
    pub fn set_distraction(&mut self, id: &str, enabled: bool) -> (r: Result<(), String>)
        requires
            store_wf(old(self)@),
        ensures
            r is Err <==> (id@ == "vdi"@ || !category_exists(old(self)@.categories, id@)),
            r is Err ==> final(self)@ == old(self)@,
            r is Ok ==> final(self)@ == (StoreView {
                categories: old(self)@.categories.map_values(|c: CategoryView| if c.id == id@ { CategoryView { distraction: enabled, ..c } } else { c }),
                journal: old(self)@.journal.push(WriteView::Distraction(id@, enabled)),
                ..old(self)@
            }),
            store_wf(final(self)@),
    {
        if str_eq(id, "vdi") {
            return Err(owned("VDI não é uma categoria de distração."));
        }
        if !self.has_category(id) {
            return Err(owned("Categoria não encontrada."));
        }
        let mut i: usize = 0;
        let ghost cv = categories_view(self.categories@);
        while i < self.categories.len()
            invariant
                i <= self.categories.len(),
                cv == categories_view(old(self).categories@),
                self.categories@.len() == old(self).categories@.len(),
                forall|j: int| 0 <= j < i ==> categories_view(self.categories@)[j] == (if cv[j].id == id@ { CategoryView { distraction: enabled, ..cv[j] } } else { cv[j] }),
                forall|j: int| i <= j < self.categories.len() ==> self.categories@[j] == old(self).categories@[j],
                self.sessions == old(self).sessions,
                self.accesses == old(self).accesses,
                self.domain_categories == old(self).domain_categories,
                self.app_categories == old(self).app_categories,
                self.checkpoint == old(self).checkpoint,
                self.settings == old(self).settings,
                self.next_id == old(self).next_id,
                self.journal == old(self).journal,
            decreases self.categories.len() - i,
        {
            if str_eq(self.categories[i].id.as_str(), id) {
                let ghost pre = self.categories@;
                let c = self.categories.remove(i);
                let nc = Category { id: c.id, name: c.name, distraction: enabled };
                self.categories.insert(i, nc);
                proof {
                    assert(self.categories@ =~= pre.update(i as int, nc));
                    assert forall|j: int| 0 <= j < i + 1 implies categories_view(self.categories@)[j] == (if cv[j].id == id@ { CategoryView { distraction: enabled, ..cv[j] } } else { cv[j] }) by {
                        assert(categories_view(self.categories@)[j] == self.categories@[j]@);
                        if j < i {
                            assert(categories_view(pre)[j] == pre[j]@);
                        }
                    }
                }
            } else {
                proof {
                    assert(cv[i as int].id != id@);
                }
            }
            i = i + 1;
        }
        proof {
            assert(categories_view(self.categories@) =~= cv.map_values(|c: CategoryView| if c.id == id@ { CategoryView { distraction: enabled, ..c } } else { c }));
        }
        self.journal.push(Write::Distraction(owned(id), enabled));
        proof {
            assert(writes_view(self.journal@) =~= writes_view(old(self).journal@).push(WriteView::Distraction(id@, enabled)));
        }
        Ok(())
    }
}

/// A string may be stored as an application name; see [`spec_valid_app_name`].
pub fn valid_app_name(name: &str) -> (r: bool)
    ensures
        r == spec_valid_app_name(name),
{
    if name.len() == 0 || name.len() > 255 {
        return false;
    }
    let v = chars_of(name);
    let mut i: usize = 0;
    while i < v.len()
        invariant
            i <= v.len(),
            v@ == name@,
            forall|j: int| 0 <= j < i ==> !is_control(#[trigger] v@[j]),
        decreases v.len() - i,
    {
        let c = v[i] as u32;
        if c <= 0x1F || (0x7F <= c && c <= 0x9F) {
            return false;
        }
        i = i + 1;
    }
    true
}

/// Sets `name` to `category` in a choice list.
fn upsert(cs: &mut Vec<Choice>, name: &str, category: &str, at: i64)
    ensures
        choices_view(final(cs)@) == upsert_choice(choices_view(old(cs)@), ChoiceView { name: name@, category: category@, updated_at: at }),
{
    let ghost cv = choices_view(cs@);
    let ghost c = ChoiceView { name: name@, category: category@, updated_at: at };
    let mut found = false;
    let mut i: usize = 0;
    while i < cs.len()
        invariant
            i <= cs.len(),
            cs@.len() == old(cs)@.len(),
            cv == choices_view(old(cs)@),
            c == (ChoiceView { name: name@, category: category@, updated_at: at }),
            found == exists|j: int| 0 <= j < i && #[trigger] cv[j].name == name@,
            forall|j: int| 0 <= j < i ==> choices_view(cs@)[j] == (if cv[j].name == name@ { c } else { cv[j] }),
            forall|j: int| i <= j < cs.len() ==> cs@[j] == old(cs)@[j],
        decreases cs.len() - i,
    {
        if str_eq(cs[i].name.as_str(), name) {
            let ghost pre = cs@;
            cs.remove(i);
            let n = owned(name);
            let k = owned(category);
            let nc = Choice { name: n, category: k, updated_at: at };
            assert(nc@ == c);
            cs.insert(i, nc);
            found = true;
            proof {
                assert(cs@ =~= pre.update(i as int, nc));
                assert(cv[i as int].name == name@);
                assert(cs@[i as int]@ == c);
                assert forall|j: int| 0 <= j < i + 1 implies choices_view(cs@)[j] == (if cv[j].name == name@ { c } else { cv[j] }) by {
                    assert(choices_view(cs@)[j] == cs@[j]@);
                    if j < i {
                        assert(choices_view(pre)[j] == pre[j]@);
                        assert(cs@[j] == pre[j]);
                    }
                }
            }
        } else {
            proof {
                assert(cv[i as int].name != name@);
            }
        }
        i = i + 1;
    }
    if !found {
        let ghost pre = cs@;
        proof {
            assert(choices_view(pre) =~= cv) by {
                assert forall|j: int| 0 <= j < cv.len() implies choices_view(pre)[j] == cv[j] by {
                    if cv[j].name == name@ {
                        assert(exists|k: int| 0 <= k < cs@.len() && #[trigger] cv[k].name == name@);
                    }
                }
            }
        }
        cs.push(Choice { name: owned(name), category: owned(category), updated_at: at });
        proof {
            assert(choices_view(cs@) =~= choices_view(pre).push(c));
        }
    } else {
        proof {
            assert(choices_view(cs@) =~= cv.map_values(|x: ChoiceView| if x.name == c.name { c } else { x }));
        }
    }
}

/// The parts of one day that the report reads: the day's segments in id
/// order, its accesses, the categories and the category choices.
pub open spec fn day_inputs_fit(ss: Seq<SegmentView>) -> bool {
    total_all(ss) <= u64::MAX && forall|i: int| 0 <= i < ss.len() ==> segment_in_range(#[trigger] ss[i])
}

/// The segments of `v` whose local date is `day`.
fn segments_of_day(v: &Vec<Segment>, day: &str) -> (r: Vec<Segment>)
    ensures
        segs_view(r@) == sessions_of_day(segs_view(v@), day@),
{
    let ghost p = |s: SegmentView| s.local_date == day@;
    let mut r: Vec<Segment> = Vec::new();
    let mut i: usize = 0;
    while i < v.len()
        invariant
            i <= v.len(),
            p == (|s: SegmentView| s.local_date == day@),
            segs_view(r@) == segs_view(v@).take(i as int).filter(p),
        decreases v.len() - i,
    {
        let ghost before = r@;
        proof {
            assert(segs_view(v@).take(i + 1).drop_last() =~= segs_view(v@).take(i as int));
            assert(segs_view(v@).take(i + 1).last() == v@[i as int]@);
        }
        let ghost x = v@[i as int]@;
        let ghost old_f = segs_view(v@).take(i as int).filter(p);
        proof {
            reveal(Seq::filter);
            assert(segs_view(v@).take(i + 1).filter(p) == if p(x) { old_f.push(x) } else { old_f });
        }
        if str_eq(v[i].local_date.as_str(), day) {
            let c = v[i].clone();
            r.push(c);
            proof {
                assert(segs_view(r@) =~= segs_view(before).push(c@));
            }
        }
        i = i + 1;
    }
    proof {
        assert(segs_view(v@).take(v.len() as int) =~= segs_view(v@));
    }
    r
}

/// The accesses of `v` whose local date is `day`.
fn accesses_of(v: &Vec<AccessRecord>, day: &str) -> (r: Vec<Access>)
    ensures
        accesses_view(r@) == accesses_of_day(records_view(v@), day@),
{
    let ghost p = |a: AccessRecordView| a.local_date == day@;
    let ghost f = |a: AccessRecordView| AccessView { at_utc: a.at_utc, hostname: a.hostname, tab_key: a.tab_key };
    let mut r: Vec<Access> = Vec::new();
    let mut i: usize = 0;
    while i < v.len()
        invariant
            i <= v.len(),
            p == (|a: AccessRecordView| a.local_date == day@),
            f == (|a: AccessRecordView| AccessView { at_utc: a.at_utc, hostname: a.hostname, tab_key: a.tab_key }),
            accesses_view(r@) == records_view(v@).take(i as int).filter(p).map_values(f),
        decreases v.len() - i,
    {
        let ghost before = r@;
        proof {
            assert(records_view(v@).take(i + 1).drop_last() =~= records_view(v@).take(i as int));
            assert(records_view(v@).take(i + 1).last() == v@[i as int]@);
        }
        let ghost x = v@[i as int]@;
        let ghost old_f = records_view(v@).take(i as int).filter(p);
        proof {
            reveal(Seq::filter);
            assert(records_view(v@).take(i + 1).filter(p) == if p(x) { old_f.push(x) } else { old_f });
        }
        if str_eq(v[i].local_date.as_str(), day) {
            let a = Access { at_utc: v[i].at_utc, hostname: v[i].hostname.clone(), tab_key: v[i].tab_key.clone() };
            r.push(a);
            proof {
                assert(old_f.push(v@[i as int]@).map_values(f) =~= old_f.map_values(f).push(f(v@[i as int]@)));
                assert(accesses_view(r@) =~= accesses_view(before).push(a@));
            }
        }
        i = i + 1;
    }
    proof {
        assert(records_view(v@).take(v.len() as int) =~= records_view(v@));
    }
    r
}

/// The name → category pairs of a choice list.
fn pairs_of(v: &Vec<Choice>) -> (r: Vec<(String, String)>)
    ensures
        pairs_view(r@) == choice_pairs(choices_view(v@)),
{
    let mut r: Vec<(String, String)> = Vec::new();
    let mut i: usize = 0;
    while i < v.len()
        invariant
            i <= v.len(),
            pairs_view(r@) == choice_pairs(choices_view(v@)).take(i as int),
        decreases v.len() - i,
    {
        let ghost before = r@;
        let pr = (v[i].name.clone(), v[i].category.clone());
        r.push(pr);
        proof {
            assert(pairs_view(r@) =~= pairs_view(before).push((v@[i as int].name@, v@[i as int].category@)));
            assert(choice_pairs(choices_view(v@)).take(i + 1) =~= choice_pairs(choices_view(v@)).take(i as int).push((v@[i as int].name@, v@[i as int].category@)));
        }
        i = i + 1;
    }
    proof {
        assert(choice_pairs(choices_view(v@)).take(v.len() as int) =~= choice_pairs(choices_view(v@)));
    }
    r
}

/// Whether the day's segments fit the report's arithmetic.
fn fits_report(v: &Vec<Segment>) -> (r: bool)
    ensures
        r == day_inputs_fit(segs_view(v@)),
{
    let ghost ss = segs_view(v@);
    let mut total: u64 = 0;
    let mut i: usize = 0;
    while i < v.len()
        invariant
            i <= v.len(),
            ss == segs_view(v@),
            total == total_all(ss.take(i as int)),
            forall|k: int| 0 <= k < i ==> segment_in_range(#[trigger] ss[k]),
        decreases v.len() - i,
    {
        let s = &v[i];
        proof {
            assert(ss.take(i + 1).drop_last() =~= ss.take(i as int));
            assert(ss.take(i + 1).last() == s@);
        }
        if !(s.duration_ms <= i64::MAX as u64 && (s.start_utc as i128) + (s.duration_ms as i128) <= (i64::MAX as i128) + 1) {
            proof {
                assert(!segment_in_range(ss[i as int]));
            }
            return false;
        }
        if total > u64::MAX - s.duration_ms {
            proof {
                lemma_total_monotone(ss, i as int + 1);
            }
            return false;
        }
        total = total + s.duration_ms;
        i = i + 1;
    }
    proof {
        assert(ss.take(v.len() as int) =~= ss);
    }
    true
}

proof fn lemma_total_monotone(ss: Seq<SegmentView>, i: int)
    requires
        0 <= i <= ss.len(),
    ensures
        total_all(ss.take(i)) <= total_all(ss),
    decreases ss.len() - i,
{
    if i < ss.len() {
        lemma_total_monotone(ss, i + 1);
        assert(ss.take(i + 1).drop_last() =~= ss.take(i));
    } else {
        assert(ss.take(i) =~= ss);
    }
}

/// The database with its checkpoint marked as a clean exit.
pub open spec fn clean_exit_spec(st: StoreView) -> StoreView {
    StoreView {
        checkpoint: match st.checkpoint {
            Some(c) => Some(Checkpoint { clean_exit: true, ..c }),
            None => None,
        },
        journal: st.journal.push(WriteView::CleanExit),
        ..st
    }
}

/// The database after recovery: every segment is closed.
pub open spec fn recovered_spec(s: StoreView) -> StoreView {
    StoreView {
        sessions: s.sessions.map_values(|x: SegmentView| SegmentView { is_open: false, ..x }),
        journal: s.journal.push(WriteView::CloseOpen),
        ..s
    }
}

impl Store {
    /// Closes every open segment and returns the last confirmed instant.
    pub fn recover(&mut self) -> (r: Result<Option<i64>, String>)
        requires
            store_wf(old(self)@),
        ensures
            r matches Ok(c) && c == match old(self)@.checkpoint {
                Some(k) => Some(k.confirmed_utc),
                None => None,
            },
            final(self)@ == recovered_spec(old(self)@),
            store_wf(final(self)@),
    {
        let ghost sv = segs_view(self.sessions@);
        let mut i: usize = 0;
        while i < self.sessions.len()
            invariant
                i <= self.sessions.len(),
                sv == segs_view(old(self).sessions@),
                self.sessions@.len() == old(self).sessions@.len(),
                forall|j: int| 0 <= j < i ==> segs_view(self.sessions@)[j] == (SegmentView { is_open: false, ..sv[j] }),
                forall|j: int| i <= j < self.sessions.len() ==> self.sessions@[j] == old(self).sessions@[j],
                self.accesses == old(self).accesses,
                self.categories == old(self).categories,
                self.domain_categories == old(self).domain_categories,
                self.app_categories == old(self).app_categories,
                self.checkpoint == old(self).checkpoint,
                self.settings == old(self).settings,
                self.next_id == old(self).next_id,
                self.journal == old(self).journal,
            decreases self.sessions.len() - i,
        {
            let ghost pre = self.sessions@;
            let mut seg = self.sessions.remove(i);
            seg.is_open = false;
            let ghost nv = seg@;
            self.sessions.insert(i, seg);
            proof {
                assert(self.sessions@ =~= pre.update(i as int, self.sessions@[i as int]));
                assert forall|j: int| 0 <= j < i + 1 implies segs_view(self.sessions@)[j] == (SegmentView { is_open: false, ..sv[j] }) by {
                    assert(segs_view(self.sessions@)[j] == self.sessions@[j]@);
                    if j < i {
                        assert(segs_view(pre)[j] == pre[j]@);
                    }
                }
            }
            i = i + 1;
        }
        self.journal.push(Write::CloseOpen);
        proof {
            assert(segs_view(self.sessions@) =~= sv.map_values(|x: SegmentView| SegmentView { is_open: false, ..x }));
            assert(writes_view(self.journal@) =~= writes_view(old(self).journal@).push(WriteView::CloseOpen));
            let ns = segs_view(self.sessions@);
            assert forall|j: int| 0 <= j < ns.len() implies 1 <= #[trigger] ns[j].id < self.next_id by {
                assert(ns[j].id == sv[j].id);
            }
        }
        match self.checkpoint {
            Some(c) => Ok(Some(c.confirmed_utc)),
            None => Ok(None),
        }
    }

    /// Marks the checkpoint as a clean exit.
    pub fn clean_exit(&mut self) -> (r: Result<(), String>)
        ensures
            r is Ok,
            final(self)@ == clean_exit_spec(old(self)@),
    {
        self.checkpoint = match self.checkpoint {
            Some(c) => Some(Checkpoint { confirmed_utc: c.confirmed_utc, clean_exit: true }),
            None => None,
        };
        self.journal.push(Write::CleanExit);
        proof {
            assert(writes_view(self.journal@) =~= writes_view(old(self).journal@).push(WriteView::CleanExit));
        }
        Ok(())
    }

    /// The recording checkpoint.
    pub fn checkpoint(&self) -> (r: Option<Checkpoint>)
        ensures
            r == self@.checkpoint,
    {
        self.checkpoint
    }

    /// Hands over the changes made since the last call, in order, and forgets them.
    pub fn take_journal(&mut self) -> (r: Vec<Write>)
        ensures
            writes_view(r@) == old(self)@.journal,
            final(self)@ == (StoreView { journal: Seq::empty(), ..old(self)@ }),
    {
        let mut r: Vec<Write> = Vec::new();
        std::mem::swap(&mut r, &mut self.journal);
        proof {
            assert(writes_view(self.journal@) =~= Seq::<WriteView>::empty());
        }
        r
    }

    /// The report of a valid day from the stored segments and accesses of that
    /// date, the categories and the current category choices. Refused: an
    /// invalid date, and a day whose durations do not fit the arithmetic.
    pub fn report(&self, day: &str) -> (r: Result<DayReport, String>)
        ensures
            r is Err <==> (!spec_valid_day(day) || !day_inputs_fit(sessions_of_day(self@.sessions, day@))),
            r matches Ok(rep) ==> crate::report::day_report(
                rep,
                day@,
                sessions_of_day(self@.sessions, day@),
                accesses_of_day(self@.accesses, day@),
                self@.categories,
                choice_pairs(self@.domain_categories),
                choice_pairs(self@.app_categories),
            ),
    {
        if !valid_day(day) {
            return Err(owned("Data inválida."));
        }
        let sessions = segments_of_day(&self.sessions, day);
        if !fits_report(&sessions) {
            return Err(owned("Duração fora do intervalo suportado."));
        }
        let accesses = accesses_of(&self.accesses, day);
        let domain_mappings = pairs_of(&self.domain_categories);
        let app_mappings = pairs_of(&self.app_categories);
        let categories = match self.categories() {
            Ok(c) => c,
            Err(e) => return Err(e),
        };
        proof {
            assert forall|i: int| 0 <= i < sessions.len() implies segment_in_range(#[trigger] sessions@[i]@) by {
                assert(segs_view(sessions@)[i] == sessions@[i]@);
            }
        }
        Ok(report(day, sessions, accesses, categories, domain_mappings, app_mappings))
    }
}

/// The view of an optional access: the stamp and the tab.
pub open spec fn access_view(a: Option<(&Stamp, &str)>) -> Option<(Stamp, Seq<char>)> {
    match a {
        Some(p) => Some((*p.0, p.1@)),
        None => None,
    }
}

/// The rows of a day are deleted, or all rows when no day is given.
pub open spec fn deleted(day: Option<Seq<char>>, local_date: Seq<char>) -> bool {
    match day {
        Some(d) => local_date == d,
        None => true,
    }
}

/// The database without the segments and accesses of a day, or of any day, and
/// without the checkpoint.
pub open spec fn delete_spec(st: StoreView, day: Option<Seq<char>>) -> StoreView {
    StoreView {
        sessions: st.sessions.filter(|s: SegmentView| !deleted(day, s.local_date)),
        accesses: st.accesses.filter(|a: AccessRecordView| !deleted(day, a.local_date)),
        checkpoint: None,
        journal: st.journal.push(WriteView::Delete(day)),
        ..st
    }
}

/// The database with the settings stored.
pub open spec fn saved_settings_spec(st: StoreView, s: SettingsView) -> StoreView {
    StoreView { settings: Some(s), journal: st.journal.push(WriteView::Settings(s)), ..st }
}

/// The settings a read gives back: the stored ones, or the defaults.
pub open spec fn settings_read(st: StoreView) -> SettingsView {
    match st.settings {
        Some(s) => s,
        None => default_settings(),
    }
}

/// Settings read back are the ones last saved. Before any save they are the
/// defaults, under which tracking starts paused, unconfigured, with a
/// five-minute inactivity limit and no VDI window. Storing a segment, closing
/// the open ones, marking a clean exit, cutting browser time and deleting data
/// leave them as they were.
pub proof fn lemma_settings_read_back(
    st: StoreView,
    s: SettingsView,
    seg: SegmentView,
    access: Option<(Stamp, Seq<char>)>,
    day: Option<Seq<char>>,
    run: Seq<char>,
    t: i64,
)
    ensures
        settings_read(saved_settings_spec(st, s)) == s,
        st.settings is None ==> settings_read(st) == default_settings(),
        default_settings().paused && !default_settings().configured,
        default_settings().idle_minutes == 5 && default_settings().vdi is None,
        settings_read(persist_spec(st, seg, access).0) == settings_read(st),
        settings_read(recovered_spec(st)) == settings_read(st),
        settings_read(clean_exit_spec(st)) == settings_read(st),
        settings_read(truncate_spec(st, run, t)) == settings_read(st),
        settings_read(delete_spec(st, day)) == settings_read(st),
{
}

impl Store {
    fn update_session(&mut self, seg: &Segment)
        requires
            store_wf(old(self)@),
        ensures
            final(self)@ == (StoreView { sessions: update_segment(old(self)@.sessions, seg@), ..old(self)@ }),
            store_wf(final(self)@),
    {
        let ghost sv = segs_view(self.sessions@);
        let ghost f = |r: SegmentView|
            if r.id == seg@.id {
                SegmentView { end_utc: seg@.end_utc, duration_ms: seg@.duration_ms, is_open: seg@.is_open, ..r }
            } else {
                r
            };
        let mut i: usize = 0;
        while i < self.sessions.len()
            invariant
                i <= self.sessions.len(),
                sv == segs_view(old(self).sessions@),
                f == (|r: SegmentView|
                    if r.id == seg@.id {
                        SegmentView { end_utc: seg@.end_utc, duration_ms: seg@.duration_ms, is_open: seg@.is_open, ..r }
                    } else {
                        r
                    }),
                self.sessions@.len() == old(self).sessions@.len(),
                forall|j: int| 0 <= j < i ==> segs_view(self.sessions@)[j] == f(sv[j]),
                forall|j: int| i <= j < self.sessions.len() ==> self.sessions@[j] == old(self).sessions@[j],
                self.accesses == old(self).accesses,
                self.categories == old(self).categories,
                self.domain_categories == old(self).domain_categories,
                self.app_categories == old(self).app_categories,
                self.checkpoint == old(self).checkpoint,
                self.settings == old(self).settings,
                self.next_id == old(self).next_id,
                self.journal == old(self).journal,
            decreases self.sessions.len() - i,
        {
            if self.sessions[i].id == seg.id {
                let ghost pre = self.sessions@;
                let mut row = self.sessions.remove(i);
                row.end_utc = seg.end_utc;
                row.duration_ms = seg.duration_ms;
                row.is_open = seg.is_open;
                self.sessions.insert(i, row);
                proof {
                    assert(self.sessions@ =~= pre.update(i as int, self.sessions@[i as int]));
                    assert forall|j: int| 0 <= j < i + 1 implies segs_view(self.sessions@)[j] == f(sv[j]) by {
                        assert(segs_view(self.sessions@)[j] == self.sessions@[j]@);
                        if j < i {
                            assert(segs_view(pre)[j] == pre[j]@);
                        }
                    }
                }
            } else {
                proof {
                    assert(segs_view(self.sessions@)[i as int] == self.sessions@[i as int]@);
                }
            }
            i = i + 1;
        }
        proof {
            assert(segs_view(self.sessions@) =~= sv.map_values(f));
            let ns = segs_view(self.sessions@);
            assert forall|j: int| 0 <= j < ns.len() implies 1 <= #[trigger] ns[j].id < self.next_id by {
                assert(ns[j].id == sv[j].id);
            }
        }
    }

    /// Saves a segment and, when given, an access at a tab; see [`persist_spec`].
    /// Refused when no id is left for a new segment.
    pub fn persist(&mut self, segment: &mut Segment, access: Option<(&Stamp, &str)>) -> (r: Result<(), String>)
        requires
            store_wf(old(self)@),
            midnight_defined(old(segment).end_utc as int),
        ensures
            r is Err <==> (old(segment).id == 0 && old(self)@.next_id == i64::MAX),
            r is Err ==> final(self)@ == old(self)@ && final(segment)@ == old(segment)@,
            r is Ok ==> (final(self)@, final(segment)@) == persist_spec(old(self)@, old(segment)@, access_view(access)),
            store_wf(final(self)@),
    {
        if segment.id == 0 && self.next_id == i64::MAX {
            return Err(owned("database or disk is full"));
        }
        let ghost before = self@;
        let ghost seg0 = segment@;
        if segment.id == 0 {
            segment.id = self.next_id;
            self.next_id = self.next_id + 1;
            let copy = segment.clone();
            self.sessions.push(copy);
            proof {
                assert(segs_view(self.sessions@) =~= before.sessions.push(segment@));
                let ns = segs_view(self.sessions@);
                assert forall|j: int| 0 <= j < ns.len() implies 1 <= #[trigger] ns[j].id < self.next_id by {
                    if j < before.sessions.len() {
                        assert(ns[j] == before.sessions[j]);
                    }
                }
            }
        } else {
            self.update_session(segment);
        }
        let ghost mid_journal = writes_view(self.journal@);
        self.journal.push(Write::Session(segment.clone()));
        let ghost mid_accesses = records_view(self.accesses@);
        let mut recorded = false;
        if let Some((at, tab_key)) = access {
            if let Some(host) = &segment.activity.hostname {
                let rec = AccessRecord {
                    run_id: segment.run_id.clone(),
                    at_utc: at.utc,
                    local_date: at.date(),
                    hostname: host.clone(),
                    tab_key: owned(tab_key),
                };
                let copy = AccessRecord {
                    run_id: segment.run_id.clone(),
                    at_utc: at.utc,
                    local_date: at.date(),
                    hostname: host.clone(),
                    tab_key: owned(tab_key),
                };
                self.accesses.push(rec);
                self.journal.push(Write::Access(copy));
                recorded = true;
            }
        }
        self.journal.push(Write::Checkpoint(segment.end_utc));
        self.checkpoint = Some(Checkpoint { confirmed_utc: segment.end_utc, clean_exit: false });
        proof {
            let (st, saved) = persist_spec(before, seg0, access_view(access));
            assert(segment@ == saved);
            assert(segs_view(self.sessions@) == st.sessions);
            assert(records_view(self.accesses@) =~= st.accesses);
            assert(writes_view(self.journal@) =~= st.journal);
        }
        Ok(())
    }

    /// Deletes the segments and accesses of a day, or all of them, and the
    /// checkpoint; categories, choices and settings stay. Refused: an invalid day.
    pub fn delete(&mut self, day: Option<&str>) -> (r: Result<(), String>)
        requires
            store_wf(old(self)@),
        ensures
            r is Err <==> (day matches Some(d) && !spec_valid_day(d)),
            r is Err ==> final(self)@ == old(self)@,
            r is Ok ==> final(self)@ == delete_spec(old(self)@, opt_str(day)),
            store_wf(final(self)@),
    {
        let mut day_owned: Option<String> = None;
        if let Some(d) = day {
            if !valid_day(d) {
                return Err(owned("Data inválida."));
            }
            day_owned = Some(owned(d));
        }
        let ghost dv = opt_str(day);
        let ghost ps = |s: SegmentView| !deleted(dv, s.local_date);
        let ghost pa = |a: AccessRecordView| !deleted(dv, a.local_date);
        let ghost sv = segs_view(self.sessions@);
        let ghost av = records_view(self.accesses@);
        let mut kept: Vec<Segment> = Vec::new();
        let mut i: usize = 0;
        while i < self.sessions.len()
            invariant
                i <= self.sessions.len(),
                sv == segs_view(self.sessions@),
                opt_view(day_owned) == dv,
                ps == (|s: SegmentView| !deleted(dv, s.local_date)),
                segs_view(kept@) == sv.take(i as int).filter(ps),
                store_wf(old(self)@),
                sv == old(self)@.sessions,
                forall|a: int, b: int| 0 <= a < b < kept@.len() ==> kept@[a].id < kept@[b].id,
                forall|a: int, k: int| 0 <= a < kept@.len() && i <= k < sv.len() ==> #[trigger] kept@[a].id < #[trigger] sv[k].id,
            decreases self.sessions.len() - i,
        {
            let ghost x = self.sessions@[i as int]@;
            let ghost old_f = sv.take(i as int).filter(ps);
            proof {
                assert(sv.take(i + 1).drop_last() =~= sv.take(i as int));
                assert(sv.take(i + 1).last() == x);
                reveal(Seq::filter);
                assert(sv.take(i + 1).filter(ps) == if ps(x) { old_f.push(x) } else { old_f });
            }
            let drop = match &day_owned {
                Some(d) => str_eq(self.sessions[i].local_date.as_str(), d.as_str()),
                None => true,
            };
            proof {
                assert(sv[i as int] == self.sessions@[i as int]@);
            }
            if !drop {
                let c = self.sessions[i].clone();
                let ghost pre = kept@;
                kept.push(c);
                proof {
                    assert(segs_view(kept@) =~= segs_view(pre).push(c@));
                    assert(c.id == sv[i as int].id);
                }
            }
            i = i + 1;
        }
        let mut kept_acc: Vec<AccessRecord> = Vec::new();
        let mut k: usize = 0;
        while k < self.accesses.len()
            invariant
                k <= self.accesses.len(),
                av == records_view(self.accesses@),
                opt_view(day_owned) == dv,
                pa == (|a: AccessRecordView| !deleted(dv, a.local_date)),
                records_view(kept_acc@) == av.take(k as int).filter(pa),
            decreases self.accesses.len() - k,
        {
            let ghost x = self.accesses@[k as int]@;
            let ghost old_f = av.take(k as int).filter(pa);
            proof {
                assert(av.take(k + 1).drop_last() =~= av.take(k as int));
                assert(av.take(k + 1).last() == x);
                reveal(Seq::filter);
                assert(av.take(k + 1).filter(pa) == if pa(x) { old_f.push(x) } else { old_f });
            }
            let drop = match &day_owned {
                Some(d) => str_eq(self.accesses[k].local_date.as_str(), d.as_str()),
                None => true,
            };
            if !drop {
                let a = &self.accesses[k];
                let c = AccessRecord {
                    run_id: a.run_id.clone(),
                    at_utc: a.at_utc,
                    local_date: a.local_date.clone(),
                    hostname: a.hostname.clone(),
                    tab_key: a.tab_key.clone(),
                };
                let ghost pre = kept_acc@;
                kept_acc.push(c);
                proof {
                    assert(records_view(kept_acc@) =~= records_view(pre).push(c@));
                }
            }
            k = k + 1;
        }
        proof {
            assert(sv.take(self.sessions.len() as int) =~= sv);
            assert(av.take(self.accesses.len() as int) =~= av);
            broadcast use vstd::seq_lib::group_filter_ensures;
        }
        self.sessions = kept;
        self.accesses = kept_acc;
        self.checkpoint = None;
        self.journal.push(Write::Delete(day_owned));
        proof {
            assert(writes_view(self.journal@) =~= writes_view(old(self).journal@).push(WriteView::Delete(dv)));
            let ns = segs_view(self.sessions@);
            assert forall|j: int| 0 <= j < ns.len() implies 1 <= #[trigger] ns[j].id < self.next_id by {
                assert(ns == sv.filter(ps));
                assert(ns.contains(ns[j]));
                sv.lemma_filter_contains_rev(ps, ns[j]);
                let m = choose|m: int| 0 <= m < sv.len() && sv[m] == ns[j];
            }
        }
        Ok(())
    }
}

/// The view of an optional string slice.
pub open spec fn opt_str(o: Option<&str>) -> Option<Seq<char>> {
    match o {
        Some(s) => Some(s@),
        None => None,
    }
}

/// The schema version this library writes.
pub const SCHEMA_USER_VERSION: u32 = 3;

/// The numbered migrations that bring a database of `version` to the current
/// schema, in order: every migration after the version. A newer database is
/// refused and left untouched.
pub open spec fn spec_migration_plan(version: u32) -> Option<Seq<u32>> {
    if version > 3 {
        None
    } else if version == 0 {
        Some(seq![1u32, 2u32, 3u32])
    } else if version == 1 {
        Some(seq![2u32, 3u32])
    } else if version == 2 {
        Some(seq![3u32])
    } else {
        Some(Seq::empty())
    }
}

/// See [`spec_migration_plan`].
pub fn migration_plan(version: u32) -> (r: Result<Vec<u32>, String>)
    ensures
        match spec_migration_plan(version) {
            None => r is Err,
            Some(p) => r matches Ok(v) && v@ == p,
        },
{
    if version > 3 {
        return Err(owned("Banco de uma versão mais recente. Nenhum dado foi alterado."));
    }
    let mut plan: Vec<u32> = Vec::new();
    if version == 0 {
        plan.push(1);
    }
    if version <= 1 {
        plan.push(2);
    }
    if version <= 2 {
        plan.push(3);
    }
    proof {
        if version == 0 {
            assert(plan@ =~= seq![1u32, 2u32, 3u32]);
        } else if version == 1 {
            assert(plan@ =~= seq![2u32, 3u32]);
        } else if version == 2 {
            assert(plan@ =~= seq![3u32]);
        } else {
            assert(plan@ =~= Seq::<u32>::empty());
        }
    }
    Ok(plan)
}

/// Rows read back from disk can form a database: segment ids are positive and
/// increasing with room for one more, category ids are distinct, and the
/// checkpoint lies where its next midnight can be written.
pub open spec fn parts_ok(ss: Seq<SegmentView>, cats: Seq<CategoryView>, checkpoint: Option<Checkpoint>) -> bool {
    &&& forall|i: int| 0 <= i < ss.len() ==> 1 <= #[trigger] ss[i].id < i64::MAX
    &&& forall|i: int, j: int| 0 <= i < j < ss.len() ==> ss[i].id < ss[j].id
    &&& forall|i: int, j: int| 0 <= i < j < cats.len() ==> cats[i].id != cats[j].id
    &&& match checkpoint {
        Some(c) => midnight_defined(c.confirmed_utc as int),
        None => true,
    }
}

impl Store {
    /// A database made of rows read back from disk, with an empty journal.
    /// Refused when the rows break [`parts_ok`].
    pub fn from_parts(
        sessions: Vec<Segment>,
        accesses: Vec<AccessRecord>,
        categories: Vec<Category>,
        domain_categories: Vec<Choice>,
        app_categories: Vec<Choice>,
        checkpoint: Option<Checkpoint>,
        settings: Option<Settings>,
    ) -> (r: Result<Store, String>)
        ensures
            r is Ok <==> parts_ok(segs_view(sessions@), categories_view(categories@), checkpoint),
            r matches Ok(s) ==> {
                &&& s@.sessions == segs_view(sessions@)
                &&& s@.accesses == records_view(accesses@)
                &&& s@.categories == categories_view(categories@)
                &&& s@.domain_categories == choices_view(domain_categories@)
                &&& s@.app_categories == choices_view(app_categories@)
                &&& s@.checkpoint == checkpoint
                &&& s@.settings == match settings {
                    Some(x) => Some(x@),
                    None => None,
                }
                &&& s@.journal == Seq::<WriteView>::empty()
                &&& store_wf(s@)
            },
    {
        let ghost sv = segs_view(sessions@);
        let ghost cv = categories_view(categories@);
        let mut last: i64 = 0;
        let mut i: usize = 0;
        while i < sessions.len()
            invariant
                i <= sessions.len(),
                sv == segs_view(sessions@),
                forall|k: int| 0 <= k < i ==> 1 <= #[trigger] sv[k].id < i64::MAX && sv[k].id <= last,
                forall|k: int, m: int| 0 <= k < m < i ==> sv[k].id < sv[m].id,
                i > 0 ==> last == sv[i - 1].id,
                i == 0 ==> last == 0,
            decreases sessions.len() - i,
        {
            let id = sessions[i].id;
            if id < 1 || id == i64::MAX || id <= last {
                proof {
                    assert(sv[i as int].id == id);
                    if i > 0 && id <= last {
                        assert(sv[i - 1].id >= sv[i as int].id);
                    }
                }
                return Err(owned("Banco inconsistente."));
            }
            last = id;
            i = i + 1;
        }
        let mut a: usize = 0;
        while a < categories.len()
            invariant
                a <= categories.len(),
                cv == categories_view(categories@),
                forall|x: int, y: int| 0 <= x < y < a ==> cv[x].id != cv[y].id,
            decreases categories.len() - a,
        {
            let mut b: usize = 0;
            while b < a
                invariant
                    a < categories.len(),
                    b <= a,
                    cv == categories_view(categories@),
                    forall|x: int| 0 <= x < b ==> cv[x].id != cv[a as int].id,
                decreases a - b,
            {
                if str_eq(categories[b].id.as_str(), categories[a].id.as_str()) {
                    proof {
                        assert(cv[b as int].id == cv[a as int].id);
                    }
                    return Err(owned("Banco inconsistente."));
                }
                b = b + 1;
            }
            a = a + 1;
        }
        match checkpoint {
            Some(c) => {
                if !(i64::MIN + 2 * (crate::sessions::DAY_MS as i64) <= c.confirmed_utc
                    && c.confirmed_utc <= i64::MAX - 2 * (crate::sessions::DAY_MS as i64)) {
                    return Err(owned("Banco inconsistente."));
                }
            },
            None => {},
        }
        let next_id = last + 1;
        let s = Store {
            sessions,
            accesses,
            categories,
            domain_categories,
            app_categories,
            checkpoint,
            settings,
            next_id,
            journal: Vec::new(),
        };
        proof {
            assert(writes_view(s.journal@) =~= Seq::<WriteView>::empty());
        }
        Ok(s)
    }
}


/// A browser segment of `run` that started before `t` and ended after it, cut
/// back to end at `t`; its duration loses the part after `t`, down to zero.
pub open spec fn cut_browser(s: SegmentView, run: Seq<char>, t: i64) -> SegmentView {
    if s.run_id == run && s.activity.source == "browser"@ && s.start_utc < t && s.end_utc > t {
        SegmentView {
            duration_ms: if s.duration_ms <= s.end_utc - t {
                0
            } else {
                (s.duration_ms - (s.end_utc - t)) as u64
            },
            end_utc: t,
            ..s
        }
    } else {
        s
    }
}

/// A browser segment of `run` that started at `t` or later.
pub open spec fn after_cut(s: SegmentView, run: Seq<char>, t: i64) -> bool {
    s.run_id == run && s.activity.source == "browser"@ && s.start_utc >= t
}

/// The segments with the browser time of `run` from `t` on taken away: those
/// started from `t` on are deleted, those running across `t` are cut at `t`.
pub open spec fn cut_sessions(ss: Seq<SegmentView>, run: Seq<char>, t: i64) -> Seq<SegmentView>
    decreases ss.len(),
{
    if ss.len() == 0 {
        Seq::empty()
    } else {
        let rest = cut_sessions(ss.drop_last(), run, t);
        if after_cut(ss.last(), run, t) {
            rest
        } else {
            rest.push(cut_browser(ss.last(), run, t))
        }
    }
}

/// The database after the browser time of `run` from `t` on was taken away.
pub open spec fn truncate_spec(st: StoreView, run: Seq<char>, t: i64) -> StoreView {
    StoreView {
        sessions: cut_sessions(st.sessions, run, t),
        journal: st.journal.push(WriteView::TruncateBrowser(run, t)),
        ..st
    }
}

impl Store {
    /// Takes away the browser time of `run` from `t` on; see [`truncate_spec`].
    pub fn truncate_browser(&mut self, run: &str, t: i64)
        requires
            store_wf(old(self)@),
        ensures
            final(self)@ == truncate_spec(old(self)@, run@, t),
            store_wf(final(self)@),
    {
        let ghost sv = segs_view(self.sessions@);
        let mut kept: Vec<Segment> = Vec::new();
        let mut i: usize = 0;
        while i < self.sessions.len()
            invariant
                i <= self.sessions.len(),
                sv == segs_view(self.sessions@),
                segs_view(kept@) == cut_sessions(sv.take(i as int), run@, t),
                forall|j: int| 0 <= j < kept@.len() ==> 1 <= #[trigger] kept@[j].id < self.next_id,
                store_wf(self@),
                forall|a: int, b: int| 0 <= a < b < kept@.len() ==> kept@[a].id < kept@[b].id,
                forall|a: int, k: int| 0 <= a < kept@.len() && i <= k < sv.len() ==> #[trigger] kept@[a].id < #[trigger] sv[k].id,
            decreases self.sessions.len() - i,
        {
            proof {
                assert(sv.take(i + 1).drop_last() =~= sv.take(i as int));
                assert(sv.take(i + 1).last() == sv[i as int]);
                assert(sv[i as int] == self.sessions@[i as int]@);
                assert(1 <= sv[i as int].id < self.next_id);
            }
            let s = &self.sessions[i];
            let mine = str_eq(s.run_id.as_str(), run) && str_eq(s.activity.source.as_str(), "browser");
            if !(mine && s.start_utc >= t) {
                let mut c = s.clone();
                if mine && s.start_utc < t && s.end_utc > t {
                    let over: i128 = s.end_utc as i128 - t as i128;
                    c.duration_ms = if (s.duration_ms as i128) <= over {
                        0
                    } else {
                        (s.duration_ms as i128 - over) as u64
                    };
                    c.end_utc = t;
                }
                let ghost pre = kept@;
                kept.push(c);
                proof {
                    assert(segs_view(kept@) =~= segs_view(pre).push(c@));
                }
            }
            i = i + 1;
        }
        proof {
            assert(sv.take(self.sessions.len() as int) =~= sv);
        }
        self.sessions = kept;
        self.journal.push(Write::TruncateBrowser(owned(run), t));
        proof {
            assert(writes_view(self.journal@) =~= writes_view(old(self).journal@).push(WriteView::TruncateBrowser(run@, t)));
            let ns = segs_view(self.sessions@);
            assert forall|j: int| 0 <= j < ns.len() implies 1 <= #[trigger] ns[j].id < self.next_id by {
                assert(ns[j] == self.sessions@[j]@);
            }
        }
    }
}


proof fn lemma_filter_push<A>(s: Seq<A>, x: A, p: spec_fn(A) -> bool)
    ensures
        s.push(x).filter(p) == if p(x) {
            s.filter(p).push(x)
        } else {
            s.filter(p)
        },
{
    reveal(Seq::filter);
    assert(s.push(x).drop_last() =~= s);
}

proof fn lemma_filter_twice<A>(s: Seq<A>, p: spec_fn(A) -> bool, q: spec_fn(A) -> bool, pq: spec_fn(A) -> bool)
    requires
        forall|x: A| #[trigger] pq(x) == (p(x) && q(x)),
    ensures
        s.filter(p).filter(q) == s.filter(pq),
    decreases s.len(),
{
    reveal(Seq::filter);
    if s.len() > 0 {
        let init = s.drop_last();
        let x = s.last();
        lemma_filter_twice(init, p, q, pq);
        assert(s =~= init.push(x));
        lemma_filter_push(init, x, p);
        lemma_filter_push(init, x, pq);
        if p(x) {
            lemma_filter_push(init.filter(p), x, q);
        }
    }
}

proof fn lemma_filter_none<A>(s: Seq<A>, p: spec_fn(A) -> bool)
    requires
        forall|x: A| !#[trigger] p(x),
    ensures
        s.filter(p) == Seq::<A>::empty(),
    decreases s.len(),
{
    reveal(Seq::filter);
    if s.len() > 0 {
        lemma_filter_none(s.drop_last(), p);
    }
}

proof fn lemma_filter_same<A>(s: Seq<A>, p: spec_fn(A) -> bool, q: spec_fn(A) -> bool)
    requires
        forall|x: A| #[trigger] p(x) == q(x),
    ensures
        s.filter(p) == s.filter(q),
    decreases s.len(),
{
    reveal(Seq::filter);
    if s.len() > 0 {
        lemma_filter_same(s.drop_last(), p, q);
    }
}

/// Deleting a day leaves nothing of that day, leaves every other day as it
/// was, and keeps categories, choices and settings; deleting everything leaves
/// no segment and no access.
pub proof fn lemma_delete_scope(st: StoreView, day: Seq<char>, other: Seq<char>)
    ensures
        sessions_of_day(delete_spec(st, Some(day)).sessions, day) == Seq::<SegmentView>::empty(),
        accesses_of_day(delete_spec(st, Some(day)).accesses, day) == Seq::<AccessView>::empty(),
        other != day ==> sessions_of_day(delete_spec(st, Some(day)).sessions, other) == sessions_of_day(st.sessions, other),
        other != day ==> accesses_of_day(delete_spec(st, Some(day)).accesses, other) == accesses_of_day(st.accesses, other),
        delete_spec(st, None).sessions.len() == 0,
        delete_spec(st, None).accesses.len() == 0,
        delete_spec(st, Some(day)).categories == st.categories,
        delete_spec(st, Some(day)).domain_categories == st.domain_categories,
        delete_spec(st, Some(day)).app_categories == st.app_categories,
        delete_spec(st, Some(day)).settings == st.settings,
{
    let d = Some(day);
    let ks = |s: SegmentView| !deleted(d, s.local_date);
    let ka = |a: AccessRecordView| !deleted(d, a.local_date);
    let ds = |s: SegmentView| s.local_date == day;
    let da = |a: AccessRecordView| a.local_date == day;
    let os = |s: SegmentView| s.local_date == other;
    let oa = |a: AccessRecordView| a.local_date == other;
    lemma_filter_twice(st.sessions, ks, ds, |s: SegmentView| ks(s) && ds(s));
    lemma_filter_none(st.sessions, |s: SegmentView| ks(s) && ds(s));
    lemma_filter_twice(st.accesses, ka, da, |a: AccessRecordView| ka(a) && da(a));
    lemma_filter_none(st.accesses, |a: AccessRecordView| ka(a) && da(a));
    assert(Seq::<AccessRecordView>::empty().map_values(
        |a: AccessRecordView| AccessView { at_utc: a.at_utc, hostname: a.hostname, tab_key: a.tab_key },
    ) =~= Seq::<AccessView>::empty());
    if other != day {
        lemma_filter_twice(st.sessions, ks, os, |s: SegmentView| ks(s) && os(s));
        lemma_filter_same(st.sessions, |s: SegmentView| ks(s) && os(s), os);
        lemma_filter_twice(st.accesses, ka, oa, |a: AccessRecordView| ka(a) && oa(a));
        lemma_filter_same(st.accesses, |a: AccessRecordView| ka(a) && oa(a), oa);
    }
    lemma_filter_none(st.sessions, |s: SegmentView| !deleted(None, s.local_date));
    lemma_filter_none(st.accesses, |a: AccessRecordView| !deleted(None, a.local_date));
}

proof fn lemma_lookup_uniform(m: Seq<(Seq<char>, Seq<char>)>, k: Seq<char>, v: Seq<char>, i: int)
    requires
        0 <= i < m.len(),
        m[i].0 == k,
        forall|j: int| 0 <= j < m.len() && (#[trigger] m[j]).0 == k ==> m[j].1 == v,
    ensures
        lookup(m, k) == Some(v),
    decreases m.len(),
{
    if m.last().0 != k {
        assert(i < m.len() - 1);
        assert(m.drop_last()[i] == m[i]);
        assert forall|j: int| 0 <= j < m.drop_last().len() && (#[trigger] m.drop_last()[j]).0 == k implies m.drop_last()[j].1
            == v by {
            assert(m.drop_last()[j] == m[j]);
        }
        lemma_lookup_uniform(m.drop_last(), k, v, i);
    } else {
        assert(m[m.len() - 1] == m.last());
    }
}

/// After a choice for `name`, the pairs give `name` the chosen category.
pub proof fn lemma_choice_found(cs: Seq<ChoiceView>, c: ChoiceView)
    ensures
        lookup(choice_pairs(upsert_choice(cs, c)), c.name) == Some(c.category),
{
    if exists|i: int| 0 <= i < cs.len() && #[trigger] cs[i].name == c.name {
        let i = choose|i: int| 0 <= i < cs.len() && #[trigger] cs[i].name == c.name;
        let up = upsert_choice(cs, c);
        let m = choice_pairs(up);
        assert(up[i] == c);
        assert(m[i] == (c.name, c.category));
        assert forall|j: int| 0 <= j < m.len() && (#[trigger] m[j]).0 == c.name implies m[j].1 == c.category by {
            assert(m[j] == (up[j].name, up[j].category));
        }
        lemma_lookup_uniform(m, c.name, c.category, i);
    } else {
        assert(choice_pairs(cs.push(c)) =~= choice_pairs(cs).push((c.name, c.category)));
    }
}

/// Choosing a category for a domain gives that category to all of its browser
/// time, on every day, the past included.
pub proof fn lemma_domain_choice_applies(
    cs: Seq<ChoiceView>,
    host: Seq<char>,
    category: Seq<char>,
    at: i64,
    am: Seq<(Seq<char>, Seq<char>)>,
    a: ActivityView,
)
    requires
        a.source == "browser"@,
        a.hostname == Some(host),
    ensures
        session_category(a, choice_pairs(upsert_choice(cs, chosen(host, category, at))), am) == category,
{
    lemma_choice_found(cs, chosen(host, category, at));
}

/// Choosing a category for a local application gives that category to all of
/// its time, on every day, the past included.
pub proof fn lemma_app_choice_applies(
    cs: Seq<ChoiceView>,
    name: Seq<char>,
    category: Seq<char>,
    at: i64,
    dm: Seq<(Seq<char>, Seq<char>)>,
    a: ActivityView,
)
    requires
        a.source == "app"@,
        a.app_name == Some(name),
    ensures
        session_category(a, dm, choice_pairs(upsert_choice(cs, chosen(name, category, at)))) == category,
{
    lemma_choice_found(cs, chosen(name, category, at));
    reveal_strlit("app");
    reveal_strlit("browser");
    reveal_strlit("vdi");
    assert("app"@ != "browser"@) by {
        assert("app"@.len() != "browser"@.len());
    }
    assert("app"@ != "vdi"@) by {
        assert("app"@[0] != "vdi"@[0]);
    }
}


/// Before any choice, every site is unknown and every local application is
/// local work.
pub proof fn lemma_default_categories(a: ActivityView)
    ensures
        a.source == "browser"@ ==> session_category(a, Seq::empty(), Seq::empty()) == "unknown"@,
        a.source == "app"@ ==> session_category(a, Seq::empty(), Seq::empty()) == "local"@,
{
    reveal_strlit("app");
    reveal_strlit("browser");
    reveal_strlit("vdi");
    assert("app"@ != "browser"@) by {
        assert("app"@.len() != "browser"@.len());
    }
    assert("app"@ != "vdi"@) by {
        assert("app"@[0] != "vdi"@[0]);
    }
}

} // verus!
