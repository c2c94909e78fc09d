//! The totals of one day, computed from its recorded segments and accesses.
use crate::sessions::{
    calendar_utc, context_of, hour_label_text, format_hour_label, Access, AccessView, ActivityView,
    AppTotal, Bucket, Category, CategoryView, DayReport, DomainTotal, Segment, SegmentView,
};
use crate::tally::{
    add_to_rows, lemma_empty_total, lemma_sorted_represents, lemma_sorted_rows_unique, lemma_tally_add_total,
    lemma_tally_step, represents, row_before, rows_total, rows_view, same_totals, untagged_rows,
    sort_rows, sorted_rows, tally_add, Row, RowView, Tally,
};
use crate::text::{opt_view, owned, str_eq, str_lt, seq_lt};
use vstd::prelude::*;

verus! {

/// The schema version of the report and of its export.
pub const SCHEMA_VERSION: u32 = 3;

/// Milliseconds in one hour.
pub const HOUR_MS: u64 = 3_600_000;

/// The views of name → category pairs.
pub open spec fn pairs_view(m: Seq<(String, String)>) -> Seq<(Seq<char>, Seq<char>)> {
    m.map_values(|p: (String, String)| (p.0@, p.1@))
}

/// The category that a list of name → category pairs gives `key`: the last pair
/// for it wins, as when the pairs are collected into a map.
pub open spec fn lookup(m: Seq<(Seq<char>, Seq<char>)>, key: Seq<char>) -> Option<Seq<char>>
    decreases m.len(),
{
    if m.len() == 0 {
        None
    } else if m.last().0 == key {
        Some(m.last().1)
    } else {
        lookup(m.drop_last(), key)
    }
}

/// The category of a segment's activity: a browser tab takes its domain's
/// category or `unknown`, a local application its own or `local`, the VDI and
/// the system their own, anything else `unknown`.
pub open spec fn session_category(
    a: ActivityView,
    dm: Seq<(Seq<char>, Seq<char>)>,
    am: Seq<(Seq<char>, Seq<char>)>,
) -> Seq<char> {
    if a.source == "browser"@ {
        match lookup(dm, match a.hostname { Some(h) => h, None => Seq::empty() }) {
            Some(c) => c,
            None => "unknown"@,
        }
    } else if a.source == "vdi"@ {
        "vdi"@
    } else if a.source == "app"@ {
        match lookup(am, match a.app_name { Some(n) => n, None => Seq::empty() }) {
            Some(c) => c,
            None => "local"@,
        }
    } else if a.source == "system"@ {
        "system"@
    } else {
        "unknown"@
    }
}

/// Time that counts as observed: everything but pauses and unobserved gaps.
pub open spec fn measured(a: ActivityView) -> bool {
    a.source != "paused"@ && a.source != "unobserved"@
}

/// The category `c` is marked as a distraction.
pub open spec fn is_distraction(cats: Seq<CategoryView>, c: Seq<char>) -> bool {
    exists|i: int| 0 <= i < cats.len() && #[trigger] cats[i].id == c && cats[i].distraction
}

/// Some category is marked as a distraction.
pub open spec fn distractions_configured(cats: Seq<CategoryView>) -> bool {
    exists|i: int| 0 <= i < cats.len() && #[trigger] cats[i].distraction
}

/// The sum of the durations of the segments that `keep` selects.
pub open spec fn total_where(ss: Seq<SegmentView>, keep: spec_fn(SegmentView) -> bool) -> int
    decreases ss.len(),
{
    if ss.len() == 0 {
        0
    } else {
        total_where(ss.drop_last(), keep) + if keep(ss.last()) {
            ss.last().duration_ms as int
        } else {
            0
        }
    }
}

/// The sum of all durations.
pub open spec fn total_all(ss: Seq<SegmentView>) -> int {
    total_where(ss, |s: SegmentView| true)
}

/// The last segment with a context, whether a run continues it, and the focus
/// and switch counters, after a sequence of segments.
pub struct Flow {
    pub prev: Option<(Seq<char>, i64, Seq<char>)>,
    pub focus: int,
    pub longest: int,
    pub switches: int,
}

/// One segment of the sequence: empty segments are skipped; a segment is
/// connected to the previous one when it continues it in the same run without a
/// clock adjustment. Connected VDI segments extend the focus block; a change of
/// context across a connection is a switch.
pub open spec fn flow_step(f: Flow, s: SegmentView) -> Flow {
    if s.duration_ms == 0 {
        f
    } else {
        let connected = match f.prev {
            Some(p) => p.0 == s.run_id && p.1 == s.start_utc && s.activity.reason != "clock_adjusted"@,
            None => false,
        };
        let ms = s.duration_ms as int;
        let prev_vdi = match f.prev {
            Some(p) => p.2 == "vdi"@,
            None => false,
        };
        let is_vdi = s.activity.source == "vdi"@;
        let focus = if is_vdi {
            if connected && prev_vdi {
                f.focus + ms
            } else {
                ms
            }
        } else {
            0
        };
        let longest = if is_vdi && focus > f.longest {
            focus
        } else {
            f.longest
        };
        match context_of(s.activity) {
            Some(c) => {
                let switched = match f.prev {
                    Some(p) => connected && p.2 != c,
                    None => false,
                };
                Flow {
                    prev: Some((s.run_id, s.end_utc, c)),
                    focus,
                    longest,
                    switches: f.switches + if switched {
                        1int
                    } else {
                        0
                    },
                }
            },
            None => Flow { prev: None, focus, longest, switches: f.switches },
        }
    }
}

/// The flow after all of `ss`.
pub open spec fn flow(ss: Seq<SegmentView>) -> Flow
    decreases ss.len(),
{
    if ss.len() == 0 {
        Flow { prev: None, focus: 0, longest: 0, switches: 0 }
    } else {
        flow_step(flow(ss.drop_last()), ss.last())
    }
}

/// Time per domain: every non-empty segment with a hostname adds its duration,
/// the first one fixing the domain's category.
pub open spec fn domain_tally(
    ss: Seq<SegmentView>,
    dm: Seq<(Seq<char>, Seq<char>)>,
    am: Seq<(Seq<char>, Seq<char>)>,
) -> Map<Seq<char>, Tally>
    decreases ss.len(),
{
    if ss.len() == 0 {
        Map::empty()
    } else {
        let m = domain_tally(ss.drop_last(), dm, am);
        let s = ss.last();
        if s.duration_ms > 0 && s.activity.hostname is Some {
            tally_add(m, s.activity.hostname->0, session_category(s.activity, dm, am), s.duration_ms as int, 0)
        } else {
            m
        }
    }
}

/// Adds one access per entry to its domain; a domain seen only in accesses
/// takes its mapped category or `unknown`.
pub open spec fn access_tally(
    m: Map<Seq<char>, Tally>,
    acc: Seq<AccessView>,
    dm: Seq<(Seq<char>, Seq<char>)>,
) -> Map<Seq<char>, Tally>
    decreases acc.len(),
{
    if acc.len() == 0 {
        m
    } else {
        let a = acc.last();
        tally_add(
            access_tally(m, acc.drop_last(), dm),
            a.hostname,
            match lookup(dm, a.hostname) {
                Some(c) => c,
                None => "unknown"@,
            },
            0,
            1,
        )
    }
}

/// The category of an application: its mapped category, or `local`.
pub open spec fn app_category(name: Seq<char>, am: Seq<(Seq<char>, Seq<char>)>) -> Seq<char> {
    match lookup(am, name) {
        Some(c) => c,
        None => "local"@,
    }
}

/// Time per application, over measured non-empty segments that name their
/// application: local applications, and Google Chrome for its browser time.
/// Each application carries its own category.
pub open spec fn app_tally(
    ss: Seq<SegmentView>,
    dm: Seq<(Seq<char>, Seq<char>)>,
    am: Seq<(Seq<char>, Seq<char>)>,
) -> Map<Seq<char>, Tally>
    decreases ss.len(),
{
    if ss.len() == 0 {
        Map::empty()
    } else {
        let m = app_tally(ss.drop_last(), dm, am);
        let s = ss.last();
        if s.duration_ms > 0 && measured(s.activity) && s.activity.app_name is Some {
            tally_add(m, s.activity.app_name->0, app_category(s.activity.app_name->0, am), s.duration_ms as int, 0)
        } else {
            m
        }
    }
}

/// Time per category, over measured, non-idle, non-empty segments.
pub open spec fn category_tally(
    ss: Seq<SegmentView>,
    dm: Seq<(Seq<char>, Seq<char>)>,
    am: Seq<(Seq<char>, Seq<char>)>,
) -> Map<Seq<char>, Tally>
    decreases ss.len(),
{
    if ss.len() == 0 {
        Map::empty()
    } else {
        let m = category_tally(ss.drop_last(), dm, am);
        let s = ss.last();
        if s.duration_ms > 0 && measured(s.activity) && s.activity.source != "idle"@ {
            tally_add(m, session_category(s.activity, dm, am), Seq::empty(), s.duration_ms as int, 0)
        } else {
            m
        }
    }
}

/// The hour label of an instant as the calendar writes it, with the same
/// fallbacks as the local date.
pub open spec fn hour_label_at(t: int, offset: i32) -> Seq<char> {
    hour_label_text(
        if calendar_utc(t) { t } else { 0 },
        if -86_400 < offset < 86_400 { offset as int } else { 0 },
    )
}

/// Splits `ms` milliseconds from `start + elapsed` at the hour boundaries of the
/// stored offset and adds each piece to the hour it starts in.
pub open spec fn add_hours(m: Map<Seq<char>, Tally>, start: int, offset: i32, ms: int, elapsed: int) -> Map<
    Seq<char>,
    Tally,
>
    decreases ms - elapsed,
{
    if elapsed >= ms {
        m
    } else {
        let local = (start + elapsed + offset * 1000) % (HOUR_MS as int);
        let amount = if HOUR_MS - local < ms - elapsed {
            HOUR_MS - local
        } else {
            ms - elapsed
        };
        add_hours(
            tally_add(m, hour_label_at(start + elapsed, offset), Seq::empty(), amount, 0),
            start,
            offset,
            ms,
            elapsed + amount,
        )
    }
}

/// Time per local hour over measured non-empty segments.
pub open spec fn hour_tally(ss: Seq<SegmentView>) -> Map<Seq<char>, Tally>
    decreases ss.len(),
{
    if ss.len() == 0 {
        Map::empty()
    } else {
        let m = hour_tally(ss.drop_last());
        let s = ss.last();
        if s.duration_ms > 0 && measured(s.activity) {
            add_hours(m, s.start_utc as int, s.offset_seconds, s.duration_ms as int, 0)
        } else {
            m
        }
    }
}

/// A domain total as a row.
pub open spec fn domain_row(d: DomainTotal) -> RowView {
    RowView { key: d.hostname@, category: d.category@, duration: d.duration_ms as int, accesses: d.accesses as int }
}

/// An application total as a row.
pub open spec fn app_row(a: AppTotal) -> RowView {
    RowView { key: a.label@, category: a.category@, duration: a.duration_ms as int, accesses: 0 }
}

/// A bucket as a row.
pub open spec fn bucket_row(b: Bucket) -> RowView {
    RowView { key: b.label@, category: Seq::empty(), duration: b.duration_ms as int, accesses: 0 }
}

/// A candidate for the largest distraction: a row with time whose category is
/// a distraction.
pub open spec fn distraction_candidate(r: RowView, cats: Seq<CategoryView>) -> bool {
    r.duration > 0 && is_distraction(cats, r.category)
}

/// `label` is the label of the largest distraction among `rows`: a candidate
/// with the longest time, and the first by name among those.
pub open spec fn largest_among(rows: Seq<RowView>, cats: Seq<CategoryView>, label: Seq<char>) -> bool {
    exists|i: int|
        0 <= i < rows.len() && distraction_candidate(#[trigger] rows[i], cats) && rows[i].key == label
            && forall|j: int|
            0 <= j < rows.len() && distraction_candidate(#[trigger] rows[j], cats) ==> rows[j].duration
                < rows[i].duration || (rows[j].duration == rows[i].duration && !seq_lt(
                rows[j].key,
                label,
            ))
}

/// Every instant of the segment, `start_utc` plus an elapsed time below its
/// duration, is an `i64`, as the hourly split computes it.
pub open spec fn segment_in_range(s: SegmentView) -> bool {
    &&& s.duration_ms <= i64::MAX
    &&& s.start_utc + s.duration_ms <= i64::MAX + 1
}

/// The views of a vector's elements.
pub open spec fn segs_view(v: Seq<Segment>) -> Seq<SegmentView> {
    v.map_values(|s: Segment| s@)
}

/// The views of the accesses.
pub open spec fn accesses_view(v: Seq<Access>) -> Seq<AccessView> {
    v.map_values(|a: Access| a@)
}

/// The views of the categories.
pub open spec fn categories_view(v: Seq<Category>) -> Seq<CategoryView> {
    v.map_values(|c: Category| c@)
}

proof fn lemma_total_where_le(ss: Seq<SegmentView>, keep: spec_fn(SegmentView) -> bool)
    ensures
        0 <= total_where(ss, keep) <= total_all(ss),
    decreases ss.len(),
{
    if ss.len() > 0 {
        lemma_total_where_le(ss.drop_last(), keep);
    }
}

proof fn lemma_total_prefix(ss: Seq<SegmentView>, i: int)
    requires
        0 <= i <= ss.len(),
    ensures
        total_all(ss.take(i)) <= total_all(ss),
    decreases ss.len() - i,
{
    if i < ss.len() {
        lemma_total_prefix(ss, i + 1);
        assert(ss.take(i + 1).drop_last() =~= ss.take(i));
    } else {
        assert(ss.take(i) =~= ss);
    }
}

/// The category of an activity; see [`session_category`].
fn find_mapping(m: &Vec<(String, String)>, key: &str) -> (r: Option<String>)
    ensures
        opt_view(r) == lookup(pairs_view(m@), key@),
{
    let mut i = m.len();
    proof {
        assert(pairs_view(m@).take(i as int) =~= pairs_view(m@));
    }
    while i > 0
        invariant
            i <= m.len(),
            lookup(pairs_view(m@), key@) == lookup(pairs_view(m@).take(i as int), key@),
        decreases i,
    {
        let ghost p = pairs_view(m@).take(i as int);
        proof {
            assert(p.drop_last() =~= pairs_view(m@).take(i - 1));
        }
        if str_eq(m[i - 1].0.as_str(), key) {
            return Some(m[i - 1].1.clone());
        }
        i = i - 1;
    }
    None
}

fn category_of(a: &crate::sessions::Activity, dm: &Vec<(String, String)>, am: &Vec<(String, String)>) -> (r: String)
    ensures
        r@ == session_category(a@, pairs_view(dm@), pairs_view(am@)),
{
    let src = a.source.as_str();
    if str_eq(src, "browser") {
        let key = match &a.hostname {
            Some(h) => h.clone(),
            None => String::new(),
        };
        match find_mapping(dm, key.as_str()) {
            Some(c) => c,
            None => owned("unknown"),
        }
    } else if str_eq(src, "vdi") {
        owned("vdi")
    } else if str_eq(src, "app") {
        let key = match &a.app_name {
            Some(h) => h.clone(),
            None => String::new(),
        };
        match find_mapping(am, key.as_str()) {
            Some(c) => c,
            None => owned("local"),
        }
    } else if str_eq(src, "system") {
        owned("system")
    } else {
        owned("unknown")
    }
}

fn category_is_distraction(cats: &Vec<Category>, c: &str) -> (r: bool)
    ensures
        r == is_distraction(categories_view(cats@), c@),
{
    let mut i: usize = 0;
    while i < cats.len()
        invariant
            i <= cats.len(),
            forall|j: int| 0 <= j < i ==> !(categories_view(cats@)[j].id == c@ && categories_view(cats@)[j].distraction),
        decreases cats.len() - i,
    {
        if cats[i].distraction && str_eq(cats[i].id.as_str(), c) {
            proof {
                assert(categories_view(cats@)[i as int].id == c@);
            }
            return true;
        }
        i = i + 1;
    }
    false
}

fn any_distraction(cats: &Vec<Category>) -> (r: bool)
    ensures
        r == distractions_configured(categories_view(cats@)),
{
    let mut i: usize = 0;
    while i < cats.len()
        invariant
            i <= cats.len(),
            forall|j: int| 0 <= j < i ==> !categories_view(cats@)[j].distraction,
        decreases cats.len() - i,
    {
        if cats[i].distraction {
            proof {
                assert(categories_view(cats@)[i as int].distraction);
            }
            return true;
        }
        i = i + 1;
    }
    false
}

/// The running state of the focus and switch counters.
struct FlowState {
    prev: Option<(String, i64, String)>,
    focus: u64,
    longest: u64,
    switches: u64,
}

impl View for FlowState {
    type V = Flow;

    closed spec fn view(&self) -> Flow {
        Flow {
            prev: match self.prev {
                Some(p) => Some((p.0@, p.1, p.2@)),
                None => None,
            },
            focus: self.focus as int,
            longest: self.longest as int,
            switches: self.switches as int,
        }
    }
}

fn step_flow(st: &mut FlowState, s: &Segment)
    requires
        s.duration_ms > 0,
        old(st).focus + s.duration_ms <= u64::MAX,
        old(st).switches < u64::MAX,
        old(st).longest <= u64::MAX,
    ensures
        final(st)@ == flow_step(old(st)@, s@),
{
    let ms = s.duration_ms;
    let connected = match &st.prev {
        Some(p) => str_eq(p.0.as_str(), s.run_id.as_str()) && p.1 == s.start_utc && !str_eq(
            s.activity.reason.as_str(),
            "clock_adjusted",
        ),
        None => false,
    };
    let prev_vdi = match &st.prev {
        Some(p) => str_eq(p.2.as_str(), "vdi"),
        None => false,
    };
    if str_eq(s.activity.source.as_str(), "vdi") {
        if connected && prev_vdi {
            st.focus = st.focus + ms;
        } else {
            st.focus = ms;
        }
        if st.focus > st.longest {
            st.longest = st.focus;
        }
    } else {
        st.focus = 0;
    }
    match s.activity.context() {
        Some(c) => {
            let switched = match &st.prev {
                Some(p) => connected && !str_eq(p.2.as_str(), c.as_str()),
                None => false,
            };
            if switched {
                st.switches = st.switches + 1;
            }
            st.prev = Some((s.run_id.clone(), s.end_utc, c));
        },
        None => {
            st.prev = None;
        },
    }
}

/// The day's scalar totals while they are summed.
struct Totals {
    coverage: u64,
    idle: u64,
    vdi: u64,
    unknown: u64,
    unclassified: u64,
    unidentified: u64,
    distraction: u64,
}

/// Idle time.
pub open spec fn is_idle(s: SegmentView) -> bool {
    s.activity.source == "idle"@
}

/// VDI time.
pub open spec fn is_vdi(s: SegmentView) -> bool {
    s.activity.source == "vdi"@
}

/// Measured, non-idle time whose category is `unknown`.
pub open spec fn is_unknown(s: SegmentView, dm: Seq<(Seq<char>, Seq<char>)>, am: Seq<(Seq<char>, Seq<char>)>) -> bool {
    measured(s.activity) && s.activity.source != "idle"@ && session_category(s.activity, dm, am) == "unknown"@
}

/// Unknown browser time: sites without a category.
pub open spec fn is_unclassified(s: SegmentView, dm: Seq<(Seq<char>, Seq<char>)>, am: Seq<(Seq<char>, Seq<char>)>) -> bool {
    is_unknown(s, dm, am) && s.activity.source == "browser"@
}

/// Unknown time outside the browser: windows that were not identified.
pub open spec fn is_unidentified(s: SegmentView, dm: Seq<(Seq<char>, Seq<char>)>, am: Seq<(Seq<char>, Seq<char>)>) -> bool {
    is_unknown(s, dm, am) && s.activity.source != "browser"@
}

/// Browser or local-application time in a category marked as a distraction;
/// idle time, gaps, VDI and unidentified windows never count.
pub open spec fn is_distracted(
    s: SegmentView,
    dm: Seq<(Seq<char>, Seq<char>)>,
    am: Seq<(Seq<char>, Seq<char>)>,
    cats: Seq<CategoryView>,
) -> bool {
    &&& (s.activity.source == "browser"@ || s.activity.source == "app"@)
    &&& is_distraction(cats, session_category(s.activity, dm, am))
}

fn step_totals(t: &mut Totals, s: &Segment, category: &String, distraction: bool, Ghost(dm): Ghost<Seq<(Seq<char>, Seq<char>)>>, Ghost(am): Ghost<Seq<(Seq<char>, Seq<char>)>>, Ghost(cats): Ghost<Seq<CategoryView>>)
    requires
        category@ == session_category(s@.activity, dm, am),
        distraction == is_distracted(s@, dm, am, cats),
        old(t).coverage + s.duration_ms <= u64::MAX,
        old(t).idle + s.duration_ms <= u64::MAX,
        old(t).vdi + s.duration_ms <= u64::MAX,
        old(t).unknown + s.duration_ms <= u64::MAX,
        old(t).unclassified + s.duration_ms <= u64::MAX,
        old(t).unidentified + s.duration_ms <= u64::MAX,
        old(t).distraction + s.duration_ms <= u64::MAX,
    ensures
        final(t).coverage == old(t).coverage + if measured(s@.activity) { s.duration_ms } else { 0 },
        final(t).idle == old(t).idle + if is_idle(s@) { s.duration_ms } else { 0 },
        final(t).vdi == old(t).vdi + if is_vdi(s@) { s.duration_ms } else { 0 },
        final(t).unknown == old(t).unknown + if is_unknown(s@, dm, am) { s.duration_ms } else { 0 },
        final(t).unclassified == old(t).unclassified + if is_unclassified(s@, dm, am) { s.duration_ms } else { 0 },
        final(t).unidentified == old(t).unidentified + if is_unidentified(s@, dm, am) { s.duration_ms } else { 0 },
        final(t).distraction == old(t).distraction + if distraction { s.duration_ms } else { 0 },
{
    let ms = s.duration_ms;
    let src = s.activity.source.as_str();
    let is_measured = !str_eq(src, "paused") && !str_eq(src, "unobserved");
    let idle = str_eq(src, "idle");
    let browser = str_eq(src, "browser");
    if is_measured {
        t.coverage = t.coverage + ms;
    }
    if idle {
        t.idle = t.idle + ms;
    }
    if str_eq(src, "vdi") {
        t.vdi = t.vdi + ms;
    }
    if is_measured && !idle && str_eq(category.as_str(), "unknown") {
        t.unknown = t.unknown + ms;
        if browser {
            t.unclassified = t.unclassified + ms;
        } else {
            t.unidentified = t.unidentified + ms;
        }
    }
    if distraction {
        t.distraction = t.distraction + ms;
    }
}

/// Every row has no accesses and an empty category, as buckets do.
pub open spec fn plain_rows(rows: Seq<Row>) -> bool {
    forall|i: int| 0 <= i < rows.len() ==> (#[trigger] rows[i]).accesses == 0 && rows[i].category@ == Seq::<char>::empty()
}

/// Every row's duration is at most `bound`.
pub open spec fn rows_bounded(rows: Seq<Row>, bound: int) -> bool {
    forall|i: int| 0 <= i < rows.len() ==> (#[trigger] rows[i]).duration <= bound
}

/// Adding to rows keeps their durations under the raised bound, and keeps the
/// accesses of every row under the raised count.
proof fn lemma_add_bounded(pre: Seq<Row>, post: Seq<Row>, key: Seq<char>, category: Seq<char>, ms: int, acc: int, pos: Option<usize>, bound: int, count: int)
    requires
        forall|i: int| 0 <= i < pre.len() ==> (#[trigger] pre[i]).duration <= bound && pre[i].accesses <= count,
        0 <= ms,
        0 <= acc,
        0 <= bound,
        0 <= count,
        match pos {
            Some(i) => 0 <= i < pre.len() && rows_view(pre)[i as int].key == key
                && rows_view(post) == rows_view(pre).update(
                i as int,
                RowView {
                    key: key,
                    category: rows_view(pre)[i as int].category,
                    duration: rows_view(pre)[i as int].duration + ms,
                    accesses: rows_view(pre)[i as int].accesses + acc,
                },
            ),
            None => rows_view(post) == rows_view(pre).push(
                RowView { key: key, category: category, duration: ms, accesses: acc },
            ),
        },
    ensures
        forall|i: int| 0 <= i < post.len() ==> (#[trigger] post[i]).duration <= bound + ms && post[i].accesses <= count + acc,
        (forall|i: int| 0 <= i < pre.len() ==> (#[trigger] pre[i]).accesses == 0 && pre[i].category@ == Seq::<char>::empty())
            && acc == 0 && category == Seq::<char>::empty() ==> plain_rows(post),
{
    assert(rows_view(post).len() == post.len());
    assert forall|i: int| 0 <= i < post.len() implies (#[trigger] post[i]).duration <= bound + ms && post[i].accesses <= count + acc by {
        assert(rows_view(post)[i] == post[i]@);
        if i < pre.len() {
            assert(rows_view(pre)[i] == pre[i]@);
        }
    }
    if (forall|i: int| 0 <= i < pre.len() ==> (#[trigger] pre[i]).accesses == 0 && pre[i].category@ == Seq::<char>::empty())
        && acc == 0 && category == Seq::<char>::empty() {
        assert forall|i: int| 0 <= i < post.len() implies (#[trigger] post[i]).accesses == 0 && post[i].category@ == Seq::<char>::empty() by {
            assert(rows_view(post)[i] == post[i]@);
            if i < pre.len() {
                assert(rows_view(pre)[i] == pre[i]@);
            }
        }
    }
}

/// Adds the measured time of one segment to the hour rows.
fn add_hours_exec(rows: &mut Vec<Row>, start: i64, offset: i32, ms: u64, Ghost(m): Ghost<Map<Seq<char>, Tally>>, Ghost(bound): Ghost<int>)
    requires
        represents(rows_view(old(rows)@), m),
        rows_bounded(old(rows)@, bound),
        plain_rows(old(rows)@),
        0 <= bound,
        bound + ms <= u64::MAX,
        ms <= i64::MAX,
        start + ms <= i64::MAX + 1,
    ensures
        represents(rows_view(final(rows)@), add_hours(m, start as int, offset, ms as int, 0)),
        rows_bounded(final(rows)@, bound + ms),
        plain_rows(final(rows)@),
{
    let mut elapsed: u64 = 0;
    let ghost mut cur = m;
    while elapsed < ms
        invariant
            elapsed <= ms,
            ms <= i64::MAX,
            start + ms <= i64::MAX + 1,
            0 <= bound,
            bound + ms <= u64::MAX,
            represents(rows_view(rows@), cur),
            add_hours(cur, start as int, offset, ms as int, elapsed as int) == add_hours(m, start as int, offset, ms as int, 0),
            rows_bounded(rows@, bound + elapsed),
            plain_rows(rows@),
        decreases ms - elapsed,
    {
        let t: i64 = start + elapsed as i64;
        let shifted: i128 = t as i128 + (offset as i128) * 1000;
        let hour: i128 = HOUR_MS as i128;
        let r: i128 = shifted % hour;
        let local: i128 = if r < 0 { r + hour } else { r };
        proof {
            assert(local as int == (start + elapsed + offset * 1000) % (HOUR_MS as int));
        }
        let room = HOUR_MS - local as u64;
        let amount = if room < ms - elapsed { room } else { ms - elapsed };
        let label_utc = if crate::sessions::CALENDAR_MIN_UTC <= t && t <= crate::sessions::CALENDAR_MAX_UTC { t } else { 0 };
        let label = format_hour_label(label_utc, crate::sessions::accepted_offset(offset));
        let ghost pre = rows@;
        let pos = add_to_rows(rows, label.as_str(), "", amount, 0);
        proof {
            let e: Seq<char> = "".view();
            assert(e =~= Seq::<char>::empty()) by {
                reveal_strlit("");
            }
            let p: Option<int> = match pos { Some(i) => Some(i as int), None => None };
            lemma_tally_step(rows_view(pre), rows_view(rows@), cur, label@, Seq::empty(), amount as int, 0, p);
            cur = tally_add(cur, label@, Seq::empty(), amount as int, 0);
            lemma_add_bounded(pre, rows@, label@, e, amount as int, 0, pos, bound + elapsed, 0);
        }
        elapsed = elapsed + amount;
    }
}

/// The domain totals as rows.
pub open spec fn domain_rows(v: Seq<DomainTotal>) -> Seq<RowView> {
    v.map_values(|d: DomainTotal| domain_row(d))
}

/// The application totals as rows.
pub open spec fn app_rows(v: Seq<AppTotal>) -> Seq<RowView> {
    v.map_values(|a: AppTotal| app_row(a))
}

/// The buckets as rows.
pub open spec fn bucket_rows(v: Seq<Bucket>) -> Seq<RowView> {
    v.map_values(|b: Bucket| bucket_row(b))
}

fn to_domain_totals(rows: Vec<Row>) -> (out: Vec<DomainTotal>)
    ensures
        domain_rows(out@) == rows_view(rows@),
{
    let mut out: Vec<DomainTotal> = Vec::new();
    let mut rest = rows;
    let ghost all = rows_view(rest@);
    while rest.len() > 0
        invariant
            domain_rows(out@) + rows_view(rest@) == all,
        decreases rest.len(),
    {
        let ghost pre = rest@;
        let r = rest.remove(0);
        let ghost before = domain_rows(out@);
        out.push(DomainTotal { hostname: r.key, category: r.category, duration_ms: r.duration, accesses: r.accesses });
        proof {
            assert(pre[0] == r);
            assert(domain_rows(out@) =~= before.push(r@));
            assert(rows_view(pre) =~= seq![r@] + rows_view(rest@));
            assert(before.push(r@) + rows_view(rest@) =~= before + rows_view(pre));
        }
    }
    proof {
        assert(domain_rows(out@) + rows_view(rest@) =~= domain_rows(out@));
    }
    out
}

fn to_app_totals(rows: Vec<Row>) -> (out: Vec<AppTotal>)
    requires
        forall|i: int| 0 <= i < rows.len() ==> (#[trigger] rows@[i]).accesses == 0,
    ensures
        app_rows(out@) == rows_view(rows@),
{
    let mut out: Vec<AppTotal> = Vec::new();
    let mut rest = rows;
    let ghost all = rows_view(rest@);
    while rest.len() > 0
        invariant
            app_rows(out@) + rows_view(rest@) == all,
            forall|i: int| 0 <= i < rest.len() ==> (#[trigger] rest@[i]).accesses == 0,
        decreases rest.len(),
    {
        let ghost pre = rest@;
        let r = rest.remove(0);
        proof {
            assert(pre[0] == r);
            assert forall|i: int| 0 <= i < rest.len() implies (#[trigger] rest@[i]).accesses == 0 by {
                assert(rest@[i] == pre[i + 1]);
            }
        }
        let ghost before = app_rows(out@);
        out.push(AppTotal { label: r.key, category: r.category, duration_ms: r.duration });
        proof {
            assert(app_rows(out@) =~= before.push(r@));
            assert(rows_view(pre) =~= seq![r@] + rows_view(rest@));
            assert(before.push(r@) + rows_view(rest@) =~= before + rows_view(pre));
        }
    }
    proof {
        assert(app_rows(out@) + rows_view(rest@) =~= app_rows(out@));
    }
    out
}

fn to_buckets(rows: Vec<Row>) -> (out: Vec<Bucket>)
    requires
        plain_rows(rows@),
    ensures
        bucket_rows(out@) == rows_view(rows@),
{
    let mut out: Vec<Bucket> = Vec::new();
    let mut rest = rows;
    let ghost all = rows_view(rest@);
    while rest.len() > 0
        invariant
            bucket_rows(out@) + rows_view(rest@) == all,
            plain_rows(rest@),
        decreases rest.len(),
    {
        let ghost pre = rest@;
        let r = rest.remove(0);
        proof {
            assert(pre[0] == r);
            assert forall|i: int| 0 <= i < rest.len() implies (#[trigger] rest@[i]).accesses == 0 && rest@[i].category@ == Seq::<char>::empty() by {
                assert(rest@[i] == pre[i + 1]);
            }
        }
        let ghost before = bucket_rows(out@);
        out.push(Bucket { label: r.key, duration_ms: r.duration });
        proof {
            assert(bucket_rows(out@) =~= before.push(r@));
            assert(rows_view(pre) =~= seq![r@] + rows_view(rest@));
            assert(before.push(r@) + rows_view(rest@) =~= before + rows_view(pre));
        }
    }
    proof {
        assert(bucket_rows(out@) + rows_view(rest@) =~= bucket_rows(out@));
    }
    out
}

fn is_candidate(r: &Row, cats: &Vec<Category>) -> (b: bool)
    ensures
        b == distraction_candidate(r@, categories_view(cats@)),
{
    r.duration > 0 && category_is_distraction(cats, r.category.as_str())
}

/// `best` is the largest distraction among the first `k` rows, found at `at`.
spec fn best_so_far(best: Option<(Seq<char>, u64)>, all: Seq<RowView>, k: int, cv: Seq<CategoryView>, at: int) -> bool {
    match best {
        None => forall|i: int| 0 <= i < k ==> !distraction_candidate(#[trigger] all[i], cv),
        Some(p) => 0 <= at < k && distraction_candidate(all[at], cv) && all[at].key == p.0
            && all[at].duration == p.1 && forall|j: int|
            0 <= j < k && distraction_candidate(#[trigger] all[j], cv) ==> all[j].duration < p.1 || (
            all[j].duration == p.1 && !seq_lt(all[j].key, p.0)),
    }
}

spec fn best_view(best: Option<(String, u64)>) -> Option<(Seq<char>, u64)> {
    match best {
        Some(p) => Some((p.0@, p.1)),
        None => None,
    }
}

/// Takes the `k`-th row into account.
fn consider(best: &mut Option<(String, u64)>, row: &Row, cats: &Vec<Category>, Ghost(all): Ghost<Seq<RowView>>, Ghost(k): Ghost<int>, Ghost(at): Ghost<int>) -> (new_at: Ghost<int>)
    requires
        0 <= k < all.len(),
        all[k] == row@,
        best_so_far(best_view(*old(best)), all, k, categories_view(cats@), at),
    ensures
        best_so_far(best_view(*final(best)), all, k + 1, categories_view(cats@), new_at@),
{
    let ghost cv = categories_view(cats@);
    if is_candidate(row, cats) {
        let take = match &*best {
            None => true,
            Some(p) => row.duration > p.1 || (row.duration == p.1 && str_lt(row.key.as_str(), p.0.as_str())),
        };
        if take {
            proof {
                crate::text::lemma_seq_lt_irreflexive(row.key@);
                match &*best {
                    None => {},
                    Some(p) => {
                        assert forall|j: int| 0 <= j < k + 1 && distraction_candidate(#[trigger] all[j], cv) implies all[j].duration < row.duration || (
                            all[j].duration == row.duration && !seq_lt(all[j].key, row.key@)) by {
                            if j == k {
                                crate::text::lemma_seq_lt_irreflexive(row.key@);
                            } else if all[j].duration == row.duration && seq_lt(all[j].key, row.key@) {
                                crate::text::lemma_seq_lt_transitive(all[j].key, row.key@, p.0@);
                            }
                        }
                    },
                }
            }
            *best = Some((row.key.clone(), row.duration));
            return Ghost(k);
        } else {
            proof {
                match &*best {
                    None => {},
                    Some(p) => {
                        if row.duration == p.1 && row.key@ != p.0@ {
                            crate::text::lemma_seq_lt_total(row.key@, p.0@);
                        }
                    },
                }
            }
        }
    }
    Ghost(at)
}

/// The label of the largest distraction among the rows of `a` and then `b`.
fn largest_distraction(a: &Vec<Row>, b: &Vec<Row>, cats: &Vec<Category>) -> (r: Option<String>)
    ensures
        match r {
            None => forall|i: int| 0 <= i < (rows_view(a@) + rows_view(b@)).len() ==> !distraction_candidate(
                #[trigger] (rows_view(a@) + rows_view(b@))[i],
                categories_view(cats@),
            ),
            Some(l) => largest_among(rows_view(a@) + rows_view(b@), categories_view(cats@), l@),
        },
{
    let ghost all = rows_view(a@) + rows_view(b@);
    let ghost cv = categories_view(cats@);
    let mut best: Option<(String, u64)> = None;
    let mut at: Ghost<int> = Ghost(0);
    let mut i: usize = 0;
    while i < a.len()
        invariant
            all == rows_view(a@) + rows_view(b@),
            cv == categories_view(cats@),
            i <= a.len(),
            best_so_far(best_view(best), all, i as int, cv, at@),
        decreases a.len() - i,
    {
        proof {
            assert(all[i as int] == a@[i as int]@);
        }
        at = consider(&mut best, &a[i], cats, Ghost(all), Ghost(i as int), at);
        i = i + 1;
    }
    let mut j: usize = 0;
    while j < b.len()
        invariant
            all == rows_view(a@) + rows_view(b@),
            cv == categories_view(cats@),
            j <= b.len(),
            best_so_far(best_view(best), all, a.len() + j, cv, at@),
        decreases b.len() - j,
    {
        proof {
            assert(all[a.len() + j] == b@[j as int]@);
        }
        at = consider(&mut best, &b[j], cats, Ghost(all), Ghost(a.len() + j), at);
        j = j + 1;
    }
    match best {
        Some(p) => Some(p.0),
        None => None,
    }
}

/// Selects measured time.
pub open spec fn keep_measured() -> spec_fn(SegmentView) -> bool {
    |s: SegmentView| measured(s.activity)
}

/// Selects idle time.
pub open spec fn keep_idle() -> spec_fn(SegmentView) -> bool {
    |s: SegmentView| is_idle(s)
}

/// Selects VDI time.
pub open spec fn keep_vdi() -> spec_fn(SegmentView) -> bool {
    |s: SegmentView| is_vdi(s)
}

/// Selects unknown time.
pub open spec fn keep_unknown(dm: Seq<(Seq<char>, Seq<char>)>, am: Seq<(Seq<char>, Seq<char>)>) -> spec_fn(SegmentView) -> bool {
    |s: SegmentView| is_unknown(s, dm, am)
}

/// Selects unknown browser time.
pub open spec fn keep_unclassified(dm: Seq<(Seq<char>, Seq<char>)>, am: Seq<(Seq<char>, Seq<char>)>) -> spec_fn(SegmentView) -> bool {
    |s: SegmentView| is_unclassified(s, dm, am)
}

/// Selects unknown time outside the browser.
pub open spec fn keep_unidentified(dm: Seq<(Seq<char>, Seq<char>)>, am: Seq<(Seq<char>, Seq<char>)>) -> spec_fn(SegmentView) -> bool {
    |s: SegmentView| is_unidentified(s, dm, am)
}

/// Selects time in distraction categories.
pub open spec fn keep_distracted(
    dm: Seq<(Seq<char>, Seq<char>)>,
    am: Seq<(Seq<char>, Seq<char>)>,
    cats: Seq<CategoryView>,
) -> spec_fn(SegmentView) -> bool {
    |s: SegmentView| is_distracted(s, dm, am, cats)
}

spec fn totals_ok(t: Totals, ss: Seq<SegmentView>, dm: Seq<(Seq<char>, Seq<char>)>, am: Seq<(Seq<char>, Seq<char>)>, cv: Seq<CategoryView>) -> bool {
    &&& t.coverage == total_where(ss, keep_measured())
    &&& t.idle == total_where(ss, keep_idle())
    &&& t.vdi == total_where(ss, keep_vdi())
    &&& t.unknown == total_where(ss, keep_unknown(dm, am))
    &&& t.unclassified == total_where(ss, keep_unclassified(dm, am))
    &&& t.unidentified == total_where(ss, keep_unidentified(dm, am))
    &&& t.distraction == total_where(ss, keep_distracted(dm, am, cv))
}

spec fn no_accesses(rows: Seq<Row>) -> bool {
    forall|i: int| 0 <= i < rows.len() ==> (#[trigger] rows[i]).accesses == 0
}

proof fn lemma_push_totals(ss: Seq<SegmentView>, s: SegmentView, keep: spec_fn(SegmentView) -> bool)
    ensures
        total_where(ss.push(s), keep) == total_where(ss, keep) + if keep(s) { s.duration_ms as int } else { 0 },
{
    assert(ss.push(s).drop_last() =~= ss);
}

/// Adds one segment to every running total.
#[verifier::rlimit(40)]
fn add_session(
    t: &mut Totals,
    fl: &mut FlowState,
    domains: &mut Vec<Row>,
    apps: &mut Vec<Row>,
    cat_rows: &mut Vec<Row>,
    hours: &mut Vec<Row>,
    s: &Segment,
    dmv: &Vec<(String, String)>,
    amv: &Vec<(String, String)>,
    cats: &Vec<Category>,
    Ghost(ss): Ghost<Seq<SegmentView>>,
)
    requires
        totals_ok(*old(t), ss, pairs_view(dmv@), pairs_view(amv@), categories_view(cats@)),
        old(fl)@ == flow(ss),
        old(fl).focus <= total_all(ss),
        old(fl).longest <= total_all(ss),
        old(fl).switches <= ss.len(),
        ss.len() < u64::MAX,
        represents(rows_view(old(domains)@), domain_tally(ss, pairs_view(dmv@), pairs_view(amv@))),
        no_accesses(old(domains)@),
        rows_bounded(old(domains)@, total_all(ss)),
        represents(rows_view(old(apps)@), app_tally(ss, pairs_view(dmv@), pairs_view(amv@))),
        no_accesses(old(apps)@),
        rows_bounded(old(apps)@, total_all(ss)),
        represents(rows_view(old(cat_rows)@), category_tally(ss, pairs_view(dmv@), pairs_view(amv@))),
        plain_rows(old(cat_rows)@),
        rows_bounded(old(cat_rows)@, total_all(ss)),
        represents(rows_view(old(hours)@), hour_tally(ss)),
        plain_rows(old(hours)@),
        rows_bounded(old(hours)@, total_all(ss)),
        total_all(ss.push(s@)) <= u64::MAX,
        segment_in_range(s@),
    ensures
        totals_ok(*final(t), ss.push(s@), pairs_view(dmv@), pairs_view(amv@), categories_view(cats@)),
        final(fl)@ == flow(ss.push(s@)),
        final(fl).focus <= total_all(ss.push(s@)),
        final(fl).longest <= total_all(ss.push(s@)),
        final(fl).switches <= ss.len() + 1,
        represents(rows_view(final(domains)@), domain_tally(ss.push(s@), pairs_view(dmv@), pairs_view(amv@))),
        no_accesses(final(domains)@),
        rows_bounded(final(domains)@, total_all(ss.push(s@))),
        represents(rows_view(final(apps)@), app_tally(ss.push(s@), pairs_view(dmv@), pairs_view(amv@))),
        no_accesses(final(apps)@),
        rows_bounded(final(apps)@, total_all(ss.push(s@))),
        represents(rows_view(final(cat_rows)@), category_tally(ss.push(s@), pairs_view(dmv@), pairs_view(amv@))),
        plain_rows(final(cat_rows)@),
        rows_bounded(final(cat_rows)@, total_all(ss.push(s@))),
        represents(rows_view(final(hours)@), hour_tally(ss.push(s@))),
        plain_rows(final(hours)@),
        rows_bounded(final(hours)@, total_all(ss.push(s@))),
{
    let ghost dm = pairs_view(dmv@);
    let ghost am = pairs_view(amv@);
    let ghost cv = categories_view(cats@);
    let ghost sv = s@;
    let ghost ns = ss.push(sv);
    let ms = s.duration_ms;
    proof {
        assert(ns.drop_last() =~= ss);
        assert(ns.last() == sv);
        lemma_push_totals(ss, sv, |s: SegmentView| true);
        lemma_push_totals(ss, sv, keep_measured());
        lemma_push_totals(ss, sv, keep_idle());
        lemma_push_totals(ss, sv, keep_vdi());
        lemma_push_totals(ss, sv, keep_unknown(dm, am));
        lemma_push_totals(ss, sv, keep_unclassified(dm, am));
        lemma_push_totals(ss, sv, keep_unidentified(dm, am));
        lemma_push_totals(ss, sv, keep_distracted(dm, am, cv));
        lemma_total_where_le(ss, keep_measured());
        lemma_total_where_le(ss, keep_idle());
        lemma_total_where_le(ss, keep_vdi());
        lemma_total_where_le(ss, keep_unknown(dm, am));
        lemma_total_where_le(ss, keep_unclassified(dm, am));
        lemma_total_where_le(ss, keep_unidentified(dm, am));
        lemma_total_where_le(ss, keep_distracted(dm, am, cv));
    }
    if ms == 0 {
        return;
    }
    let category = category_of(&s.activity, dmv, amv);
    let distraction = (str_eq(s.activity.source.as_str(), "browser") || str_eq(s.activity.source.as_str(), "app"))
        && category_is_distraction(cats, category.as_str());
    step_totals(t, s, &category, distraction, Ghost(dm), Ghost(am), Ghost(cv));
    step_flow(fl, s);
    let src = s.activity.source.as_str();
    let is_measured = !str_eq(src, "paused") && !str_eq(src, "unobserved");
    let ghost bound = total_all(ss);
    if let Some(h) = &s.activity.hostname {
        let ghost pre = domains@;
        let pos = add_to_rows(domains, h.as_str(), category.as_str(), ms, 0);
        proof {
            let p: Option<int> = match pos { Some(i) => Some(i as int), None => None };
            lemma_tally_step(rows_view(pre), rows_view(domains@), domain_tally(ss, dm, am), h@, category@, ms as int, 0, p);
            lemma_add_bounded(pre, domains@, h@, category@, ms as int, 0, pos, bound, 0);
        }
    }
    if is_measured {
        if let Some(n) = &s.activity.app_name {
            let app_cat = match find_mapping(amv, n.as_str()) {
                Some(c) => c,
                None => owned("local"),
            };
            let ghost pre = apps@;
            let pos = add_to_rows(apps, n.as_str(), app_cat.as_str(), ms, 0);
            proof {
                let p: Option<int> = match pos { Some(i) => Some(i as int), None => None };
                lemma_tally_step(rows_view(pre), rows_view(apps@), app_tally(ss, dm, am), n@, app_cat@, ms as int, 0, p);
                lemma_add_bounded(pre, apps@, n@, app_cat@, ms as int, 0, pos, bound, 0);
            }
        }
    }
    if is_measured && !str_eq(src, "idle") {
        let ghost pre = cat_rows@;
        let pos = add_to_rows(cat_rows, category.as_str(), "", ms, 0);
        proof {
            let e: Seq<char> = "".view();
            assert(e =~= Seq::<char>::empty()) by {
                reveal_strlit("");
            }
            let p: Option<int> = match pos { Some(i) => Some(i as int), None => None };
            lemma_tally_step(rows_view(pre), rows_view(cat_rows@), category_tally(ss, dm, am), category@, Seq::empty(), ms as int, 0, p);
            lemma_add_bounded(pre, cat_rows@, category@, e, ms as int, 0, pos, bound, 0);
        }
    }
    if is_measured {
        add_hours_exec(hours, s.start_utc, s.offset_seconds, ms, Ghost(hour_tally(ss)), Ghost(bound));
    }
}

/// What the report of a day states: the day and its inputs as given, every
/// total, and the keyed totals in their orders.
pub open spec fn day_report(
    r: DayReport,
    day: Seq<char>,
    ss: Seq<SegmentView>,
    av: Seq<AccessView>,
    cv: Seq<CategoryView>,
    dm: Seq<(Seq<char>, Seq<char>)>,
    am: Seq<(Seq<char>, Seq<char>)>,
) -> bool {
    &&& r.schema_version == SCHEMA_VERSION
    &&& r.date@ == day
    &&& segs_view(r.sessions@) == ss
    &&& accesses_view(r.accesses@) == av
    &&& categories_view(r.categories@) == cv
    &&& r.coverage_ms == total_where(ss, keep_measured())
    &&& r.idle_ms == total_where(ss, keep_idle())
    &&& r.vdi_ms == total_where(ss, keep_vdi())
    &&& r.unknown_ms == total_where(ss, keep_unknown(dm, am))
    &&& r.unclassified_ms == total_where(ss, keep_unclassified(dm, am))
    &&& r.unidentified_ms == total_where(ss, keep_unidentified(dm, am))
    &&& r.distraction_ms == if distractions_configured(cv) {
                Some(total_where(ss, keep_distracted(dm, am, cv)) as u64)
            } else {
                None
            }
    &&& r.longest_focus_ms == flow(ss).longest
    &&& r.context_switches == flow(ss).switches
    &&& represents(domain_rows(r.domains@), access_tally(domain_tally(ss, dm, am), av, dm))
    &&& sorted_rows(domain_rows(r.domains@), true)
    &&& represents(app_rows(r.app_totals@), app_tally(ss, dm, am))
    &&& sorted_rows(app_rows(r.app_totals@), true)
    &&& represents(bucket_rows(r.category_totals@), category_tally(ss, dm, am))
    &&& sorted_rows(bucket_rows(r.category_totals@), false)
    &&& represents(bucket_rows(r.hourly@), hour_tally(ss))
    &&& sorted_rows(bucket_rows(r.hourly@), false)
    &&& match r.largest_distraction {
                None => forall|i: int| 0 <= i < (domain_rows(r.domains@) + app_rows(r.app_totals@)).len() ==> !distraction_candidate(
                    #[trigger] (domain_rows(r.domains@) + app_rows(r.app_totals@))[i],
                    cv,
                ),
                Some(l) => largest_among(domain_rows(r.domains@) + app_rows(r.app_totals@), cv, l@),
            }
}

/// Adds one access to the domain rows.
fn add_access(domains: &mut Vec<Row>, a: &Access, dmv: &Vec<(String, String)>, Ghost(m): Ghost<Map<Seq<char>, Tally>>, Ghost(count): Ghost<int>, Ghost(bound): Ghost<int>)
    requires
        represents(rows_view(old(domains)@), m),
        forall|i: int| 0 <= i < old(domains).len() ==> (#[trigger] old(domains)@[i]).duration <= bound && old(domains)@[i].accesses <= count,
        0 <= bound,
        0 <= count,
        count + 1 <= u64::MAX,
    ensures
        represents(
            rows_view(final(domains)@),
            tally_add(
                m,
                a.hostname@,
                match lookup(pairs_view(dmv@), a.hostname@) {
                    Some(c) => c,
                    None => "unknown"@,
                },
                0,
                1,
            ),
        ),
        forall|i: int| 0 <= i < final(domains).len() ==> (#[trigger] final(domains)@[i]).duration <= bound && final(domains)@[i].accesses <= count + 1,
{
    let category = match find_mapping(dmv, a.hostname.as_str()) {
        Some(c) => c,
        None => owned("unknown"),
    };
    let ghost pre = domains@;
    let pos = add_to_rows(domains, a.hostname.as_str(), category.as_str(), 0, 1);
    proof {
        let p: Option<int> = match pos { Some(i) => Some(i as int), None => None };
        lemma_tally_step(rows_view(pre), rows_view(domains@), m, a.hostname@, category@, 0, 1, p);
        lemma_add_bounded(pre, domains@, a.hostname@, category@, 0, 1, pos, bound, count);
    }
}

/// The report of `day` over its segments, in recorded order, and its accesses.
///
/// Category mappings are name → category pairs; when a name occurs more than once
/// the last pair wins. Every scalar total sums segment durations: coverage over
/// measured time, idle and VDI time by source, unknown time over measured non-idle
/// time in the `unknown` category (split into unclassified browser time and
/// unidentified other time), distraction time over browser and application
/// time in categories marked as distractions (absent while no category is
/// marked). Domains, applications,
/// categories and hours are keyed totals in the orders of [`row_before`];
/// the largest distraction is the domain or application in a distraction category
/// with the most time, ties going to the first name.
#[verifier::rlimit(60)]
pub fn report(
    day: &str,
    sessions: Vec<Segment>,
    accesses: Vec<Access>,
    categories: Vec<Category>,
    domain_mappings: Vec<(String, String)>,
    app_mappings: Vec<(String, String)>,
) -> (r: DayReport)
    requires
        total_all(segs_view(sessions@)) <= u64::MAX,
        forall|i: int| 0 <= i < sessions.len() ==> segment_in_range(#[trigger] sessions@[i]@),
    ensures
        day_report(r, day@, segs_view(sessions@), accesses_view(accesses@), categories_view(categories@), pairs_view(domain_mappings@), pairs_view(app_mappings@)),
{
    let ghost ss = segs_view(sessions@);
    let ghost dm = pairs_view(domain_mappings@);
    let ghost am = pairs_view(app_mappings@);
    let ghost cv = categories_view(categories@);
    let configured = any_distraction(&categories);
    let mut t = Totals { coverage: 0, idle: 0, vdi: 0, unknown: 0, unclassified: 0, unidentified: 0, distraction: 0 };
    let mut fl = FlowState { prev: None, focus: 0, longest: 0, switches: 0 };
    let mut domains: Vec<Row> = Vec::new();
    let mut apps: Vec<Row> = Vec::new();
    let mut cat_rows: Vec<Row> = Vec::new();
    let mut hours: Vec<Row> = Vec::new();
    let mut i: usize = 0;
    proof {
        assert(ss.take(0) =~= Seq::<SegmentView>::empty());
        assert(rows_view(domains@) =~= Seq::<RowView>::empty());
        assert(rows_view(apps@) =~= Seq::<RowView>::empty());
        assert(rows_view(cat_rows@) =~= Seq::<RowView>::empty());
        assert(rows_view(hours@) =~= Seq::<RowView>::empty());
    }
    while i < sessions.len()
        invariant
            ss == segs_view(sessions@),
            dm == pairs_view(domain_mappings@),
            am == pairs_view(app_mappings@),
            cv == categories_view(categories@),
            i <= sessions.len(),
            total_all(ss) <= u64::MAX,
            forall|k: int| 0 <= k < sessions.len() ==> segment_in_range(#[trigger] sessions@[k]@),
            totals_ok(t, ss.take(i as int), dm, am, cv),
            fl@ == flow(ss.take(i as int)),
            fl.focus <= total_all(ss.take(i as int)),
            fl.longest <= total_all(ss.take(i as int)),
            fl.switches <= i,
            represents(rows_view(domains@), domain_tally(ss.take(i as int), dm, am)),
            no_accesses(domains@),
            rows_bounded(domains@, total_all(ss.take(i as int))),
            represents(rows_view(apps@), app_tally(ss.take(i as int), dm, am)),
            no_accesses(apps@),
            rows_bounded(apps@, total_all(ss.take(i as int))),
            represents(rows_view(cat_rows@), category_tally(ss.take(i as int), dm, am)),
            plain_rows(cat_rows@),
            rows_bounded(cat_rows@, total_all(ss.take(i as int))),
            represents(rows_view(hours@), hour_tally(ss.take(i as int))),
            plain_rows(hours@),
            rows_bounded(hours@, total_all(ss.take(i as int))),
        decreases sessions.len() - i,
    {
        proof {
            assert(ss.take(i + 1) =~= ss.take(i as int).push(sessions@[i as int]@));
            lemma_total_prefix(ss, i + 1);
        }
        add_session(&mut t, &mut fl, &mut domains, &mut apps, &mut cat_rows, &mut hours, &sessions[i], &domain_mappings, &app_mappings, &categories, Ghost(ss.take(i as int)));
        i = i + 1;
    }
    proof {
        assert(ss.take(sessions.len() as int) =~= ss);
    }
    let ghost base = domain_tally(ss, dm, am);
    let ghost av = accesses_view(accesses@);
    let mut j: usize = 0;
    proof {
        assert(av.take(0) =~= Seq::<AccessView>::empty());
        assert forall|k: int| 0 <= k < domains.len() implies (#[trigger] domains@[k]).duration <= total_all(ss) && domains@[k].accesses <= 0 by {}
    }
    while j < accesses.len()
        invariant
            av == accesses_view(accesses@),
            dm == pairs_view(domain_mappings@),
            j <= accesses.len(),
            0 <= total_all(ss) <= u64::MAX,
            represents(rows_view(domains@), access_tally(base, av.take(j as int), dm)),
            forall|k: int| 0 <= k < domains.len() ==> (#[trigger] domains@[k]).duration <= total_all(ss) && domains@[k].accesses <= j,
        decreases accesses.len() - j,
    {
        proof {
            assert(av.take(j + 1).drop_last() =~= av.take(j as int));
            assert(av.take(j + 1).last() == accesses@[j as int]@);
        }
        add_access(&mut domains, &accesses[j], &domain_mappings, Ghost(access_tally(base, av.take(j as int), dm)), Ghost(j as int), Ghost(total_all(ss)));
        j = j + 1;
    }
    proof {
        assert(av.take(accesses.len() as int) =~= av);
    }
    let ghost dmap = access_tally(base, av, dm);
    let ghost dv = rows_view(domains@);
    let ghost apv = rows_view(apps@);
    let ghost cav = rows_view(cat_rows@);
    let ghost hov = rows_view(hours@);
    let ghost hours_pre = hours@;
    let ghost cats_pre = cat_rows@;
    let ghost apps_pre = apps@;
    let domains = sort_rows(domains, true);
    let apps = sort_rows(apps, true);
    let cat_rows = sort_rows(cat_rows, false);
    let hours = sort_rows(hours, false);
    proof {
        lemma_sorted_represents(dv, rows_view(domains@), dmap, true);
        lemma_sorted_represents(apv, rows_view(apps@), app_tally(ss, dm, am), true);
        lemma_sorted_represents(cav, rows_view(cat_rows@), category_tally(ss, dm, am), false);
        lemma_sorted_represents(hov, rows_view(hours@), hour_tally(ss), false);
        assert forall|k: int| 0 <= k < apps.len() implies (#[trigger] apps@[k]).accesses == 0 by {
            assert(rows_view(apps@)[k] == apps@[k]@);
            assert(rows_view(apps@).contains(apps@[k]@));
            let m = choose|m: int| 0 <= m < apv.len() && apv[m] == apps@[k]@;
            assert(apv[m] == apps_pre[m]@);
        }
        assert forall|k: int| 0 <= k < cat_rows.len() implies (#[trigger] cat_rows@[k]).accesses == 0 && cat_rows@[k].category@ == Seq::<char>::empty() by {
            assert(rows_view(cat_rows@)[k] == cat_rows@[k]@);
            assert(rows_view(cat_rows@).contains(cat_rows@[k]@));
            let m = choose|m: int| 0 <= m < cav.len() && cav[m] == cat_rows@[k]@;
            assert(cav[m] == cats_pre[m]@);
        }
        assert forall|k: int| 0 <= k < hours.len() implies (#[trigger] hours@[k]).accesses == 0 && hours@[k].category@ == Seq::<char>::empty() by {
            assert(rows_view(hours@)[k] == hours@[k]@);
            assert(rows_view(hours@).contains(hours@[k]@));
            let m = choose|m: int| 0 <= m < hov.len() && hov[m] == hours@[k]@;
            assert(hov[m] == hours_pre[m]@);
        }
    }
    let largest = largest_distraction(&domains, &apps, &categories);
    let domain_totals = to_domain_totals(domains);
    let app_totals = to_app_totals(apps);
    let category_totals = to_buckets(cat_rows);
    let hourly = to_buckets(hours);
    DayReport {
        schema_version: SCHEMA_VERSION,
        date: owned(day),
        sessions,
        accesses,
        categories,
        domains: domain_totals,
        app_totals,
        category_totals,
        hourly,
        vdi_ms: t.vdi,
        idle_ms: t.idle,
        unknown_ms: t.unknown,
        unclassified_ms: t.unclassified,
        unidentified_ms: t.unidentified,
        coverage_ms: t.coverage,
        distraction_ms: if configured { Some(t.distraction) } else { None },
        largest_distraction: largest,
        longest_focus_ms: fl.longest,
        context_switches: fl.switches,
    }
}


/// Selects the measured time of one source.
pub open spec fn keep_source(source: Seq<char>) -> spec_fn(SegmentView) -> bool {
    |s: SegmentView| measured(s.activity) && s.activity.source == source
}

/// Selects the measured time of sources outside the VDI, the browser, local
/// applications, the system and inactivity.
pub open spec fn keep_other_source() -> spec_fn(SegmentView) -> bool {
    |s: SegmentView|
        measured(s.activity) && s.activity.source != "vdi"@ && s.activity.source != "browser"@ && s.activity.source
            != "app"@ && s.activity.source != "system"@ && s.activity.source != "idle"@
}

proof fn lemma_total_split(
    ss: Seq<SegmentView>,
    p: spec_fn(SegmentView) -> bool,
    q: spec_fn(SegmentView) -> bool,
    r: spec_fn(SegmentView) -> bool,
)
    requires
        forall|s: SegmentView| #[trigger] p(s) == (q(s) || r(s)),
        forall|s: SegmentView| !(#[trigger] q(s) && r(s)),
    ensures
        total_where(ss, p) == total_where(ss, q) + total_where(ss, r),
    decreases ss.len(),
{
    if ss.len() > 0 {
        lemma_total_split(ss.drop_last(), p, q, r);
        assert(p(ss.last()) == (q(ss.last()) || r(ss.last())));
        assert(!(q(ss.last()) && r(ss.last())));
    }
}

/// Unknown time is split without overlap into sites without a category and
/// windows that were not identified.
pub proof fn lemma_unknown_split(ss: Seq<SegmentView>, dm: Seq<(Seq<char>, Seq<char>)>, am: Seq<(Seq<char>, Seq<char>)>)
    ensures
        total_where(ss, keep_unknown(dm, am)) == total_where(ss, keep_unclassified(dm, am)) + total_where(
            ss,
            keep_unidentified(dm, am),
        ),
{
    lemma_total_split(ss, keep_unknown(dm, am), keep_unclassified(dm, am), keep_unidentified(dm, am));
}

/// The measured coverage is the VDI, browser, local application, system and
/// inactive time, plus the measured time of any other source, each counted
/// once.
pub proof fn lemma_coverage_partition(ss: Seq<SegmentView>)
    ensures
        total_where(ss, keep_measured()) == total_where(ss, keep_vdi()) + total_where(ss, keep_source("browser"@))
            + total_where(ss, keep_source("app"@)) + total_where(ss, keep_source("system"@)) + total_where(
            ss,
            keep_idle(),
        ) + total_where(ss, keep_other_source()),
{
    let vdi = keep_source("vdi"@);
    let browser = keep_source("browser"@);
    let app = keep_source("app"@);
    let system = keep_source("system"@);
    let idle = keep_source("idle"@);
    let other = keep_other_source();
    let p1 = |s: SegmentView| measured(s.activity) && s.activity.source != "vdi"@;
    let p2 = |s: SegmentView| measured(s.activity) && s.activity.source != "vdi"@ && s.activity.source != "browser"@;
    let p3 = |s: SegmentView|
        measured(s.activity) && s.activity.source != "vdi"@ && s.activity.source != "browser"@ && s.activity.source
            != "app"@;
    let p4 = |s: SegmentView|
        measured(s.activity) && s.activity.source != "vdi"@ && s.activity.source != "browser"@ && s.activity.source
            != "app"@ && s.activity.source != "system"@;
    reveal_strlit("vdi");
    reveal_strlit("browser");
    reveal_strlit("app");
    reveal_strlit("system");
    reveal_strlit("idle");
    assert("browser"@ != "vdi"@) by {
        assert("browser"@.len() != "vdi"@.len());
    }
    assert("app"@ != "vdi"@) by {
        assert("app"@[0] != "vdi"@[0]);
    }
    assert("app"@ != "browser"@) by {
        assert("app"@.len() != "browser"@.len());
    }
    assert("system"@ != "vdi"@ && "system"@ != "browser"@ && "system"@ != "app"@) by {
        assert("system"@.len() == 6 && "vdi"@.len() == 3 && "browser"@.len() == 7 && "app"@.len() == 3);
    }
    assert("idle"@ != "vdi"@ && "idle"@ != "browser"@ && "idle"@ != "app"@ && "idle"@ != "system"@) by {
        assert("idle"@.len() == 4);
    }
    lemma_total_split(ss, keep_measured(), vdi, p1);
    lemma_total_split(ss, p1, browser, p2);
    lemma_total_split(ss, p2, app, p3);
    lemma_total_split(ss, p3, system, p4);
    lemma_total_split(ss, p4, idle, other);
    reveal_strlit("paused");
    reveal_strlit("unobserved");
    assert("paused"@.len() == 6 && "unobserved"@.len() == 10);
    lemma_total_same(ss, vdi, keep_vdi());
    lemma_total_same(ss, idle, keep_idle());
}

proof fn lemma_total_same(ss: Seq<SegmentView>, p: spec_fn(SegmentView) -> bool, q: spec_fn(SegmentView) -> bool)
    requires
        forall|s: SegmentView| #[trigger] p(s) == q(s),
    ensures
        total_where(ss, p) == total_where(ss, q),
    decreases ss.len(),
{
    if ss.len() > 0 {
        lemma_total_same(ss.drop_last(), p, q);
        assert(p(ss.last()) == q(ss.last()));
    }
}

/// The longest block of focus is part of the VDI time, and so is the block in
/// progress.
pub proof fn lemma_focus_within_vdi(ss: Seq<SegmentView>)
    ensures
        0 <= flow(ss).focus <= total_where(ss, keep_vdi()),
        0 <= flow(ss).longest <= total_where(ss, keep_vdi()),
    decreases ss.len(),
{
    if ss.len() > 0 {
        lemma_focus_within_vdi(ss.drop_last());
    }
}


/// Selects active time: measured and not inactivity.
pub open spec fn keep_active() -> spec_fn(SegmentView) -> bool {
    |s: SegmentView| measured(s.activity) && s.activity.source != "idle"@
}

/// Selects time with a domain.
pub open spec fn keep_domain() -> spec_fn(SegmentView) -> bool {
    |s: SegmentView| s.activity.hostname is Some
}

/// Selects measured time that names its application.
pub open spec fn keep_named_app() -> spec_fn(SegmentView) -> bool {
    |s: SegmentView| measured(s.activity) && s.activity.app_name is Some
}

proof fn lemma_category_rows_total(
    ss: Seq<SegmentView>,
    dm: Seq<(Seq<char>, Seq<char>)>,
    am: Seq<(Seq<char>, Seq<char>)>,
    rows: Seq<RowView>,
)
    requires
        represents(rows, category_tally(ss, dm, am)),
    ensures
        rows_total(rows) == total_where(ss, keep_active()),
    decreases ss.len(),
{
    if ss.len() == 0 {
        lemma_empty_total(rows);
    } else {
        let s = ss.last();
        let m = category_tally(ss.drop_last(), dm, am);
        if s.duration_ms > 0 && measured(s.activity) && s.activity.source != "idle"@ {
            let before = lemma_tally_add_total(
                rows,
                m,
                session_category(s.activity, dm, am),
                Seq::empty(),
                s.duration_ms as int,
                0,
            );
            lemma_category_rows_total(ss.drop_last(), dm, am, before);
        } else {
            lemma_category_rows_total(ss.drop_last(), dm, am, rows);
        }
    }
}

proof fn lemma_app_rows_total(
    ss: Seq<SegmentView>,
    dm: Seq<(Seq<char>, Seq<char>)>,
    am: Seq<(Seq<char>, Seq<char>)>,
    rows: Seq<RowView>,
)
    requires
        represents(rows, app_tally(ss, dm, am)),
    ensures
        rows_total(rows) == total_where(ss, keep_named_app()),
    decreases ss.len(),
{
    if ss.len() == 0 {
        lemma_empty_total(rows);
    } else {
        let s = ss.last();
        let m = app_tally(ss.drop_last(), dm, am);
        if s.duration_ms > 0 && measured(s.activity) && s.activity.app_name is Some {
            let before = lemma_tally_add_total(
                rows,
                m,
                s.activity.app_name->0,
                app_category(s.activity.app_name->0, am),
                s.duration_ms as int,
                0,
            );
            lemma_app_rows_total(ss.drop_last(), dm, am, before);
        } else {
            lemma_app_rows_total(ss.drop_last(), dm, am, rows);
        }
    }
}

proof fn lemma_domain_rows_total(
    ss: Seq<SegmentView>,
    dm: Seq<(Seq<char>, Seq<char>)>,
    am: Seq<(Seq<char>, Seq<char>)>,
    rows: Seq<RowView>,
)
    requires
        represents(rows, domain_tally(ss, dm, am)),
    ensures
        rows_total(rows) == total_where(ss, keep_domain()),
    decreases ss.len(),
{
    if ss.len() == 0 {
        lemma_empty_total(rows);
    } else {
        let s = ss.last();
        let m = domain_tally(ss.drop_last(), dm, am);
        if s.duration_ms > 0 && s.activity.hostname is Some {
            let before = lemma_tally_add_total(
                rows,
                m,
                s.activity.hostname->0,
                session_category(s.activity, dm, am),
                s.duration_ms as int,
                0,
            );
            lemma_domain_rows_total(ss.drop_last(), dm, am, before);
        } else {
            lemma_domain_rows_total(ss.drop_last(), dm, am, rows);
        }
    }
}

proof fn lemma_access_rows_total(
    m: Map<Seq<char>, Tally>,
    acc: Seq<AccessView>,
    dm: Seq<(Seq<char>, Seq<char>)>,
    rows: Seq<RowView>,
) -> (before: Seq<RowView>)
    requires
        represents(rows, access_tally(m, acc, dm)),
    ensures
        represents(before, m),
        rows_total(rows) == rows_total(before),
    decreases acc.len(),
{
    if acc.len() == 0 {
        rows
    } else {
        let a = acc.last();
        let mid = lemma_tally_add_total(
            rows,
            access_tally(m, acc.drop_last(), dm),
            a.hostname,
            match lookup(dm, a.hostname) {
                Some(c) => c,
                None => "unknown"@,
            },
            0,
            1,
        );
        lemma_access_rows_total(m, acc.drop_last(), dm, mid)
    }
}

proof fn lemma_add_hours_total(m: Map<Seq<char>, Tally>, start: int, offset: i32, ms: int, elapsed: int, rows: Seq<RowView>) -> (before: Seq<RowView>)
    requires
        represents(rows, add_hours(m, start, offset, ms, elapsed)),
        elapsed <= ms,
    ensures
        represents(before, m),
        rows_total(rows) == rows_total(before) + (ms - elapsed),
    decreases ms - elapsed,
{
    if elapsed >= ms {
        rows
    } else {
        let local = (start + elapsed + offset * 1000) % (HOUR_MS as int);
        let amount = if HOUR_MS - local < ms - elapsed {
            HOUR_MS - local
        } else {
            ms - elapsed
        };
        let label = hour_label_at(start + elapsed, offset);
        let m1 = tally_add(m, label, Seq::empty(), amount, 0);
        let b1 = lemma_add_hours_total(m1, start, offset, ms, elapsed + amount, rows);
        lemma_tally_add_total(b1, m, label, Seq::empty(), amount, 0)
    }
}

proof fn lemma_hour_rows_total(ss: Seq<SegmentView>, rows: Seq<RowView>)
    requires
        represents(rows, hour_tally(ss)),
    ensures
        rows_total(rows) == total_where(ss, keep_measured()),
    decreases ss.len(),
{
    if ss.len() == 0 {
        lemma_empty_total(rows);
    } else {
        let s = ss.last();
        if s.duration_ms > 0 && measured(s.activity) {
            let before = lemma_add_hours_total(hour_tally(ss.drop_last()), s.start_utc as int, s.offset_seconds, s.duration_ms as int, 0, rows);
            lemma_hour_rows_total(ss.drop_last(), before);
        } else {
            lemma_hour_rows_total(ss.drop_last(), rows);
        }
    }
}

/// The charts and tables add up to the cards: the categories plus inactivity
/// make the coverage, so do the hours, the domains add up to the time with a
/// domain and the applications to the measured time that names an application.
pub proof fn lemma_report_totals_agree(
    r: DayReport,
    day: Seq<char>,
    ss: Seq<SegmentView>,
    av: Seq<AccessView>,
    cv: Seq<CategoryView>,
    dm: Seq<(Seq<char>, Seq<char>)>,
    am: Seq<(Seq<char>, Seq<char>)>,
)
    requires
        day_report(r, day, ss, av, cv, dm, am),
    ensures
        rows_total(bucket_rows(r.category_totals@)) + r.idle_ms == r.coverage_ms,
        rows_total(bucket_rows(r.hourly@)) == r.coverage_ms,
        rows_total(domain_rows(r.domains@)) == total_where(ss, keep_domain()),
        rows_total(app_rows(r.app_totals@)) == total_where(ss, keep_named_app()),
{
    lemma_category_rows_total(ss, dm, am, bucket_rows(r.category_totals@));
    lemma_hour_rows_total(ss, bucket_rows(r.hourly@));
    let before = lemma_access_rows_total(domain_tally(ss, dm, am), av, dm, domain_rows(r.domains@));
    lemma_domain_rows_total(ss, dm, am, before);
    lemma_app_rows_total(ss, dm, am, app_rows(r.app_totals@));
    reveal_strlit("idle");
    reveal_strlit("paused");
    reveal_strlit("unobserved");
    assert("idle"@.len() == 4 && "paused"@.len() == 6 && "unobserved"@.len() == 10);
    lemma_total_split(ss, keep_measured(), keep_active(), keep_source("idle"@));
    lemma_total_same(ss, keep_source("idle"@), keep_idle());
}


proof fn lemma_same_totals_add(
    m1: Map<Seq<char>, Tally>,
    m2: Map<Seq<char>, Tally>,
    key: Seq<char>,
    c1: Seq<char>,
    c2: Seq<char>,
    ms: int,
    acc: int,
)
    requires
        same_totals(m1, m2),
    ensures
        same_totals(tally_add(m1, key, c1, ms, acc), tally_add(m2, key, c2, ms, acc)),
{
    let n1 = tally_add(m1, key, c1, ms, acc);
    let n2 = tally_add(m2, key, c2, ms, acc);
    assert forall|k: Seq<char>| #[trigger] n1.contains_key(k) <==> n2.contains_key(k) by {
        assert(m1.contains_key(k) <==> m2.contains_key(k));
    }
    assert forall|k: Seq<char>| #[trigger] n1.contains_key(k) implies n1[k].duration == n2[k].duration
        && n1[k].accesses == n2[k].accesses by {
        assert(m1.contains_key(k) <==> m2.contains_key(k));
        assert(m1.contains_key(key) <==> m2.contains_key(key));
    }
}

proof fn lemma_domain_tally_same(
    ss: Seq<SegmentView>,
    dm1: Seq<(Seq<char>, Seq<char>)>,
    am1: Seq<(Seq<char>, Seq<char>)>,
    dm2: Seq<(Seq<char>, Seq<char>)>,
    am2: Seq<(Seq<char>, Seq<char>)>,
)
    ensures
        same_totals(domain_tally(ss, dm1, am1), domain_tally(ss, dm2, am2)),
    decreases ss.len(),
{
    if ss.len() > 0 {
        lemma_domain_tally_same(ss.drop_last(), dm1, am1, dm2, am2);
        let s = ss.last();
        if s.duration_ms > 0 && s.activity.hostname is Some {
            lemma_same_totals_add(
                domain_tally(ss.drop_last(), dm1, am1),
                domain_tally(ss.drop_last(), dm2, am2),
                s.activity.hostname->0,
                session_category(s.activity, dm1, am1),
                session_category(s.activity, dm2, am2),
                s.duration_ms as int,
                0,
            );
        }
    }
}

proof fn lemma_access_tally_same(
    m1: Map<Seq<char>, Tally>,
    m2: Map<Seq<char>, Tally>,
    av: Seq<AccessView>,
    dm1: Seq<(Seq<char>, Seq<char>)>,
    dm2: Seq<(Seq<char>, Seq<char>)>,
)
    requires
        same_totals(m1, m2),
    ensures
        same_totals(access_tally(m1, av, dm1), access_tally(m2, av, dm2)),
    decreases av.len(),
{
    if av.len() > 0 {
        lemma_access_tally_same(m1, m2, av.drop_last(), dm1, dm2);
        let a = av.last();
        lemma_same_totals_add(
            access_tally(m1, av.drop_last(), dm1),
            access_tally(m2, av.drop_last(), dm2),
            a.hostname,
            match lookup(dm1, a.hostname) {
                Some(c) => c,
                None => "unknown"@,
            },
            match lookup(dm2, a.hostname) {
                Some(c) => c,
                None => "unknown"@,
            },
            0,
            1,
        );
    }
}

proof fn lemma_app_tally_same(
    ss: Seq<SegmentView>,
    dm1: Seq<(Seq<char>, Seq<char>)>,
    am1: Seq<(Seq<char>, Seq<char>)>,
    dm2: Seq<(Seq<char>, Seq<char>)>,
    am2: Seq<(Seq<char>, Seq<char>)>,
)
    ensures
        same_totals(app_tally(ss, dm1, am1), app_tally(ss, dm2, am2)),
    decreases ss.len(),
{
    if ss.len() > 0 {
        lemma_app_tally_same(ss.drop_last(), dm1, am1, dm2, am2);
        let s = ss.last();
        if s.duration_ms > 0 && measured(s.activity) && s.activity.app_name is Some {
            lemma_same_totals_add(
                app_tally(ss.drop_last(), dm1, am1),
                app_tally(ss.drop_last(), dm2, am2),
                s.activity.app_name->0,
                app_category(s.activity.app_name->0, am1),
                app_category(s.activity.app_name->0, am2),
                s.duration_ms as int,
                0,
            );
        }
    }
}

/// Reclassifying only moves time between categories: two reports of the same
/// day, segments and accesses, under any categories and category mappings,
/// agree on the coverage, the idle and VDI time, the longest focus block and
/// the context switches, on the hourly buckets, on the domains and the
/// applications with their times and accesses in the same order, and on the
/// total of the category buckets.
pub proof fn lemma_reclassification_moves_time_only(
    r1: DayReport,
    r2: DayReport,
    day: Seq<char>,
    ss: Seq<SegmentView>,
    av: Seq<AccessView>,
    cv1: Seq<CategoryView>,
    dm1: Seq<(Seq<char>, Seq<char>)>,
    am1: Seq<(Seq<char>, Seq<char>)>,
    cv2: Seq<CategoryView>,
    dm2: Seq<(Seq<char>, Seq<char>)>,
    am2: Seq<(Seq<char>, Seq<char>)>,
)
    requires
        day_report(r1, day, ss, av, cv1, dm1, am1),
        day_report(r2, day, ss, av, cv2, dm2, am2),
    ensures
        r1.coverage_ms == r2.coverage_ms,
        r1.idle_ms == r2.idle_ms,
        r1.vdi_ms == r2.vdi_ms,
        r1.longest_focus_ms == r2.longest_focus_ms,
        r1.context_switches == r2.context_switches,
        bucket_rows(r1.hourly@) == bucket_rows(r2.hourly@),
        untagged_rows(domain_rows(r1.domains@)) == untagged_rows(domain_rows(r2.domains@)),
        untagged_rows(app_rows(r1.app_totals@)) == untagged_rows(app_rows(r2.app_totals@)),
        rows_total(bucket_rows(r1.category_totals@)) == rows_total(bucket_rows(r2.category_totals@)),
{
    lemma_report_totals_agree(r1, day, ss, av, cv1, dm1, am1);
    lemma_report_totals_agree(r2, day, ss, av, cv2, dm2, am2);
    let h = hour_tally(ss);
    let h1 = bucket_rows(r1.hourly@);
    let h2 = bucket_rows(r2.hourly@);
    lemma_sorted_rows_unique(h1, h2, h, h, false);
    assert(h1.len() == untagged_rows(h1).len());
    assert forall|i: int| 0 <= i < h1.len() implies h1[i] == h2[i] by {
        assert(untagged_rows(h1)[i] == untagged_rows(h2)[i]);
        assert(h.contains_key(h1[i].key));
        assert(h.contains_key(h2[i].key));
    }
    assert(h1 =~= h2);
    lemma_domain_tally_same(ss, dm1, am1, dm2, am2);
    lemma_access_tally_same(domain_tally(ss, dm1, am1), domain_tally(ss, dm2, am2), av, dm1, dm2);
    lemma_sorted_rows_unique(
        domain_rows(r1.domains@),
        domain_rows(r2.domains@),
        access_tally(domain_tally(ss, dm1, am1), av, dm1),
        access_tally(domain_tally(ss, dm2, am2), av, dm2),
        true,
    );
    lemma_app_tally_same(ss, dm1, am1, dm2, am2);
    lemma_sorted_rows_unique(app_rows(r1.app_totals@), app_rows(r2.app_totals@), app_tally(ss, dm1, am1), app_tally(ss, dm2, am2), true);
}


/// Every key of the tally has time.
pub open spec fn positive_tally(m: Map<Seq<char>, Tally>) -> bool {
    forall|k: Seq<char>| #[trigger] m.contains_key(k) ==> m[k].duration > 0
}

proof fn lemma_positive_add(m: Map<Seq<char>, Tally>, key: Seq<char>, c: Seq<char>, ms: int, acc: int)
    requires
        positive_tally(m),
        ms > 0,
    ensures
        positive_tally(tally_add(m, key, c, ms, acc)),
{
    let n = tally_add(m, key, c, ms, acc);
    assert forall|k: Seq<char>| #[trigger] n.contains_key(k) implies n[k].duration > 0 by {
        if k != key {
            assert(m.contains_key(k));
        }
    }
}

proof fn lemma_category_tally_positive(ss: Seq<SegmentView>, dm: Seq<(Seq<char>, Seq<char>)>, am: Seq<(Seq<char>, Seq<char>)>)
    ensures
        positive_tally(category_tally(ss, dm, am)),
    decreases ss.len(),
{
    if ss.len() > 0 {
        lemma_category_tally_positive(ss.drop_last(), dm, am);
        let s = ss.last();
        if s.duration_ms > 0 && measured(s.activity) && s.activity.source != "idle"@ {
            lemma_positive_add(category_tally(ss.drop_last(), dm, am), session_category(s.activity, dm, am), Seq::empty(), s.duration_ms as int, 0);
        }
    }
}

proof fn lemma_add_hours_positive(m: Map<Seq<char>, Tally>, start: int, offset: i32, ms: int, elapsed: int)
    requires
        positive_tally(m),
    ensures
        positive_tally(add_hours(m, start, offset, ms, elapsed)),
    decreases ms - elapsed,
{
    if elapsed < ms {
        let local = (start + elapsed + offset * 1000) % (HOUR_MS as int);
        let amount = if HOUR_MS - local < ms - elapsed {
            HOUR_MS - local
        } else {
            ms - elapsed
        };
        lemma_positive_add(m, hour_label_at(start + elapsed, offset), Seq::empty(), amount, 0);
        lemma_add_hours_positive(
            tally_add(m, hour_label_at(start + elapsed, offset), Seq::empty(), amount, 0),
            start,
            offset,
            ms,
            elapsed + amount,
        );
    }
}

proof fn lemma_hour_tally_positive(ss: Seq<SegmentView>)
    ensures
        positive_tally(hour_tally(ss)),
    decreases ss.len(),
{
    if ss.len() > 0 {
        lemma_hour_tally_positive(ss.drop_last());
        let s = ss.last();
        if s.duration_ms > 0 && measured(s.activity) {
            lemma_add_hours_positive(hour_tally(ss.drop_last()), s.start_utc as int, s.offset_seconds, s.duration_ms as int, 0);
        }
    }
}

/// No bucket is empty: every category and every hour that a report lists has
/// time, and each is listed once, in the order of its label.
pub proof fn lemma_buckets_have_time(
    r: DayReport,
    day: Seq<char>,
    ss: Seq<SegmentView>,
    av: Seq<AccessView>,
    cv: Seq<CategoryView>,
    dm: Seq<(Seq<char>, Seq<char>)>,
    am: Seq<(Seq<char>, Seq<char>)>,
)
    requires
        day_report(r, day, ss, av, cv, dm, am),
    ensures
        forall|i: int| 0 <= i < r.category_totals.len() ==> (#[trigger] r.category_totals@[i]).duration_ms > 0,
        forall|i: int| 0 <= i < r.hourly.len() ==> (#[trigger] r.hourly@[i]).duration_ms > 0,
        forall|i: int, j: int| 0 <= i < j < r.category_totals.len() ==> seq_lt(r.category_totals@[i].label@, r.category_totals@[j].label@),
        forall|i: int, j: int| 0 <= i < j < r.hourly.len() ==> seq_lt(r.hourly@[i].label@, r.hourly@[j].label@),
{
    lemma_category_tally_positive(ss, dm, am);
    lemma_hour_tally_positive(ss);
    let c = category_tally(ss, dm, am);
    let h = hour_tally(ss);
    assert forall|i: int| 0 <= i < r.category_totals.len() implies (#[trigger] r.category_totals@[i]).duration_ms > 0 by {
        assert(bucket_rows(r.category_totals@)[i] == bucket_row(r.category_totals@[i]));
        assert(c.contains_key(bucket_rows(r.category_totals@)[i].key));
    }
    assert forall|i: int| 0 <= i < r.hourly.len() implies (#[trigger] r.hourly@[i]).duration_ms > 0 by {
        assert(bucket_rows(r.hourly@)[i] == bucket_row(r.hourly@[i]));
        assert(h.contains_key(bucket_rows(r.hourly@)[i].key));
    }
    assert forall|i: int, j: int| 0 <= i < j < r.category_totals.len() implies seq_lt(r.category_totals@[i].label@, r.category_totals@[j].label@) by {
        assert(bucket_rows(r.category_totals@)[i] == bucket_row(r.category_totals@[i]));
        assert(bucket_rows(r.category_totals@)[j] == bucket_row(r.category_totals@[j]));
        assert(row_before(bucket_rows(r.category_totals@)[i], bucket_rows(r.category_totals@)[j], false));
    }
    assert forall|i: int, j: int| 0 <= i < j < r.hourly.len() implies seq_lt(r.hourly@[i].label@, r.hourly@[j].label@) by {
        assert(bucket_rows(r.hourly@)[i] == bucket_row(r.hourly@[i]));
        assert(bucket_rows(r.hourly@)[j] == bucket_row(r.hourly@[j]));
        assert(row_before(bucket_rows(r.hourly@)[i], bucket_rows(r.hourly@)[j], false));
    }
}


/// `b` continues `a` without a break: same run, starting where `a` ended, and
/// not after a clock adjustment.
pub open spec fn continues(a: SegmentView, b: SegmentView) -> bool {
    a.run_id == b.run_id && a.end_utc == b.start_utc && b.activity.reason != "clock_adjusted"@
}

/// The segments `i` to `j` are a block of focus: non-empty VDI segments, each
/// continuing the one before.
pub open spec fn vdi_block(ss: Seq<SegmentView>, i: int, j: int) -> bool {
    &&& 0 <= i <= j < ss.len()
    &&& forall|k: int| i <= k <= j ==> (#[trigger] ss[k]).duration_ms > 0 && ss[k].activity.source == "vdi"@
    &&& forall|k: int| i <= k < j ==> continues(#[trigger] ss[k], ss[k + 1])
}

proof fn lemma_flow_blocks(ss: Seq<SegmentView>)
    ensures
        flow(ss).longest >= flow(ss).focus >= 0,
        forall|i: int, j: int| vdi_block(ss, i, j) ==> flow(ss).longest >= total_all(#[trigger] ss.subrange(i, j + 1)),
        forall|i: int| vdi_block(ss, i, ss.len() - 1) ==> flow(ss).focus >= total_all(#[trigger] ss.subrange(i, ss.len() as int)),
    decreases ss.len(),
{
    if ss.len() > 0 {
        let pre = ss.drop_last();
        let s = ss.last();
        let n = ss.len() as int;
        lemma_flow_blocks(pre);
        lemma_focus_within_vdi(pre);
        let f = flow(pre);
        assert(flow(ss) == flow_step(f, s));
        reveal_strlit("vdi");
        if n >= 2 && pre.last().duration_ms > 0 && pre.last().activity.source == "vdi"@ {
            let q = pre.drop_last();
            assert(pre =~= q.push(pre.last()));
            assert(flow(pre) == flow_step(flow(q), pre.last()));
            assert(context_of(pre.last().activity) == Some("vdi"@));
            assert(f.prev == Some((pre.last().run_id, pre.last().end_utc, "vdi"@)));
        }
        assert forall|i: int| vdi_block(ss, i, n - 1) implies flow(ss).focus >= total_all(
            #[trigger] ss.subrange(i, n),
        ) by {
            let sub = ss.subrange(i, n);
            assert(sub.drop_last() =~= pre.subrange(i, n - 1));
            assert(sub.last() == s);
            assert(s == ss[n - 1]);
            if i < n - 1 {
                assert(vdi_block(pre, i, n - 2)) by {
                    assert forall|k: int| i <= k <= n - 2 implies (#[trigger] pre[k]).duration_ms > 0
                        && pre[k].activity.source == "vdi"@ by {
                        assert(pre[k] == ss[k]);
                    }
                    assert forall|k: int| i <= k < n - 2 implies continues(#[trigger] pre[k], pre[k + 1]) by {
                        assert(pre[k] == ss[k] && pre[k + 1] == ss[k + 1]);
                    }
                }
                assert(pre.subrange(i, n - 1) == pre.subrange(i, pre.len() as int));
                assert(ss[n - 2] == pre.last());
                assert(continues(ss[n - 2], ss[n - 1]));
            } else {
                assert(pre.subrange(i, n - 1) =~= Seq::<SegmentView>::empty());
            }
        }
        assert forall|i: int, j: int| vdi_block(ss, i, j) implies flow(ss).longest >= total_all(
            #[trigger] ss.subrange(i, j + 1),
        ) by {
            if j == n - 1 {
                assert(ss.subrange(i, j + 1) == ss.subrange(i, n));
            } else {
                assert(vdi_block(pre, i, j)) by {
                    assert forall|k: int| i <= k <= j implies (#[trigger] pre[k]).duration_ms > 0
                        && pre[k].activity.source == "vdi"@ by {
                        assert(pre[k] == ss[k]);
                    }
                    assert forall|k: int| i <= k < j implies continues(#[trigger] pre[k], pre[k + 1]) by {
                        assert(pre[k] == ss[k] && pre[k + 1] == ss[k + 1]);
                    }
                }
                assert(ss.subrange(i, j + 1) =~= pre.subrange(i, j + 1));
            }
        }
    }
}

/// The longest focus block covers every block of focus: it is at least the time
/// of every run of non-empty VDI segments that continue one another, the last,
/// still running block of the day included, and so at least every non-empty
/// VDI segment.
pub proof fn lemma_longest_focus_covers_every_block(ss: Seq<SegmentView>, i: int, j: int)
    requires
        vdi_block(ss, i, j),
    ensures
        flow(ss).longest >= total_all(ss.subrange(i, j + 1)),
        flow(ss).longest >= ss[j].duration_ms,
{
    lemma_flow_blocks(ss);
    assert(vdi_block(ss, j, j));
    let one = ss.subrange(j, j + 1);
    assert(one.drop_last() =~= Seq::<SegmentView>::empty());
    assert(one.last() == ss[j]);
    assert(total_all(one) == total_all(one.drop_last()) + ss[j].duration_ms);
    assert(total_all(one.drop_last()) == 0);
    assert(flow(ss).longest >= total_all(ss.subrange(j, j + 1)));
}


proof fn lemma_add_hours_shift(m: Map<Seq<char>, Tally>, start: int, offset: i32, ms: int, elapsed: int, d: int)
    requires
        0 <= d <= elapsed,
    ensures
        add_hours(m, start, offset, ms, elapsed) == add_hours(m, start + d, offset, ms - d, elapsed - d),
    decreases ms - elapsed,
{
    if elapsed < ms {
        let local = (start + elapsed + offset * 1000) % (HOUR_MS as int);
        let amount = if HOUR_MS - local < ms - elapsed {
            HOUR_MS - local
        } else {
            ms - elapsed
        };
        assert(start + d + (elapsed - d) == start + elapsed);
        lemma_add_hours_shift(
            tally_add(m, hour_label_at(start + elapsed, offset), Seq::empty(), amount, 0),
            start,
            offset,
            ms,
            elapsed + amount,
            d,
        );
    }
}

proof fn lemma_add_hours_cut(m: Map<Seq<char>, Tally>, start: int, offset: i32, ms: int, elapsed: int, a: int)
    requires
        elapsed <= a <= ms,
        (start + a + offset * 1000) % (HOUR_MS as int) == 0,
    ensures
        add_hours(m, start, offset, ms, elapsed) == add_hours(add_hours(m, start, offset, a, elapsed), start, offset, ms, a),
    decreases a - elapsed,
{
    if elapsed < a {
        let x = start + elapsed + offset * 1000;
        let y = start + a + offset * 1000;
        let local = x % (HOUR_MS as int);
        assert(HOUR_MS - local <= a - elapsed) by {
            assert(x == (HOUR_MS as int) * (x / (HOUR_MS as int)) + local);
            assert(y == (HOUR_MS as int) * (y / (HOUR_MS as int)));
            assert(x / (HOUR_MS as int) < y / (HOUR_MS as int)) by (nonlinear_arith)
                requires
                    x == 3_600_000 * (x / 3_600_000) + x % 3_600_000,
                    y == 3_600_000 * (y / 3_600_000),
                    x < y,
                    0 <= x % 3_600_000 < 3_600_000,
            ;
            assert((HOUR_MS as int) * (x / (HOUR_MS as int)) + (HOUR_MS as int) <= (HOUR_MS as int) * (y / (HOUR_MS as int))) by (nonlinear_arith)
                requires
                    x / 3_600_000 < y / 3_600_000,
            ;
        }
        let amount = HOUR_MS - local;
        let m2 = tally_add(m, hour_label_at(start + elapsed, offset), Seq::empty(), amount, 0);
        lemma_add_hours_cut(m2, start, offset, ms, elapsed + amount, a);
    }
}

/// A segment lying inside one local hour (under its stored offset) adds its
/// whole duration to the label of that hour.
pub proof fn lemma_segment_within_an_hour(ss: Seq<SegmentView>, s: SegmentView)
    requires
        s.duration_ms > 0,
        measured(s.activity),
        (s.start_utc + s.offset_seconds * 1000) % (HOUR_MS as int) + s.duration_ms <= HOUR_MS,
    ensures
        hour_tally(ss.push(s)) == tally_add(
            hour_tally(ss),
            hour_label_at(s.start_utc as int, s.offset_seconds),
            Seq::empty(),
            s.duration_ms as int,
            0,
        ),
{
    assert(ss.push(s).drop_last() =~= ss);
    let m = tally_add(
        hour_tally(ss),
        hour_label_at(s.start_utc as int, s.offset_seconds),
        Seq::empty(),
        s.duration_ms as int,
        0,
    );
    assert(add_hours(m, s.start_utc as int, s.offset_seconds, s.duration_ms as int, s.duration_ms as int) == m);
}

/// Hourly totals follow the local clock: cutting a measured segment at a local
/// hour boundary into two consecutive segments leaves them unchanged. With
/// [`lemma_segment_within_an_hour`] this fixes each hour's total as the time
/// of the segments that lies inside that local hour.
pub proof fn lemma_hour_boundary_cut(ss: Seq<SegmentView>, s: SegmentView, a: int)
    requires
        measured(s.activity),
        0 < a < s.duration_ms,
        segment_in_range(s),
        (s.start_utc + a + s.offset_seconds * 1000) % (HOUR_MS as int) == 0,
    ensures
        hour_tally(
            ss.push(SegmentView { duration_ms: a as u64, end_utc: (s.start_utc + a) as i64, ..s }).push(
                SegmentView { start_utc: (s.start_utc + a) as i64, duration_ms: (s.duration_ms - a) as u64, ..s },
            ),
        ) == hour_tally(ss.push(s)),
{
    let s1 = SegmentView { duration_ms: a as u64, end_utc: (s.start_utc + a) as i64, ..s };
    let s2 = SegmentView { start_utc: (s.start_utc + a) as i64, duration_ms: (s.duration_ms - a) as u64, ..s };
    let p1 = ss.push(s1);
    let p2 = p1.push(s2);
    assert(p2.drop_last() =~= p1);
    assert(p1.drop_last() =~= ss);
    assert(ss.push(s).drop_last() =~= ss);
    let start = s.start_utc as int;
    let ms = s.duration_ms as int;
    let m = hour_tally(ss);
    assert(s2.start_utc as int == start + a);
    assert(s2.duration_ms as int == ms - a);
    assert(s1.duration_ms as int == a);
    assert(p1.last() == s1 && p2.last() == s2 && ss.push(s).last() == s);
    assert(hour_tally(p1) == add_hours(m, start, s.offset_seconds, a, 0));
    assert(hour_tally(p2) == add_hours(hour_tally(p1), start + a, s.offset_seconds, ms - a, 0));
    assert(hour_tally(ss.push(s)) == add_hours(m, start, s.offset_seconds, ms, 0));
    lemma_add_hours_cut(m, start, s.offset_seconds, ms, 0, a);
    lemma_add_hours_shift(add_hours(m, start, s.offset_seconds, a, 0), start, s.offset_seconds, ms, a, a);
}

} // verus!
