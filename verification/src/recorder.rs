//! The recorder: turns a stream of observations into stored segments, splitting
//! them at local midnight, filling gaps with unobserved time and counting
//! accesses to browser tabs.
use crate::sessions::{
    midnight_defined, ms_until_midnight, new_segment, stamp_date, until_midnight, Activity,
    ActivityView, Segment, SegmentView, Stamp, CALENDAR_MAX_UTC, CALENDAR_MIN_UTC, DAY_MS,
};
use crate::report::total_all;
use crate::store::{
    clean_exit_spec, cut_sessions, delete_spec, opt_str, persist_spec, recovered_spec, saved_settings_spec,
    store_wf, truncate_spec, update_segment, AccessRecordView, Settings, Store, StoreView,
};
use crate::text::{
    decimal_int, decimal_nat, opt_eq, opt_view, owned, push_char, push_decimal_i64, push_decimal_u64, str_eq,
};
use vstd::prelude::*;

verus! {

/// The largest monotonic reading the recorder accepts, in milliseconds.
pub const MONO_LIMIT: u64 = 0x4000_0000_0000_0000;

/// Observations longer apart than this on the monotonic clock are a gap.
pub const GAP_MS: u64 = 15_000;

/// Civil time may move this far from monotonic time between two observations
/// before the clock counts as adjusted.
pub const DRIFT_MS: i64 = 1_000;

/// Segments are saved at least this often while they continue.
pub const FLUSH_MS: u64 = 5_000;

/// A stamp the recorder can work with: at least three days inside the
/// calendar's range, with a monotonic reading below [`MONO_LIMIT`].
pub open spec fn stamp_ok(at: Stamp) -> bool {
    &&& CALENDAR_MIN_UTC + 3 * DAY_MS <= at.utc <= CALENDAR_MAX_UTC - 3 * DAY_MS
    &&& at.mono <= MONO_LIMIT
}

/// Records observations into a [`Store`].
pub struct Recorder {
    pub store: Store,
    pub run_id: String,
    pub current: Option<Segment>,
    pub last: Option<Stamp>,
    pub last_flush: u64,
    pub tab_key: Option<String>,
}

/// The mathematical value of a [`Recorder`].
pub struct RecorderView {
    pub store: StoreView,
    pub run_id: Seq<char>,
    pub current: Option<SegmentView>,
    pub last: Option<Stamp>,
    pub last_flush: u64,
    pub tab_key: Option<Seq<char>>,
}

impl View for Recorder {
    type V = RecorderView;

    open spec fn view(&self) -> RecorderView {
        RecorderView {
            store: self.store@,
            run_id: self.run_id@,
            current: match self.current {
                Some(c) => Some(c@),
                None => None,
            },
            last: self.last,
            last_flush: self.last_flush,
            tab_key: opt_view(self.tab_key),
        }
    }
}

/// Every stored segment still open has the id `id`, which is not zero.
pub open spec fn open_rows_are(ss: Seq<SegmentView>, id: i64) -> bool {
    forall|i: int| 0 <= i < ss.len() && (#[trigger] ss[i]).is_open ==> id != 0 && ss[i].id == id
}

/// The id of the open segment as stored, or zero when there is none or it was
/// never stored.
pub open spec fn current_id(current: Option<SegmentView>) -> i64 {
    match current {
        Some(c) => c.id,
        None => 0,
    }
}

/// The recorder is well formed: its store is, its last stamp is usable, the
/// open segment ends where the calendar has a next midnight, the only stored
/// segment left open is the open segment's, and the open segment, once saved,
/// is stored under its id with its activity.
pub open spec fn rec_wf(r: RecorderView) -> bool {
    &&& store_wf(r.store)
    &&& match r.last {
        Some(l) => stamp_ok(l),
        None => true,
    }
    &&& match r.current {
        Some(c) => midnight_defined(c.end_utc as int),
        None => true,
    }
    &&& open_rows_are(r.store.sessions, current_id(r.current))
    &&& current_stored(r.store.sessions, r.current)
}

/// Storing a segment keeps the open stored segments to the stored segment
/// itself when it is open, and to none when it is closed.
pub proof fn lemma_persist_open(st: StoreView, seg: SegmentView, access: Option<(Stamp, Seq<char>)>)
    requires
        store_wf(st),
        open_rows_are(st.sessions, seg.id),
    ensures
        open_rows_are(
            persist_spec(st, seg, access).0.sessions,
            if seg.is_open {
                persist_spec(st, seg, access).1.id
            } else {
                0
            },
        ),
{
    let (st2, saved) = persist_spec(st, seg, access);
    let out = st2.sessions;
    assert forall|i: int| 0 <= i < out.len() && (#[trigger] out[i]).is_open implies (if seg.is_open {
        saved.id
    } else {
        0
    }) != 0 && out[i].id == (if seg.is_open {
        saved.id
    } else {
        0
    }) by {
        if seg.id == 0 {
            if i < st.sessions.len() {
                assert(out[i] == st.sessions[i]);
            }
        } else {
            assert(out[i].id == st.sessions[i].id);
            if st.sessions[i].id == seg.id {
                assert(out[i].is_open == seg.is_open);
            } else {
                assert(out[i] == st.sessions[i]);
            }
        }
    }
}

/// The activity of time that was not observed.
pub open spec fn unobserved(reason: Seq<char>) -> ActivityView {
    ActivityView { source: "unobserved"@, hostname: None, app_name: None, reason }
}

/// A stamp moved `ms` later on both clocks.
pub open spec fn later(at: Stamp, ms: int) -> Stamp {
    Stamp { utc: (at.utc + ms) as i64, mono: (at.mono + ms) as u64, offset: at.offset }
}

/// The smaller of two integers.
pub open spec fn min_int(a: int, b: int) -> int {
    if a < b { a } else { b }
}

/// Stores `left` milliseconds of unobserved time from `at`, one closed segment
/// per local day.
pub open spec fn gap_spec(st: StoreView, run: Seq<char>, at: Stamp, left: int, reason: Seq<char>) -> StoreView
    decreases left,
{
    if left <= 0 {
        st
    } else {
        let amount = min_int(ms_until_midnight(at.utc as int, at.offset), left);
        if amount <= 0 {
            st
        } else {
            let seg = SegmentView {
                is_open: false,
                end_utc: (at.utc + amount) as i64,
                duration_ms: amount as u64,
                ..new_segment(run, at, unobserved(reason))
            };
            gap_spec(persist_spec(st, seg, None).0, run, later(at, amount), left - amount, reason)
        }
    }
}

/// Grows the open segment by `left` milliseconds from `cursor`; on reaching a
/// new local date the segment is closed and stored and a new one continues
/// the same activity.
pub open spec fn extend_spec(st: StoreView, cur: SegmentView, run: Seq<char>, cursor: Stamp, left: int) -> (
    StoreView,
    SegmentView,
)
    decreases left,
{
    if left <= 0 {
        (st, cur)
    } else {
        let amount = min_int(left, ms_until_midnight(cursor.utc as int, cursor.offset));
        if amount <= 0 {
            (st, cur)
        } else {
            let grown = SegmentView {
                duration_ms: (cur.duration_ms + amount) as u64,
                end_utc: (cursor.utc + amount) as i64,
                ..cur
            };
            let next = later(cursor, amount);
            if stamp_date(next.utc, next.offset) != grown.local_date {
                let st2 = persist_spec(st, SegmentView { is_open: false, ..grown }, None).0;
                extend_spec(st2, new_segment(run, next, grown.activity), run, next, left - amount)
            } else {
                extend_spec(st, grown, run, next, left - amount)
            }
        }
    }
}

/// Closes the open segment, if any, stores it, and forgets the last stamp and tab.
pub open spec fn close_spec(r: RecorderView) -> RecorderView {
    RecorderView {
        store: match r.current {
            Some(c) => persist_spec(r.store, SegmentView { is_open: false, ..c }, None).0,
            None => r.store,
        },
        current: None,
        last: None,
        tab_key: None,
        ..r
    }
}

/// Monotonic milliseconds from `a` to `b`, zero when the clock went back.
pub open spec fn mono_since(b: u64, a: u64) -> int {
    if b >= a { b - a } else { 0 }
}

/// The observation comes after a gap: too long on the monotonic clock, or a
/// civil jump while hardly any monotonic time passed.
pub open spec fn is_gap(last: Stamp, at: Stamp) -> bool {
    let elapsed = mono_since(at.mono, last.mono);
    let civil = at.utc - last.utc;
    elapsed > GAP_MS || (civil > GAP_MS && elapsed < 2_000)
}

/// The civil clock moved differently from the monotonic one, or the offset changed.
pub open spec fn is_adjusted(last: Stamp, at: Stamp) -> bool {
    let elapsed = mono_since(at.mono, last.mono);
    let civil = at.utc - last.utc;
    civil - elapsed > DRIFT_MS || elapsed - civil > DRIFT_MS || at.offset != last.offset
}

/// The activity differs from the open segment's, ignoring a change of reason
/// away from a clock adjustment.
pub open spec fn differs(c: ActivityView, a: ActivityView) -> bool {
    c.source != a.source || c.hostname != a.hostname || c.app_name != a.app_name || (c.reason != a.reason
        && c.reason != "clock_adjusted"@)
}

/// The open segment's duration does not overflow when the time since the last
/// observation is added to it.
pub open spec fn duration_fits(r: RecorderView, at: Stamp) -> bool {
    match (r.current, r.last) {
        (Some(c), Some(l)) => !is_gap(l, at) ==> c.duration_ms + mono_since(at.mono, l.mono) <= u64::MAX,
        _ => true,
    }
}

/// What happens to the time since the last observation.
pub open spec fn advance_spec(r: RecorderView, at: Stamp, activity: ActivityView) -> RecorderView {
    match r.last {
        None => r,
        Some(last) => {
            let elapsed = mono_since(at.mono, last.mono);
            let civil = at.utc - last.utc;
            if is_gap(last, at) {
                let r2 = close_spec(r);
                if civil > 0 {
                    RecorderView { store: gap_spec(r2.store, r.run_id, last, civil, "observation_gap"@), ..r2 }
                } else {
                    r2
                }
            } else if is_adjusted(last, at) {
                let r2 = match r.current {
                    Some(c) => RecorderView {
                        current: Some(
                            SegmentView {
                                duration_ms: (c.duration_ms + elapsed) as u64,
                                end_utc: (last.utc + elapsed) as i64,
                                ..c
                            },
                        ),
                        ..r
                    },
                    None => r,
                };
                let r3 = close_spec(r2);
                RecorderView {
                    current: Some(new_segment(r.run_id, at, ActivityView { reason: "clock_adjusted"@, ..activity })),
                    ..r3
                }
            } else {
                match r.current {
                    Some(c) => {
                        let (st, c2) = extend_spec(r.store, c, r.run_id, last, elapsed);
                        RecorderView { store: st, current: Some(c2), ..r }
                    },
                    None => r,
                }
            }
        },
    }
}

/// One observation: the time since the last one is accounted for, a changed
/// activity closes the open segment and opens a new one, a tab counts as a new
/// access when the activity changed or the tab did, and the open segment is
/// saved on a change, on an access, or when five seconds passed since the last
/// save.
pub open spec fn observe_spec(r: RecorderView, at: Stamp, activity: ActivityView, tab: Option<Seq<char>>) -> RecorderView {
    let r1 = advance_spec(r, at, activity);
    let changed = match r1.current {
        None => true,
        Some(c) => differs(c.activity, activity),
    };
    let r2 = if changed {
        RecorderView { current: Some(new_segment(r.run_id, at, activity)), ..close_spec(r1) }
    } else {
        r1
    };
    let new_access = tab is Some && (changed || r2.tab_key != tab);
    let r3 = RecorderView { tab_key: tab, last: Some(at), ..r2 };
    if changed || new_access || mono_since(at.mono, r.last_flush) >= FLUSH_MS {
        let (st, c) = persist_spec(
            r3.store,
            r3.current->0,
            if new_access {
                Some((at, tab->0))
            } else {
                None
            },
        );
        RecorderView { store: st, current: Some(c), last_flush: at.mono, ..r3 }
    } else {
        r3
    }
}



/// The name of a run: the start instant in UTC milliseconds, a hyphen and the
/// process id.
pub open spec fn run_name(at: Stamp, pid: u32) -> Seq<char> {
    decimal_int(at.utc as int) + seq!['-'] + decimal_nat(pid as nat)
}

/// A recorder starting at `at`: the store is recovered, and the time from the
/// last confirmed instant up to `at`, when it lies before, is stored as
/// unobserved because the application was not running.
pub open spec fn start_spec(st: StoreView, at: Stamp, pid: u32) -> RecorderView {
    let run = run_name(at, pid);
    let rec = recovered_spec(st);
    RecorderView {
        store: match st.checkpoint {
            Some(k) => if k.confirmed_utc < at.utc {
                gap_spec(
                    rec,
                    run,
                    Stamp { utc: k.confirmed_utc, mono: 0, offset: at.offset },
                    at.utc - k.confirmed_utc,
                    "app_not_running"@,
                )
            } else {
                rec
            },
            None => rec,
        },
        run_id: run,
        current: None,
        last: None,
        last_flush: 0,
        tab_key: None,
    }
}

/// The activity recorded when the browser extension stopped answering: the
/// browser is not identified, so its time is unknown.
pub open spec fn extension_unavailable() -> ActivityView {
    ActivityView {
        source: "unknown"@,
        hostname: None,
        app_name: None,
        reason: "extension_unavailable"@,
    }
}

/// When the open segment is a browser one: it is closed, the browser time of
/// the run from `at` on is taken away, and from `at` on the browser is unknown
/// time, its extension unavailable. Otherwise nothing changes.
pub open spec fn truncate_browser_spec(r: RecorderView, at: Stamp) -> RecorderView {
    match r.current {
        Some(c) => if c.activity.source == "browser"@ {
            let r1 = close_spec(r);
            let r2 = RecorderView { store: truncate_spec(r1.store, r.run_id, at.utc), ..r1 };
            observe_spec(r2, at, extension_unavailable(), None)
        } else {
            r
        },
        None => r,
    }
}



/// The store `after` needed no more new ids than `before` had left: one per
/// segment it added.
pub open spec fn ids_suffice(before: StoreView, after: StoreView) -> bool {
    before.next_id + (after.sessions.len() - before.sessions.len()) <= i64::MAX
}

/// Each segment stored anew took one id.
pub open spec fn ids_track(before: StoreView, after: StoreView) -> bool {
    after.next_id - before.next_id == after.sessions.len() - before.sessions.len()
}

proof fn lemma_gap_grows(st: StoreView, run: Seq<char>, at: Stamp, left: int, reason: Seq<char>)
    ensures
        gap_spec(st, run, at, left, reason).sessions.len() >= st.sessions.len() + if left > 0 {
            1int
        } else {
            0
        },
    decreases left,
{
    if left > 0 {
        let amount = min_int(ms_until_midnight(at.utc as int, at.offset), left);
        if amount > 0 {
            let seg = SegmentView {
                is_open: false,
                end_utc: (at.utc + amount) as i64,
                duration_ms: amount as u64,
                ..new_segment(run, at, unobserved(reason))
            };
            lemma_gap_grows(persist_spec(st, seg, None).0, run, later(at, amount), left - amount, reason);
        }
    }
}

proof fn lemma_extend_grows(st: StoreView, cur: SegmentView, run: Seq<char>, cursor: Stamp, left: int)
    ensures
        extend_spec(st, cur, run, cursor, left).0.sessions.len() >= st.sessions.len(),
    decreases left,
{
    if left > 0 {
        let amount = min_int(left, ms_until_midnight(cursor.utc as int, cursor.offset));
        if amount > 0 {
            let grown = SegmentView {
                duration_ms: (cur.duration_ms + amount) as u64,
                end_utc: (cursor.utc + amount) as i64,
                ..cur
            };
            let next = later(cursor, amount);
            if stamp_date(next.utc, next.offset) != grown.local_date {
                let st2 = persist_spec(st, SegmentView { is_open: false, ..grown }, None).0;
                lemma_extend_grows(st2, new_segment(run, next, grown.activity), run, next, left - amount);
            } else {
                lemma_extend_grows(st, grown, run, next, left - amount);
            }
        }
    }
}

proof fn lemma_advance_grows(r: RecorderView, at: Stamp, activity: ActivityView)
    ensures
        advance_spec(r, at, activity).store.sessions.len() >= r.store.sessions.len(),
{
    match r.last {
        None => {},
        Some(last) => {
            let elapsed = mono_since(at.mono, last.mono);
            let civil = at.utc - last.utc;
            if is_gap(last, at) {
                let r2 = close_spec(r);
                lemma_gap_grows(r2.store, r.run_id, last, civil, "observation_gap"@);
            } else if is_adjusted(last, at) {
            } else {
                match r.current {
                    Some(c) => lemma_extend_grows(r.store, c, r.run_id, last, elapsed),
                    None => {},
                }
            }
        },
    }
}

proof fn lemma_cut_keeps_closed(ss: Seq<SegmentView>, run: Seq<char>, t: i64)
    requires
        open_rows_are(ss, 0),
    ensures
        open_rows_are(cut_sessions(ss, run, t), 0),
    decreases ss.len(),
{
    if ss.len() > 0 {
        assert(open_rows_are(ss.drop_last(), 0)) by {
            assert forall|i: int| 0 <= i < ss.drop_last().len() implies !(#[trigger] ss.drop_last()[i]).is_open by {
                assert(ss.drop_last()[i] == ss[i]);
            }
        }
        lemma_cut_keeps_closed(ss.drop_last(), run, t);
        assert(!ss[ss.len() - 1].is_open);
    }
}

proof fn lemma_filter_keeps_open_rows(ss: Seq<SegmentView>, p: spec_fn(SegmentView) -> bool, id: i64)
    requires
        open_rows_are(ss, id),
    ensures
        open_rows_are(ss.filter(p), id),
    decreases ss.len(),
{
    reveal(Seq::filter);
    if ss.len() > 0 {
        assert(open_rows_are(ss.drop_last(), id)) by {
            assert forall|i: int| 0 <= i < ss.drop_last().len() && (#[trigger] ss.drop_last()[i]).is_open implies id != 0
                && ss.drop_last()[i].id == id by {
                assert(ss.drop_last()[i] == ss[i]);
            }
        }
        lemma_filter_keeps_open_rows(ss.drop_last(), p, id);
        assert(ss.last() == ss[ss.len() - 1]);
    }
}


/// Cutting the browser time back succeeds: nothing is to be cut, or the open
/// segment can be stored and the observation that follows has the ids it needs.
pub open spec fn truncate_ok(r: RecorderView, at: Stamp) -> bool {
    match r.current {
        Some(c) => if c.activity.source == "browser"@ {
            let r1 = close_spec(r);
            let r2 = RecorderView { store: truncate_spec(r1.store, r.run_id, at.utc), ..r1 };
            !(c.id == 0 && r.store.next_id == i64::MAX) && ids_suffice(
                r2.store,
                observe_spec(r2, at, extension_unavailable(), None).store,
            )
        } else {
            true
        },
        None => true,
    }
}

/// Grows `cur` by `elapsed` milliseconds from `from`, storing it and starting a
/// new segment of the same activity at each local midnight; see [`extend_spec`].
fn extend(store: &mut Store, cur: &mut Segment, run: &str, from: Stamp, elapsed: u64) -> (r: Result<(), String>)
    requires
        store_wf(old(store)@),
        midnight_defined(from.utc as int),
        midnight_defined(from.utc + elapsed),
        from.mono + elapsed <= u64::MAX,
        old(cur).duration_ms + elapsed <= u64::MAX,
        midnight_defined(old(cur).end_utc as int),
        open_rows_are(old(store)@.sessions, old(cur).id),
        current_stored(old(store)@.sessions, Some(old(cur)@)),
    ensures
        store_wf(final(store)@),
        midnight_defined(final(cur).end_utc as int),
        open_rows_are(final(store)@.sessions, final(cur).id),
        current_stored(final(store)@.sessions, Some(final(cur)@)),
        r is Ok ==> (final(store)@, final(cur)@) == extend_spec(old(store)@, old(cur)@, run@, from, elapsed as int),
        r is Err ==> final(store)@.next_id == i64::MAX,
        ids_track(old(store)@, final(store)@),
        r is Ok <==> ids_suffice(old(store)@, extend_spec(old(store)@, old(cur)@, run@, from, elapsed as int).0),
{
    let ghost goal = extend_spec(store@, cur@, run@, from, elapsed as int);
    let ghost start = store@;
    let ghost cur0 = cur@;
    let mut cursor = from;
    let mut left = elapsed;
    while left > 0
        invariant
            store_wf(store@),
            cursor.utc + left == from.utc + elapsed,
            cursor.mono + left == from.mono + elapsed,
            from.utc <= cursor.utc,
            midnight_defined(from.utc as int),
            midnight_defined(from.utc + elapsed),
            from.mono + elapsed <= u64::MAX,
            cur.duration_ms + left <= u64::MAX,
            midnight_defined(cur.end_utc as int),
            open_rows_are(store@.sessions, cur.id),
            current_stored(store@.sessions, Some(cur@)),
            goal == extend_spec(store@, cur@, run@, cursor, left as int),
            start == old(store)@,
            cur0 == old(cur)@,
            goal == extend_spec(start, cur0, run@, from, elapsed as int),
            ids_track(start, store@),
        decreases left,
    {
        let ghost top_cur = cur@;
        let ghost top_cursor = cursor;
        let ghost top_left = left as int;
        let until = until_midnight(&cursor);
        let amount = if left < until { left } else { until };
        cur.duration_ms = cur.duration_ms + amount;
        cur.end_utc = cursor.utc + amount as i64;
        cursor = cursor.advance(amount);
        left = left - amount;
        let date = cursor.date();
        if !str_eq(date.as_str(), cur.local_date.as_str()) {
            cur.is_open = false;
            proof {
                lemma_persist_open(store@, cur@, None);
            }
            let ghost before_save = store@;
            let saved = store.persist(cur, None);
            if saved.is_err() {
                proof {
                    let st2 = persist_spec(before_save, cur@, None).0;
                    assert(goal == extend_spec(st2, new_segment(run@, cursor, cur@.activity), run@, cursor, left as int));
                    lemma_extend_grows(st2, new_segment(run@, cursor, cur@.activity), run@, cursor, left as int);
                }
                return saved;
            }
            let activity = cur.activity.clone();
            *cur = Segment::new(run, &cursor, activity);
        }
    }
    Ok(())
}

impl Recorder {
    /// Stores `duration` milliseconds of unobserved time from `start`; see [`gap_spec`].
    fn add_gap(&mut self, start: &Stamp, duration: u64, reason: &str) -> (r: Result<(), String>)
        requires
            store_wf(old(self)@.store),
            midnight_defined(start.utc as int),
            midnight_defined(start.utc + duration),
            start.mono + duration <= u64::MAX,
        ensures
            store_wf(final(self)@.store),
            final(self)@ == (RecorderView { store: final(self)@.store, ..old(self)@ }),
            r is Ok ==> final(self)@.store == gap_spec(old(self)@.store, old(self)@.run_id, *start, duration as int, reason@),
            r is Err ==> final(self)@.store.next_id == i64::MAX,
            open_rows_are(old(self)@.store.sessions, 0) ==> open_rows_are(final(self)@.store.sessions, 0),
            ids_track(old(self)@.store, final(self)@.store),
            r is Ok <==> ids_suffice(
                old(self)@.store,
                gap_spec(old(self)@.store, old(self)@.run_id, *start, duration as int, reason@),
            ),
    {
        let ghost goal = gap_spec(self@.store, self@.run_id, *start, duration as int, reason@);
        let ghost before = self@;
        let mut at = *start;
        let mut left = duration;
        while left > 0
            invariant
                store_wf(self@.store),
                before == old(self)@,
                self@ == (RecorderView { store: self@.store, ..before }),
                at.utc + left == start.utc + duration,
                at.mono + left == start.mono + duration,
                at.offset == start.offset,
                start.utc <= at.utc,
                midnight_defined(start.utc as int),
                midnight_defined(start.utc + duration),
                start.mono + duration <= u64::MAX,
                open_rows_are(before.store.sessions, 0) ==> open_rows_are(self@.store.sessions, 0),
                goal == gap_spec(self@.store, before.run_id, at, left as int, reason@),
                goal == gap_spec(before.store, before.run_id, *start, duration as int, reason@),
                ids_track(before.store, self@.store),
            decreases left,
        {
            let until = until_midnight(&at);
            let amount = if until < left { until } else { left };
            let mut s = Segment::new(self.run_id.as_str(), &at, Activity::new("unobserved", reason));
            s.is_open = false;
            s.end_utc = at.utc + amount as i64;
            s.duration_ms = amount;
            proof {
                if open_rows_are(before.store.sessions, 0) {
                    lemma_persist_open(self@.store, s@, None);
                }
            }
            let ghost before_save = self@.store;
            let saved = self.store.persist(&mut s, None);
            if saved.is_err() {
                proof {
                    let st2 = persist_spec(before_save, s@, None).0;
                    assert(goal == gap_spec(st2, before.run_id, later(at, amount as int), left - amount, reason@));
                    lemma_gap_grows(st2, before.run_id, later(at, amount as int), left - amount, reason@);
                }
                return saved;
            }
            at = at.advance(amount);
            left = left - amount;
        }
        Ok(())
    }

    /// Closes the open segment, if any, and stores it; see [`close_spec`].
    /// Refused when no id is left for a segment never stored.
    pub fn close(&mut self) -> (r: Result<(), String>)
        requires
            rec_wf(old(self)@),
        ensures
            rec_wf(final(self)@),
            r is Err <==> (old(self)@.current matches Some(c) && c.id == 0 && old(self)@.store.next_id == i64::MAX),
            r is Ok ==> final(self)@ == close_spec(old(self)@),
            r is Err ==> final(self)@.store == old(self)@.store,
            ids_track(old(self)@.store, final(self)@.store),
    {
        match self.current.take() {
            Some(mut c) => {
                c.is_open = false;
                let saved = self.store.persist(&mut c, None);
                if saved.is_err() {
                    self.current = Some(c);
                    return saved;
                }
            },
            None => {},
        }
        self.last = None;
        self.tab_key = None;
        Ok(())
    }

    /// Stores the open segment as it stands.
    /// Refused when no id is left for a segment never stored.
    pub fn flush(&mut self) -> (r: Result<(), String>)
        requires
            rec_wf(old(self)@),
        ensures
            rec_wf(final(self)@),
            r is Err <==> (old(self)@.current matches Some(c) && c.id == 0 && old(self)@.store.next_id == i64::MAX),
            r is Err ==> final(self)@ == old(self)@,
            ids_track(old(self)@.store, final(self)@.store),
            r is Ok ==> final(self)@ == match old(self)@.current {
                Some(c) => {
                    let (st, saved) = persist_spec(old(self)@.store, c, None);
                    RecorderView { store: st, current: Some(saved), ..old(self)@ }
                },
                None => old(self)@,
            },
    {
        let ghost r0 = self@;
        match self.current.take() {
            Some(mut c) => {
                let saved = self.store.persist(&mut c, None);
                self.current = Some(c);
                proof {
                    if saved.is_ok() {
                        lemma_persist_time(r0.store, r0.current->0, None);
                    }
                }
                saved
            },
            None => Ok(()),
        }
    }
}


impl Recorder {
    /// Accounts for the time since the last observation; see [`advance_spec`].
    fn advance(&mut self, at: &Stamp, activity: &Activity) -> (r: Result<(), String>)
        requires
            rec_wf(old(self)@),
            stamp_ok(*at),
            duration_fits(old(self)@, *at),
        ensures
            rec_wf(final(self)@),
            r is Ok ==> final(self)@ == advance_spec(old(self)@, *at, activity@),
            r is Err ==> final(self)@.store.next_id == i64::MAX,
            ids_track(old(self)@.store, final(self)@.store),
            r is Ok <==> ids_suffice(old(self)@.store, advance_spec(old(self)@, *at, activity@).store),
    {
        let last = match self.last {
            Some(l) => l,
            None => return Ok(()),
        };
        let elapsed: u64 = if at.mono >= last.mono { at.mono - last.mono } else { 0 };
        let civil: i64 = at.utc - last.utc;
        if elapsed > GAP_MS || (civil > 15_000 && elapsed < 2_000) {
            let ghost r0 = self@;
            let closed = self.close();
            if closed.is_err() {
                proof {
                    lemma_gap_grows(close_spec(r0).store, r0.run_id, last, civil as int, "observation_gap"@);
                }
                return closed;
            }
            if civil > 0 {
                return self.add_gap(&last, civil as u64, "observation_gap");
            }
            Ok(())
        } else if civil - elapsed as i64 > DRIFT_MS || elapsed as i64 - civil > DRIFT_MS || at.offset != last.offset {
            match self.current.take() {
                Some(mut c) => {
                    c.duration_ms = c.duration_ms + elapsed;
                    c.end_utc = last.utc + elapsed as i64;
                    self.current = Some(c);
                },
                None => {},
            }
            let closed = self.close();
            if closed.is_err() {
                return closed;
            }
            let mut adjusted = activity.clone();
            adjusted.reason = owned("clock_adjusted");
            self.current = Some(Segment::new(self.run_id.as_str(), at, adjusted));
            Ok(())
        } else {
            match self.current.take() {
                Some(mut c) => {
                    let grown = extend(&mut self.store, &mut c, self.run_id.as_str(), last, elapsed);
                    self.current = Some(c);
                    grown
                },
                None => Ok(()),
            }
        }
    }

    /// Records one observation; see [`observe_spec`]. Refused when the store has
    /// no id left for a new segment.
    pub fn observe(&mut self, at: Stamp, activity: Activity, tab: Option<String>) -> (r: Result<(), String>)
        requires
            rec_wf(old(self)@),
            stamp_ok(at),
            duration_fits(old(self)@, at),
        ensures
            rec_wf(final(self)@),
            r is Ok ==> final(self)@ == observe_spec(old(self)@, at, activity@, opt_view(tab)),
            r is Ok ==> recorded_time(final(self)@) == recorded_time(old(self)@) + observed_gain(old(self)@, at),
            r is Ok ==> (final(self)@.current matches Some(c) && records_activity(c, activity@)),
            r is Err ==> final(self)@.store.next_id == i64::MAX,
            ids_track(old(self)@.store, final(self)@.store),
            r is Ok <==> ids_suffice(old(self)@.store, observe_spec(old(self)@, at, activity@, opt_view(tab)).store),
    {
        let ghost r0 = self@;
        let advanced = self.advance(&at, &activity);
        if advanced.is_err() {
            return advanced;
        }
        let ghost r1 = self@;
        let changed = match &self.current {
            None => true,
            Some(c) => !str_eq(c.activity.source.as_str(), activity.source.as_str())
                || !opt_eq(&c.activity.hostname, &activity.hostname)
                || !opt_eq(&c.activity.app_name, &activity.app_name)
                || (!str_eq(c.activity.reason.as_str(), activity.reason.as_str())
                    && !str_eq(c.activity.reason.as_str(), "clock_adjusted")),
        };
        if changed {
            let closed = self.close();
            if closed.is_err() {
                return closed;
            }
            self.current = Some(Segment::new(self.run_id.as_str(), &at, activity));
        }
        let new_access = tab.is_some() && (changed || !opt_eq(&self.tab_key, &tab));
        self.tab_key = tab;
        self.last = Some(at);
        let since_flush: u64 = if at.mono >= self.last_flush { at.mono - self.last_flush } else { 0 };
        if changed || new_access || since_flush >= FLUSH_MS {
            match self.current.take() {
                Some(mut c) => {
                    let saved = if new_access {
                        match &self.tab_key {
                            Some(k) => self.store.persist(&mut c, Some((&at, k.as_str()))),
                            None => self.store.persist(&mut c, None),
                        }
                    } else {
                        self.store.persist(&mut c, None)
                    };
                    self.current = Some(c);
                    if saved.is_err() {
                        return saved;
                    }
                },
                None => {},
            }
            self.last_flush = at.mono;
        }
        proof {
            lemma_observed_time_follows_the_monotonic_clock(r0, at, activity@, opt_view(tab));
            lemma_observe_records_the_activity(r0, at, activity@, opt_view(tab));
        }
        Ok(())
    }
}


impl Recorder {
    /// Starts recording into `store` at `at`, for the process `pid`; see
    /// [`start_spec`]. Refused only when storing the time the application was
    /// not running needs an id the store no longer has.
    pub fn new(store: Store, at: &Stamp, pid: u32) -> (r: Result<Recorder, String>)
        requires
            store_wf(store@),
            stamp_ok(*at),
        ensures
            r matches Ok(rec) ==> rec@ == start_spec(store@, *at, pid) && rec_wf(rec@),
            r is Err ==> (store@.checkpoint matches Some(k) && k.confirmed_utc < at.utc),
            r is Ok <==> ids_suffice(store@, start_spec(store@, *at, pid).store),
    {
        let mut store = store;
        let recovered = match store.recover() {
            Ok(c) => c,
            Err(e) => return Err(e),
        };
        let mut run_id = String::new();
        push_decimal_i64(&mut run_id, at.utc);
        push_char(&mut run_id, '-');
        push_decimal_u64(&mut run_id, pid as u64);
        proof {
            assert(run_id@ =~= run_name(*at, pid));
        }
        let mut this = Recorder { store, run_id, current: None, last: None, last_flush: 0, tab_key: None };
        match recovered {
            Some(end) => {
                if end < at.utc {
                    let start = Stamp { utc: end, mono: 0, offset: at.offset };
                    let gap = this.add_gap(&start, (at.utc as i128 - end as i128) as u64, "app_not_running");
                    if gap.is_err() {
                        return Err(gap.unwrap_err());
                    }
                }
            },
            None => {},
        }
        Ok(this)
    }

    /// Cuts the browser time back to `at` when the open segment is a browser
    /// one; see [`truncate_browser_spec`].
    pub fn truncate_browser(&mut self, at: &Stamp) -> (r: Result<(), String>)
        requires
            rec_wf(old(self)@),
            stamp_ok(*at),
        ensures
            rec_wf(final(self)@),
            r is Ok ==> final(self)@ == truncate_browser_spec(old(self)@, *at),
            r is Err ==> final(self)@.store.next_id == i64::MAX,
            r is Ok <==> truncate_ok(old(self)@, *at),
    {
        let browser = match &self.current {
            Some(c) => str_eq(c.activity.source.as_str(), "browser"),
            None => false,
        };
        if !browser {
            return Ok(());
        }
        let closed = self.close();
        if closed.is_err() {
            return closed;
        }
        proof {
            lemma_cut_keeps_closed(self@.store.sessions, self@.run_id, at.utc);
        }
        self.store.truncate_browser(self.run_id.as_str(), at.utc);
        self.observe(*at, Activity::new("unknown", "extension_unavailable"), None)
    }
}


impl Recorder {
    /// The observation at `at` would not overflow the open segment's duration.
    pub fn fits(&self, at: &Stamp) -> (r: bool)
        ensures
            r == duration_fits(self@, *at),
    {
        match (&self.current, &self.last) {
            (Some(c), Some(l)) => {
                let elapsed: u64 = if at.mono >= l.mono { at.mono - l.mono } else { 0 };
                let civil: i128 = at.utc as i128 - l.utc as i128;
                let gap = elapsed > GAP_MS || (civil > 15_000 && elapsed < 2_000);
                gap || c.duration_ms <= u64::MAX - elapsed
            },
            _ => true,
        }
    }

    /// The activity of the open segment, if any.
    pub fn activity(&self) -> (r: Option<Activity>)
        ensures
            match self@.current {
                Some(c) => r matches Some(a) && a@ == c.activity,
                None => r is None,
            },
    {
        match &self.current {
            Some(c) => Some(c.activity.clone()),
            None => None,
        }
    }

    /// The last instant the store confirmed.
    pub fn last_saved(&self) -> (r: Option<i64>)
        ensures
            r == match self@.store.checkpoint {
                Some(k) => Some(k.confirmed_utc),
                None => None,
            },
    {
        match self.store.checkpoint() {
            Some(k) => Some(k.confirmed_utc),
            None => None,
        }
    }

    /// Stores the settings.
    pub fn save_settings(&mut self, settings: &Settings)
        ensures
            final(self)@ == (RecorderView { store: saved_settings_spec(old(self)@.store, settings@), ..old(self)@ }),
    {
        let _ = self.store.save_settings(settings);
    }

    /// Deletes the stored data of a day, or all of it, once the open segment
    /// is closed; see [`delete_spec`](crate::store::delete_spec). Refused: an
    /// invalid day.
    pub fn delete(&mut self, day: Option<&str>) -> (r: Result<(), String>)
        requires
            rec_wf(old(self)@),
            old(self)@.current is None,
        ensures
            rec_wf(final(self)@),
            r is Err <==> (day matches Some(d) && !crate::sessions::spec_valid_day(d)),
            r is Err ==> final(self)@ == old(self)@,
            r is Ok ==> final(self)@ == (RecorderView { store: delete_spec(old(self)@.store, opt_str(day)), ..old(self)@ }),
    {
        proof {
            let d = opt_str(day);
            lemma_filter_keeps_open_rows(
                self@.store.sessions,
                |s: SegmentView| !crate::store::deleted(d, s.local_date),
                current_id(self@.current),
            );
        }
        self.store.delete(day)
    }
}


impl Recorder {
    /// Marks the store's checkpoint as a clean exit.
    pub fn clean_exit(&mut self)
        requires
            rec_wf(old(self)@),
        ensures
            rec_wf(final(self)@),
            final(self)@ == (RecorderView { store: clean_exit_spec(old(self)@.store), ..old(self)@ }),
    {
        let _ = self.store.clean_exit();
    }
}


impl Recorder {
    /// The report of a stored day; see [`Store::report`].
    pub fn report(&self, day: &str) -> (r: Result<crate::sessions::DayReport, String>)
        ensures
            r is Err <==> (!crate::sessions::spec_valid_day(day) || !crate::store::day_inputs_fit(
                crate::store::sessions_of_day(self@.store.sessions, day@),
            )),
            r matches Ok(rep) ==> crate::report::day_report(
                rep,
                day@,
                crate::store::sessions_of_day(self@.store.sessions, day@),
                crate::store::accesses_of_day(self@.store.accesses, day@),
                self@.store.categories,
                crate::store::choice_pairs(self@.store.domain_categories),
                crate::store::choice_pairs(self@.store.app_categories),
            ),
    {
        self.store.report(day)
    }
}


proof fn lemma_total_first(s: Seq<SegmentView>)
    requires
        s.len() > 0,
    ensures
        total_all(s) == s[0].duration_ms + total_all(s.subrange(1, s.len() as int)),
    decreases s.len(),
{
    if s.len() == 1 {
        assert(s.subrange(1, 1) =~= Seq::<SegmentView>::empty());
        assert(s.drop_last() =~= Seq::<SegmentView>::empty());
    } else {
        lemma_total_first(s.drop_last());
        assert(s.drop_last()[0] == s[0]);
        assert(s.subrange(1, s.len() as int).drop_last() =~= s.drop_last().subrange(1, s.len() - 1));
        assert(s.subrange(1, s.len() as int).last() == s.last());
    }
}

/// Unobserved time is stored whole and split at local midnight: the segments a
/// gap adds come after the existing ones, are closed and unobserved for the
/// given reason, each ends its duration after its start and no later than the
/// next local midnight, and their durations add up to the gap.
pub proof fn lemma_gap_accounts(st: StoreView, run: Seq<char>, at: Stamp, left: int, reason: Seq<char>)
    requires
        left >= 0,
        at.utc + left <= i64::MAX,
    ensures
        forall|i: int|
            st.sessions.len() <= i < gap_spec(st, run, at, left, reason).sessions.len() ==> (#[trigger] gap_spec(
                st,
                run,
                at,
                left,
                reason,
            ).sessions[i]).end_utc == gap_spec(st, run, at, left, reason).sessions[i].start_utc + gap_spec(
                st,
                run,
                at,
                left,
                reason,
            ).sessions[i].duration_ms && gap_spec(st, run, at, left, reason).sessions[i].duration_ms
                <= ms_until_midnight(
                gap_spec(st, run, at, left, reason).sessions[i].start_utc as int,
                gap_spec(st, run, at, left, reason).sessions[i].offset_seconds,
            ),
        st.sessions.len() <= gap_spec(st, run, at, left, reason).sessions.len(),
        gap_spec(st, run, at, left, reason).sessions.subrange(0, st.sessions.len() as int) == st.sessions,
        forall|i: int|
            st.sessions.len() <= i < gap_spec(st, run, at, left, reason).sessions.len() ==> !(#[trigger] gap_spec(
                st,
                run,
                at,
                left,
                reason,
            ).sessions[i]).is_open && gap_spec(st, run, at, left, reason).sessions[i].activity == unobserved(reason),
        total_all(
            gap_spec(st, run, at, left, reason).sessions.subrange(
                st.sessions.len() as int,
                gap_spec(st, run, at, left, reason).sessions.len() as int,
            ),
        ) == left,
    decreases left,
{
    let out = gap_spec(st, run, at, left, reason).sessions;
    let n = st.sessions.len() as int;
    if left <= 0 {
        assert(out.subrange(n, n) =~= Seq::<SegmentView>::empty());
        assert(out.subrange(0, n) =~= st.sessions);
    } else {
        let amount = min_int(ms_until_midnight(at.utc as int, at.offset), left);
        assert(amount > 0);
        let seg = SegmentView {
            is_open: false,
            end_utc: (at.utc + amount) as i64,
            duration_ms: amount as u64,
            ..new_segment(run, at, unobserved(reason))
        };
        let (st2, saved) = persist_spec(st, seg, None);
        assert(st2.sessions == st.sessions.push(saved));
        lemma_gap_accounts(st2, run, later(at, amount), left - amount, reason);
        assert(out == gap_spec(st2, run, later(at, amount), left - amount, reason).sessions);
        let tail = out.subrange(n, out.len() as int);
        assert(out.subrange(0, n + 1) == st2.sessions);
        assert(out[n] == saved) by {
            assert(out.subrange(0, n + 1)[n] == out[n]);
        }
        assert(out.subrange(0, n) =~= st.sessions) by {
            assert forall|i: int| 0 <= i < n implies out.subrange(0, n)[i] == st.sessions[i] by {
                assert(out.subrange(0, n + 1)[i] == out[i]);
                assert(st2.sessions[i] == st.sessions[i]);
            }
        }
        lemma_total_first(tail);
        assert(tail[0] == saved);
        assert(tail.subrange(1, tail.len() as int) =~= out.subrange(n + 1, out.len() as int));
        assert forall|i: int| n <= i < out.len() implies !(#[trigger] out[i]).is_open && out[i].activity == unobserved(
            reason,
        ) && out[i].end_utc == out[i].start_utc + out[i].duration_ms && out[i].duration_ms <= ms_until_midnight(
            out[i].start_utc as int,
            out[i].offset_seconds,
        ) by {
            if i == n {
                assert(out[i] == saved);
            }
        }
    }
}

/// After a restart no segment is left open, and when the last confirmed
/// instant lies before the restart, the time in between is stored as exactly
/// that much time the application was not running.
pub proof fn lemma_restart(st: StoreView, at: Stamp, pid: u32)
    ensures
        forall|i: int|
            0 <= i < start_spec(st, at, pid).store.sessions.len() ==> !(#[trigger] start_spec(
                st,
                at,
                pid,
            ).store.sessions[i]).is_open,
        st.checkpoint matches Some(k) ==> (k.confirmed_utc < at.utc ==> total_all(
            start_spec(st, at, pid).store.sessions.subrange(
                st.sessions.len() as int,
                start_spec(st, at, pid).store.sessions.len() as int,
            ),
        ) == at.utc - k.confirmed_utc),
{
    let rec = recovered_spec(st);
    let out = start_spec(st, at, pid).store.sessions;
    assert forall|i: int| 0 <= i < rec.sessions.len() implies !(#[trigger] rec.sessions[i]).is_open by {}
    match st.checkpoint {
        Some(k) => {
            if k.confirmed_utc < at.utc {
                let start = Stamp { utc: k.confirmed_utc, mono: 0, offset: at.offset };
                lemma_gap_accounts(rec, run_name(at, pid), start, at.utc - k.confirmed_utc, "app_not_running"@);
                assert forall|i: int| 0 <= i < out.len() implies !(#[trigger] out[i]).is_open by {
                    if i < rec.sessions.len() {
                        assert(out.subrange(0, rec.sessions.len() as int)[i] == out[i]);
                    }
                }
            }
        },
        None => {},
    }
}

proof fn lemma_extend_keeps(st: StoreView, cur: SegmentView, run: Seq<char>, cursor: Stamp, left: int)
    ensures
        extend_spec(st, cur, run, cursor, left).0.accesses == st.accesses,
        extend_spec(st, cur, run, cursor, left).1.activity == cur.activity,
    decreases left,
{
    if left > 0 {
        let amount = min_int(left, ms_until_midnight(cursor.utc as int, cursor.offset));
        if amount > 0 {
            let grown = SegmentView {
                duration_ms: (cur.duration_ms + amount) as u64,
                end_utc: (cursor.utc + amount) as i64,
                ..cur
            };
            let next = later(cursor, amount);
            if stamp_date(next.utc, next.offset) != grown.local_date {
                let st2 = persist_spec(st, SegmentView { is_open: false, ..grown }, None).0;
                lemma_extend_keeps(st2, new_segment(run, next, grown.activity), run, next, left - amount);
            } else {
                lemma_extend_keeps(st, grown, run, next, left - amount);
            }
        }
    }
}

/// Observing again the activity of the open segment on the same tab, with no
/// gap and no clock adjustment in between, is no new access: a reload on the
/// same domain, or a local midnight, is not an entry.
pub proof fn lemma_same_tab_no_access(r: RecorderView, at: Stamp, a: ActivityView, k: Seq<char>)
    requires
        r.last matches Some(l) && !is_gap(l, at) && !is_adjusted(l, at),
        r.current matches Some(c) && c.activity == a,
        r.tab_key == Some(k),
    ensures
        observe_spec(r, at, a, Some(k)).store.accesses == r.store.accesses,
{
    let l = r.last->0;
    let c = r.current->0;
    lemma_extend_keeps(r.store, c, r.run_id, l, mono_since(at.mono, l.mono));
}

/// Entering a tab on a domain, when the open segment after accounting for the
/// elapsed time is another activity or there is none (after a gap, say), is
/// one new access at that instant, on that domain and tab.
pub proof fn lemma_entry_counts(r: RecorderView, at: Stamp, a: ActivityView, host: Seq<char>, k: Seq<char>)
    requires
        a.hostname == Some(host),
        match advance_spec(r, at, a).current {
            Some(c) => differs(c.activity, a),
            None => true,
        },
    ensures
        observe_spec(r, at, a, Some(k)).store.accesses == advance_spec(r, at, a).store.accesses.push(
            AccessRecordView {
                run_id: r.run_id,
                at_utc: at.utc,
                local_date: stamp_date(at.utc, at.offset),
                hostname: host,
                tab_key: k,
            },
        ),
{
    let r1 = advance_spec(r, at, a);
    assert(r1.run_id == r.run_id);
}


/// At most one stored segment is open, and it is the open segment's: every
/// operation of the recorder keeps it well formed, and a well-formed recorder
/// has no second open segment in its store.
pub proof fn lemma_one_open_segment(r: RecorderView, i: int, j: int)
    requires
        rec_wf(r),
        0 <= i < r.store.sessions.len(),
        0 <= j < r.store.sessions.len(),
        r.store.sessions[i].is_open,
        r.store.sessions[j].is_open,
    ensures
        i == j,
        r.current matches Some(c) && c.id == r.store.sessions[i].id,
{
    assert(current_id(r.current) != 0 && r.store.sessions[i].id == current_id(r.current));
    assert(r.store.sessions[j].id == current_id(r.current));
    if i < j {
        assert(r.store.sessions[i].id < r.store.sessions[j].id);
    } else if j < i {
        assert(r.store.sessions[j].id < r.store.sessions[i].id);
    }
}


/// The categories, the category choices and the settings of two stores agree.
pub open spec fn same_choices(a: StoreView, b: StoreView) -> bool {
    &&& a.categories == b.categories
    &&& a.domain_categories == b.domain_categories
    &&& a.app_categories == b.app_categories
    &&& a.settings == b.settings
}

proof fn lemma_gap_keeps_choices(st: StoreView, run: Seq<char>, at: Stamp, left: int, reason: Seq<char>)
    ensures
        same_choices(gap_spec(st, run, at, left, reason), st),
    decreases left,
{
    if left > 0 {
        let amount = min_int(ms_until_midnight(at.utc as int, at.offset), left);
        if amount > 0 {
            let seg = SegmentView {
                is_open: false,
                end_utc: (at.utc + amount) as i64,
                duration_ms: amount as u64,
                ..new_segment(run, at, unobserved(reason))
            };
            lemma_gap_keeps_choices(persist_spec(st, seg, None).0, run, later(at, amount), left - amount, reason);
        }
    }
}

proof fn lemma_extend_keeps_choices(st: StoreView, cur: SegmentView, run: Seq<char>, cursor: Stamp, left: int)
    ensures
        same_choices(extend_spec(st, cur, run, cursor, left).0, st),
    decreases left,
{
    if left > 0 {
        let amount = min_int(left, ms_until_midnight(cursor.utc as int, cursor.offset));
        if amount > 0 {
            let grown = SegmentView {
                duration_ms: (cur.duration_ms + amount) as u64,
                end_utc: (cursor.utc + amount) as i64,
                ..cur
            };
            let next = later(cursor, amount);
            if stamp_date(next.utc, next.offset) != grown.local_date {
                let st2 = persist_spec(st, SegmentView { is_open: false, ..grown }, None).0;
                lemma_extend_keeps_choices(st2, new_segment(run, next, grown.activity), run, next, left - amount);
            } else {
                lemma_extend_keeps_choices(st, grown, run, next, left - amount);
            }
        }
    }
}

/// An observation changes no category, category choice or setting.
pub proof fn lemma_observe_keeps_choices(r: RecorderView, at: Stamp, activity: ActivityView, tab: Option<Seq<char>>)
    ensures
        same_choices(observe_spec(r, at, activity, tab).store, r.store),
{
    match r.last {
        None => {},
        Some(last) => {
            let elapsed = mono_since(at.mono, last.mono);
            let civil = at.utc - last.utc;
            if is_gap(last, at) {
                lemma_gap_keeps_choices(close_spec(r).store, r.run_id, last, civil, "observation_gap"@);
            } else if !is_adjusted(last, at) {
                match r.current {
                    Some(c) => lemma_extend_keeps_choices(r.store, c, r.run_id, last, elapsed),
                    None => {},
                }
            }
        },
    }
}

/// Cutting the browser time back changes no category, category choice or setting.
pub proof fn lemma_truncate_keeps_choices(r: RecorderView, at: Stamp)
    ensures
        same_choices(truncate_browser_spec(r, at).store, r.store),
{
    match r.current {
        Some(c) => if c.activity.source == "browser"@ {
            let r1 = close_spec(r);
            let r2 = RecorderView { store: truncate_spec(r1.store, r.run_id, at.utc), ..r1 };
            lemma_observe_keeps_choices(r2, at, extension_unavailable(), None);
        },
        None => {},
    }
}


/// Milliseconds of a segment that were observed: all of them, unless the
/// segment stands for time that was not observed.
pub open spec fn observed_ms(s: SegmentView) -> int {
    if s.activity.source == "unobserved"@ {
        0
    } else {
        s.duration_ms as int
    }
}

/// Observed milliseconds of the stored segments whose id is not `k`.
pub open spec fn time_except(ss: Seq<SegmentView>, k: i64) -> int
    decreases ss.len(),
{
    if ss.len() == 0 {
        0
    } else {
        time_except(ss.drop_last(), k) + if ss.last().id == k {
            0
        } else {
            observed_ms(ss.last())
        }
    }
}

/// Observed milliseconds of the stored segments whose id is `k`.
pub open spec fn time_with(ss: Seq<SegmentView>, k: i64) -> int
    decreases ss.len(),
{
    if ss.len() == 0 {
        0
    } else {
        time_with(ss.drop_last(), k) + if ss.last().id == k {
            observed_ms(ss.last())
        } else {
            0
        }
    }
}

/// Observed milliseconds recorded so far: the stored segments, with the open
/// segment counted as held in memory rather than as last saved.
pub open spec fn recorded_time(r: RecorderView) -> int {
    time_except(r.store.sessions, current_id(r.current)) + match r.current {
        Some(c) => observed_ms(c),
        None => 0,
    }
}

/// Segment ids are positive, increasing and below the next id.
pub open spec fn ids_ok(st: StoreView) -> bool {
    &&& 1 <= st.next_id
    &&& forall|i: int| 0 <= i < st.sessions.len() ==> 1 <= #[trigger] st.sessions[i].id < st.next_id
    &&& forall|i: int, j: int| 0 <= i < j < st.sessions.len() ==> st.sessions[i].id < st.sessions[j].id
}

/// The open segment, once saved, is stored under its id with its activity.
pub open spec fn current_stored(ss: Seq<SegmentView>, cur: Option<SegmentView>) -> bool {
    match cur {
        Some(c) => c.id != 0 ==> exists|j: int| 0 <= j < ss.len() && #[trigger] ss[j].id == c.id && ss[j].activity
            == c.activity,
        None => true,
    }
}

proof fn lemma_time_push(ss: Seq<SegmentView>, x: SegmentView, k: i64)
    ensures
        time_except(ss.push(x), k) == time_except(ss, k) + if x.id == k {
            0
        } else {
            observed_ms(x)
        },
        time_with(ss.push(x), k) == time_with(ss, k) + if x.id == k {
            observed_ms(x)
        } else {
            0
        },
{
    assert(ss.push(x).drop_last() =~= ss);
}

proof fn lemma_time_split(ss: Seq<SegmentView>, k: i64)
    requires
        forall|i: int| 0 <= i < ss.len() ==> (#[trigger] ss[i]).id != 0,
    ensures
        time_except(ss, 0) == time_except(ss, k) + time_with(ss, k),
    decreases ss.len(),
{
    if ss.len() > 0 {
        lemma_time_split(ss.drop_last(), k);
        assert(ss.last() == ss[ss.len() - 1]);
    }
}

proof fn lemma_time_without(ss: Seq<SegmentView>, a: i64, b: i64)
    requires
        forall|i: int| 0 <= i < ss.len() ==> (#[trigger] ss[i]).id != a && ss[i].id != b,
    ensures
        time_except(ss, a) == time_except(ss, b),
        time_with(ss, a) == 0,
    decreases ss.len(),
{
    if ss.len() > 0 {
        lemma_time_without(ss.drop_last(), a, b);
        assert(ss.last() == ss[ss.len() - 1]);
    }
}

proof fn lemma_time_unique(ss: Seq<SegmentView>, j: int)
    requires
        0 <= j < ss.len(),
        forall|a: int, b: int| 0 <= a < b < ss.len() ==> ss[a].id < ss[b].id,
    ensures
        time_with(ss, ss[j].id) == observed_ms(ss[j]),
    decreases ss.len(),
{
    let rest = ss.drop_last();
    if j == ss.len() - 1 {
        assert forall|i: int| 0 <= i < rest.len() implies (#[trigger] rest[i]).id != ss[j].id && rest[i].id != ss[j].id by {
            assert(rest[i] == ss[i]);
        }
        lemma_time_without(rest, ss[j].id, ss[j].id);
    } else {
        assert(rest[j] == ss[j]);
        lemma_time_unique(rest, j);
        assert(ss.last() == ss[ss.len() - 1]);
    }
}

proof fn lemma_update_keeps_rest(ss: Seq<SegmentView>, seg: SegmentView)
    ensures
        time_except(update_segment(ss, seg), seg.id) == time_except(ss, seg.id),
    decreases ss.len(),
{
    if ss.len() > 0 {
        let u = update_segment(ss, seg);
        assert(u.drop_last() =~= update_segment(ss.drop_last(), seg));
        lemma_update_keeps_rest(ss.drop_last(), seg);
        assert(u.last() == u[u.len() - 1]);
    }
}


/// Saving a segment keeps the ids in order and the segment stored under its
/// id; counted apart from its stored row, nothing changes, and its stored row
/// now holds its time.
proof fn lemma_persist_time(st: StoreView, c: SegmentView, access: Option<(Stamp, Seq<char>)>)
    requires
        ids_ok(st),
        current_stored(st.sessions, Some(c)),
        c.id == 0 ==> st.next_id < i64::MAX,
    ensures
        ids_ok(persist_spec(st, c, access).0),
        persist_spec(st, c, access).1 == (SegmentView { id: persist_spec(st, c, access).1.id, ..c }),
        persist_spec(st, c, access).1.id != 0,
        c.id != 0 ==> persist_spec(st, c, access).1.id == c.id,
        current_stored(persist_spec(st, c, access).0.sessions, Some(persist_spec(st, c, access).1)),
        time_except(persist_spec(st, c, access).0.sessions, persist_spec(st, c, access).1.id)
            == time_except(st.sessions, c.id),
        time_except(persist_spec(st, c, access).0.sessions, 0) == time_except(st.sessions, c.id) + observed_ms(c),
        c.id == 0 ==> persist_spec(st, c, access).0.sessions.len() == st.sessions.len() + 1
            && persist_spec(st, c, access).0.next_id == st.next_id + 1,
        c.id != 0 ==> persist_spec(st, c, access).0.sessions.len() == st.sessions.len()
            && persist_spec(st, c, access).0.next_id == st.next_id,
{
    let (st2, saved) = persist_spec(st, c, access);
    let ss = st.sessions;
    let out = st2.sessions;
    if c.id == 0 {
        assert(out == ss.push(saved));
        assert forall|i: int| 0 <= i < ss.len() implies (#[trigger] ss[i]).id != saved.id && ss[i].id != 0 by {}
        lemma_time_without(ss, saved.id, 0);
        lemma_time_push(ss, saved, saved.id);
        lemma_time_push(ss, saved, 0);
        assert forall|i: int| 0 <= i < out.len() implies 1 <= #[trigger] out[i].id < st2.next_id by {
            if i < ss.len() {
                assert(out[i] == ss[i]);
            }
        }
        assert forall|i: int, j: int| 0 <= i < j < out.len() implies out[i].id < out[j].id by {
            assert(out[i] == ss[i]);
            if j < ss.len() {
                assert(out[j] == ss[j]);
            }
        }
        assert(out[out.len() - 1] == saved);
    } else {
        let j = choose|j: int| 0 <= j < ss.len() && #[trigger] ss[j].id == c.id && ss[j].activity == c.activity;
        assert(out.len() == ss.len());
        assert forall|i: int| 0 <= i < out.len() implies (#[trigger] out[i]).id == ss[i].id by {}
        assert forall|i: int| 0 <= i < out.len() implies 1 <= #[trigger] out[i].id < st2.next_id by {
            assert(out[i].id == ss[i].id);
        }
        assert forall|i: int, x: int| 0 <= i < x < out.len() implies out[i].id < out[x].id by {
            assert(out[i].id == ss[i].id);
            assert(out[x].id == ss[x].id);
        }
        lemma_update_keeps_rest(ss, c);
        assert forall|i: int| 0 <= i < out.len() implies (#[trigger] out[i]).id != 0 by {
            assert(out[i].id == ss[i].id);
        }
        lemma_time_split(out, c.id);
        assert(out[j].id == c.id);
        lemma_time_unique(out, j);
        assert(out[j].activity == c.activity);
    }
}

/// Closing the open segment stores its time: the recorded time stays.
proof fn lemma_close_time(r: RecorderView)
    requires
        ids_ok(r.store),
        current_stored(r.store.sessions, r.current),
        r.current matches Some(c) && c.id == 0 ==> r.store.next_id < i64::MAX,
    ensures
        ids_ok(close_spec(r).store),
        recorded_time(close_spec(r)) == recorded_time(r),
        r.current matches Some(c) && c.id == 0 ==> close_spec(r).store.sessions.len() == r.store.sessions.len() + 1
            && close_spec(r).store.next_id == r.store.next_id + 1,
        !(r.current matches Some(c) && c.id == 0) ==> close_spec(r).store.sessions.len() == r.store.sessions.len()
            && close_spec(r).store.next_id == r.store.next_id,
{
    match r.current {
        Some(c) => {
            lemma_persist_time(r.store, SegmentView { is_open: false, ..c }, None);
        },
        None => {},
    }
}


/// Unobserved time adds no observed time and keeps the ids in order.
proof fn lemma_gap_time(st: StoreView, run: Seq<char>, at: Stamp, left: int, reason: Seq<char>)
    requires
        ids_ok(st),
        st.next_id + (gap_spec(st, run, at, left, reason).sessions.len() - st.sessions.len()) <= i64::MAX,
    ensures
        ids_ok(gap_spec(st, run, at, left, reason)),
        time_except(gap_spec(st, run, at, left, reason).sessions, 0) == time_except(st.sessions, 0),
        gap_spec(st, run, at, left, reason).next_id - st.next_id == gap_spec(st, run, at, left, reason).sessions.len()
            - st.sessions.len(),
    decreases left,
{
    if left > 0 {
        let amount = min_int(ms_until_midnight(at.utc as int, at.offset), left);
        if amount > 0 {
            let seg = SegmentView {
                is_open: false,
                end_utc: (at.utc + amount) as i64,
                duration_ms: amount as u64,
                ..new_segment(run, at, unobserved(reason))
            };
            let st2 = persist_spec(st, seg, None).0;
            lemma_gap_grows(st2, run, later(at, amount), left - amount, reason);
            lemma_persist_time(st, seg, None);
            lemma_gap_time(st2, run, later(at, amount), left - amount, reason);
        }
    }
}

/// Growing the open segment by `left` milliseconds adds them to the observed
/// time, unless the segment stands for unobserved time, also across midnight.
proof fn lemma_extend_time(st: StoreView, cur: SegmentView, run: Seq<char>, cursor: Stamp, left: int)
    requires
        ids_ok(st),
        current_stored(st.sessions, Some(cur)),
        0 <= left,
        cur.duration_ms + left <= u64::MAX,
        st.next_id + (extend_spec(st, cur, run, cursor, left).0.sessions.len() - st.sessions.len()) <= i64::MAX,
    ensures
        ids_ok(extend_spec(st, cur, run, cursor, left).0),
        current_stored(extend_spec(st, cur, run, cursor, left).0.sessions, Some(extend_spec(st, cur, run, cursor, left).1)),
        extend_spec(st, cur, run, cursor, left).1.activity == cur.activity,
        time_except(extend_spec(st, cur, run, cursor, left).0.sessions, extend_spec(st, cur, run, cursor, left).1.id)
            + observed_ms(extend_spec(st, cur, run, cursor, left).1) == time_except(st.sessions, cur.id) + observed_ms(cur)
            + if cur.activity.source == "unobserved"@ {
            0
        } else {
            left
        },
        extend_spec(st, cur, run, cursor, left).0.next_id - st.next_id == extend_spec(st, cur, run, cursor, left).0.sessions.len()
            - st.sessions.len(),
    decreases left,
{
    if left > 0 {
        let amount = min_int(left, ms_until_midnight(cursor.utc as int, cursor.offset));
        assert(amount >= 1);
        let grown = SegmentView {
            duration_ms: (cur.duration_ms + amount) as u64,
            end_utc: (cursor.utc + amount) as i64,
            ..cur
        };
        let next = later(cursor, amount);
        if stamp_date(next.utc, next.offset) != grown.local_date {
            let closed = SegmentView { is_open: false, ..grown };
            let st2 = persist_spec(st, closed, None).0;
            let fresh = new_segment(run, next, grown.activity);
            lemma_extend_grows(st2, fresh, run, next, left - amount);
            lemma_persist_time(st, closed, None);
            lemma_extend_time(st2, fresh, run, next, left - amount);
        } else {
            lemma_extend_time(st, grown, run, next, left - amount);
        }
    }
}


proof fn lemma_persist_len(st: StoreView, seg: SegmentView, access: Option<(Stamp, Seq<char>)>)
    ensures
        persist_spec(st, seg, access).0.sessions.len() == st.sessions.len() + if seg.id == 0 {
            1int
        } else {
            0
        },
{
}

/// The observed milliseconds that an observation at `at` adds: the monotonic
/// time since the last observation, when there was one, it was no gap, and
/// the open segment stands for observed time; nothing otherwise.
pub open spec fn observed_gain(r: RecorderView, at: Stamp) -> int {
    match (r.last, r.current) {
        (Some(l), Some(c)) => if !is_gap(l, at) && c.activity.source != "unobserved"@ {
            mono_since(at.mono, l.mono)
        } else {
            0
        },
        _ => 0,
    }
}

proof fn lemma_advance_time(r: RecorderView, at: Stamp, activity: ActivityView)
    requires
        ids_ok(r.store),
        current_stored(r.store.sessions, r.current),
        duration_fits(r, at),
        r.store.next_id + (advance_spec(r, at, activity).store.sessions.len() - r.store.sessions.len()) <= i64::MAX,
    ensures
        ids_ok(advance_spec(r, at, activity).store),
        current_stored(advance_spec(r, at, activity).store.sessions, advance_spec(r, at, activity).current),
        recorded_time(advance_spec(r, at, activity)) == recorded_time(r) + observed_gain(r, at),
        advance_spec(r, at, activity).store.next_id - r.store.next_id == advance_spec(r, at, activity).store.sessions.len()
            - r.store.sessions.len(),
{
    match r.last {
        None => {},
        Some(last) => {
            let elapsed = mono_since(at.mono, last.mono);
            let civil = at.utc - last.utc;
            if is_gap(last, at) {
                let r2 = close_spec(r);
                if civil > 0 {
                    lemma_gap_grows(r2.store, r.run_id, last, civil, "observation_gap"@);
                }
                match r.current {
                    Some(c) => lemma_persist_len(r.store, SegmentView { is_open: false, ..c }, None),
                    None => {},
                }
                lemma_close_time(r);
                if civil > 0 {
                    lemma_gap_time(r2.store, r.run_id, last, civil, "observation_gap"@);
                }
            } else if is_adjusted(last, at) {
                let r2 = match r.current {
                    Some(c) => RecorderView {
                        current: Some(
                            SegmentView {
                                duration_ms: (c.duration_ms + elapsed) as u64,
                                end_utc: (last.utc + elapsed) as i64,
                                ..c
                            },
                        ),
                        ..r
                    },
                    None => r,
                };
                match r.current {
                    Some(c) => lemma_persist_len(r.store, SegmentView { is_open: false, ..r2.current->0 }, None),
                    None => {},
                }
                lemma_close_time(r2);
            } else {
                match r.current {
                    Some(c) => lemma_extend_time(r.store, c, r.run_id, last, elapsed),
                    None => {},
                }
            }
        },
    }
}

/// Observed time grows by the monotonic clock alone: one observation adds to
/// the observed milliseconds recorded (the stored segments other than the open
/// one, and the open segment as held in memory; unobserved time left out)
/// exactly the monotonic time since the previous observation, when there was
/// one and it was no gap, and nothing otherwise, whatever the civil clock did
/// and across any midnight, for every well-formed recorder on which the
/// observation succeeds. [`Recorder::observe`] states the same in its
/// `ensures`.
pub proof fn lemma_observed_time_follows_the_monotonic_clock(
    r: RecorderView,
    at: Stamp,
    activity: ActivityView,
    tab: Option<Seq<char>>,
)
    requires
        rec_wf(r),
        duration_fits(r, at),
        ids_suffice(r.store, observe_spec(r, at, activity, tab).store),
    ensures
        recorded_time(observe_spec(r, at, activity, tab)) == recorded_time(r) + observed_gain(r, at),
        current_stored(observe_spec(r, at, activity, tab).store.sessions, observe_spec(r, at, activity, tab).current),
{
    let r1 = advance_spec(r, at, activity);
    let changed = match r1.current {
        None => true,
        Some(c) => differs(c.activity, activity),
    };
    let r2 = if changed {
        RecorderView { current: Some(new_segment(r.run_id, at, activity)), ..close_spec(r1) }
    } else {
        r1
    };
    let new_access = tab is Some && (changed || r2.tab_key != tab);
    let r3 = RecorderView { tab_key: tab, last: Some(at), ..r2 };
    let flush = changed || new_access || mono_since(at.mono, r.last_flush) >= FLUSH_MS;
    let access = if new_access {
        Some((at, tab->0))
    } else {
        None
    };
    lemma_advance_grows(r, at, activity);
    if changed {
        match r1.current {
            Some(c) => lemma_persist_len(r1.store, SegmentView { is_open: false, ..c }, None),
            None => {},
        }
    }
    if flush {
        lemma_persist_len(r3.store, r3.current->0, access);
    }
    lemma_advance_time(r, at, activity);
    if changed {
        lemma_close_time(r1);
    }
    if flush {
        lemma_persist_time(r3.store, r3.current->0, access);
    }
}


proof fn lemma_extend_keeps_activity(st: StoreView, cur: SegmentView, run: Seq<char>, cursor: Stamp, left: int)
    ensures
        extend_spec(st, cur, run, cursor, left).1.activity == cur.activity,
    decreases left,
{
    if left > 0 {
        let amount = min_int(left, ms_until_midnight(cursor.utc as int, cursor.offset));
        if amount > 0 {
            let grown = SegmentView {
                duration_ms: (cur.duration_ms + amount) as u64,
                end_utc: (cursor.utc + amount) as i64,
                ..cur
            };
            let next = later(cursor, amount);
            if stamp_date(next.utc, next.offset) != grown.local_date {
                let st2 = persist_spec(st, SegmentView { is_open: false, ..grown }, None).0;
                lemma_extend_keeps_activity(st2, new_segment(run, next, grown.activity), run, next, left - amount);
            } else {
                lemma_extend_keeps_activity(st, grown, run, next, left - amount);
            }
        }
    }
}

/// The open segment records the activity: same source, hostname and
/// application, and the same reason unless the segment carries a clock
/// adjustment.
pub open spec fn records_activity(c: SegmentView, a: ActivityView) -> bool {
    &&& c.activity.source == a.source
    &&& c.activity.hostname == a.hostname
    &&& c.activity.app_name == a.app_name
    &&& (c.activity.reason == a.reason || c.activity.reason == "clock_adjusted"@)
}

/// After an observation the open segment records the observed activity; when
/// the activity differs from the open segment's in source, hostname or
/// application, the open segment is a new one that starts at the observation,
/// so no time of the old activity is given to the new one.
pub proof fn lemma_observe_records_the_activity(r: RecorderView, at: Stamp, a: ActivityView, tab: Option<Seq<char>>)
    ensures
        observe_spec(r, at, a, tab).current matches Some(c) && records_activity(c, a),
        (r.current matches Some(c0) && (c0.activity.source != a.source || c0.activity.hostname != a.hostname
            || c0.activity.app_name != a.app_name)) ==> (observe_spec(r, at, a, tab).current matches Some(c)
            && c.start_utc == at.utc && c.duration_ms == 0),
{
    match r.last {
        Some(last) => {
            if !is_gap(last, at) && !is_adjusted(last, at) {
                match r.current {
                    Some(c) => lemma_extend_keeps_activity(r.store, c, r.run_id, last, mono_since(at.mono, last.mono)),
                    None => {},
                }
            }
        },
        None => {},
    }
}

} // verus!
