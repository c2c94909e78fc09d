use caixa_preta::recorder::Recorder;
use caixa_preta::sessions::{report, until_midnight, valid_day, Activity, Category, Segment, Stamp};
use caixa_preta::store::{Settings, Store};
use caixa_preta::text::owned;

fn stamp(seconds: u64) -> Stamp {
    Stamp {
        utc: 1_788_956_400_000 + seconds as i64 * 1000,
        mono: seconds * 1000,
        offset: -10_800,
    }
}

fn observe(rec: &mut Recorder, start: u64, end: u64, act: Activity, tab: Option<&str>) {
    for t in start..=end {
        rec.observe(stamp(t), act.clone(), tab.map(str::to_string))
            .unwrap();
    }
}

#[test]
fn the_local_date_and_midnight_follow_the_offset() {
    assert_eq!(stamp(0).date(), "2026-09-09");
    assert_eq!(until_midnight(&stamp(0)), 52_800_000);
    let utc = Stamp { offset: 0, ..stamp(0) };
    assert_eq!(utc.date(), "2026-09-09");
    assert_eq!(until_midnight(&utc), 52_800_000 - 10_800_000);
    let refused_offset = Stamp { offset: 90_000, ..stamp(0) };
    assert_eq!(until_midnight(&refused_offset), until_midnight(&utc));
    assert_eq!(stamp(52_800).date(), "2026-09-10");
}

#[test]
fn days_are_ten_character_dates() {
    assert!(valid_day("2026-09-10"));
    assert!(!valid_day("2026-99-99"));
    assert!(!valid_day("2026-9-10"));
    assert!(!valid_day("2026-09-10 "));
    assert_eq!(owned("ação"), "ação");
}

#[test]
fn after_a_restart_nothing_is_left_open() {
    let mut rec = Recorder::new(Store::new(), &stamp(0), 1).unwrap();
    observe(&mut rec, 0, 7, Activity::new("vdi", ""), None);
    let restarted = Recorder::new(rec.store, &stamp(50), 2).unwrap();
    assert_eq!(restarted.run_id, format!("{}-2", stamp(50).utc));
    let report = restarted.store.report(&stamp(0).date()).unwrap();
    assert!(report.sessions.iter().all(|s| !s.is_open));
    let unobserved: Vec<_> = report
        .sessions
        .iter()
        .filter(|s| s.activity.source == "unobserved")
        .collect();
    assert_eq!(unobserved.len(), 1);
    assert_eq!(unobserved[0].activity.reason, "app_not_running");
    assert_eq!(unobserved[0].duration_ms, 45_000);
}

#[test]
fn a_gap_across_midnight_is_split_by_day_and_kept_whole() {
    let start = Stamp { utc: stamp(0).utc + 52_800_000 - 10_000, mono: 0, offset: -10_800 };
    let mut rec = Recorder::new(Store::new(), &start, 1).unwrap();
    rec.observe(start, Activity::new("vdi", ""), None).unwrap();
    let back = Stamp { utc: start.utc + 30_000, mono: 500, offset: -10_800 };
    rec.observe(back, Activity::new("vdi", ""), None).unwrap();
    rec.close().unwrap();
    let first = rec.store.report("2026-09-09").unwrap();
    let second = rec.store.report("2026-09-10").unwrap();
    let gap = |r: &caixa_preta::sessions::DayReport| -> u64 {
        r.sessions
            .iter()
            .filter(|s| s.activity.reason == "observation_gap")
            .map(|s| s.duration_ms)
            .sum()
    };
    assert_eq!(gap(&first), 10_000);
    assert_eq!(gap(&second), 20_000);
}

#[test]
fn returning_to_a_tab_after_a_gap_is_a_new_access() {
    let mut rec = Recorder::new(Store::new(), &stamp(0), 1).unwrap();
    let site = Activity::browser("example.org".into());
    observe(&mut rec, 0, 5, site.clone(), Some("1:1"));
    observe(&mut rec, 100, 105, site, Some("1:1"));
    rec.close().unwrap();
    let report = rec.store.report(&stamp(0).date()).unwrap();
    assert_eq!(report.domains[0].accesses, 2);
    assert_eq!(report.domains[0].duration_ms, 10_000);
    assert_eq!(report.accesses.len(), 2);
    assert_eq!(report.accesses[1].at_utc, stamp(100).utc);
}

#[test]
fn totals_partition_the_measured_time() {
    let mut rec = Recorder::new(Store::new(), &stamp(0), 1).unwrap();
    observe(&mut rec, 0, 10, Activity::new("vdi", ""), None);
    observe(&mut rec, 10, 20, Activity::browser("example.org".into()), Some("1:1"));
    observe(&mut rec, 20, 30, Activity::app("Editor".into(), "foreground_app"), None);
    observe(&mut rec, 30, 40, Activity::new("unknown", "unidentified_window"), None);
    observe(&mut rec, 40, 50, Activity::new("idle", "no_input"), None);
    observe(&mut rec, 50, 60, Activity::new("paused", "manual_pause"), None);
    observe(&mut rec, 60, 70, Activity::new("system", "app"), None);
    observe(&mut rec, 70, 80, Activity::new("vdi", ""), None);
    rec.close().unwrap();
    let r = rec.store.report(&stamp(0).date()).unwrap();
    assert_eq!(r.coverage_ms, 70_000);
    assert_eq!(r.vdi_ms, 20_000);
    assert_eq!(r.idle_ms, 10_000);
    assert_eq!(r.unknown_ms, r.unclassified_ms + r.unidentified_ms);
    assert_eq!((r.unclassified_ms, r.unidentified_ms), (10_000, 10_000));
    assert!(r.longest_focus_ms <= r.vdi_ms);
    assert_eq!(r.longest_focus_ms, 10_000);
    let categories: u64 = r.category_totals.iter().map(|b| b.duration_ms).sum();
    assert_eq!(categories + r.idle_ms, r.coverage_ms);
    let hours: u64 = r.hourly.iter().map(|b| b.duration_ms).sum();
    assert_eq!(hours, r.coverage_ms);
    assert_eq!(r.hourly[0].label, "09h -03:00");
}

#[test]
fn choosing_an_app_category_applies_to_past_days() {
    let mut rec = Recorder::new(Store::new(), &stamp(0), 1).unwrap();
    observe(&mut rec, 0, 10, Activity::app("Game".into(), "foreground_app"), None);
    rec.close().unwrap();
    observe(&mut rec, 86_400, 86_410, Activity::app("Game".into(), "foreground_app"), None);
    rec.close().unwrap();
    rec.store.classify_app("Game", "entertainment").unwrap();
    for day in [stamp(0).date(), stamp(86_400).date()] {
        let r = rec.store.report(&day).unwrap();
        assert_eq!(r.app_totals[0].category, "entertainment");
        assert_eq!(r.category_totals[0].label, "entertainment");
    }
    assert_eq!(
        rec.store.classify_app("Game", "vdi").unwrap_err(),
        "A categoria VDI é reservada à janela remota."
    );
}

#[test]
fn the_clock_and_category_choices_carry_the_current_time() {
    let now = Stamp::now(42);
    assert_eq!(now.mono, 42);
    assert!(now.utc > 1_700_000_000_000);
    assert!(now.offset > -86_400 && now.offset < 86_400);
    let mut store = Store::new();
    store.classify("example.org", "video").unwrap();
    let journal = store.take_journal();
    assert_eq!(journal.len(), 1);
    match &journal[0] {
        caixa_preta::store::Write::DomainCategory(choice) => {
            assert_eq!(choice.name, "example.org");
            assert_eq!(choice.category, "video");
            assert!(choice.updated_at > 1_700_000_000_000);
        }
        other => panic!("unexpected write {other:?}"),
    }
    assert!(store.take_journal().is_empty());
}

#[test]
fn the_journal_lists_every_change_in_order() {
    let mut rec = Recorder::new(Store::new(), &stamp(0), 1).unwrap();
    let _ = rec.store.take_journal();
    rec.observe(stamp(0), Activity::browser("example.org".into()), Some("1:1".into()))
        .unwrap();
    let journal = rec.store.take_journal();
    let kinds: Vec<&str> = journal
        .iter()
        .map(|w| match w {
            caixa_preta::store::Write::Session(_) => "session",
            caixa_preta::store::Write::Access(_) => "access",
            caixa_preta::store::Write::Checkpoint(_) => "checkpoint",
            _ => "other",
        })
        .collect();
    assert_eq!(kinds, vec!["session", "access", "checkpoint"]);
}

#[test]
fn only_the_open_segment_is_stored_open() {
    let mut rec = Recorder::new(Store::new(), &stamp(0), 1).unwrap();
    observe(&mut rec, 0, 12, Activity::new("vdi", ""), None);
    observe(&mut rec, 13, 20, Activity::browser("example.org".into()), Some("1:1"));
    observe(&mut rec, 21, 27, Activity::app("Editor".into(), "foreground_app"), None);
    let report = rec.store.report(&stamp(0).date()).unwrap();
    let open: Vec<_> = report.sessions.iter().filter(|s| s.is_open).collect();
    assert_eq!(open.len(), 1);
    assert_eq!(open[0].id, rec.current.as_ref().unwrap().id);
    rec.close().unwrap();
    let report = rec.store.report(&stamp(0).date()).unwrap();
    assert!(report.sessions.iter().all(|s| !s.is_open));
}

fn segment(start_utc: i64, duration_ms: u64, activity: Activity) -> Segment {
    Segment {
        id: 1,
        run_id: "run".into(),
        start_utc,
        end_utc: start_utc + duration_ms as i64,
        duration_ms,
        local_date: "2026-09-09".into(),
        offset_seconds: 0,
        activity,
        is_open: false,
    }
}

fn category(id: &str, distraction: bool) -> Category {
    Category { id: id.into(), name: id.into(), distraction }
}

#[test]
fn the_calendar_edge_falls_back_to_the_epoch() {
    let first = Stamp { utc: -8_334_601_228_800_000, mono: 0, offset: 0 };
    assert_eq!(first.date(), "-262143-01-01");
    let before = Stamp { utc: -8_334_601_228_800_001, mono: 0, offset: 0 };
    assert_eq!(before.date(), "1970-01-01");
    let last = Stamp { utc: 8_210_266_876_799_999, mono: 0, offset: 0 };
    assert_eq!(last.date(), "+262142-12-31");
    let after = Stamp { utc: 8_210_266_876_800_000, mono: 0, offset: 0 };
    assert_eq!(after.date(), "1970-01-01");
    let west = Stamp { utc: -8_334_601_228_800_000, mono: 0, offset: -86_399 };
    assert_eq!(west.date(), "-262144-12-31");
    let east = Stamp { utc: 8_210_266_876_799_999, mono: 0, offset: 86_399 };
    assert_eq!(east.date(), "+262143-01-01");
}

#[test]
fn midnight_is_found_anywhere_in_the_clock_range() {
    for utc in [i64::MIN, -1, 0, i64::MAX] {
        let at = Stamp { utc, mono: 0, offset: 0 };
        let expected = 86_400_000 - (utc as i128).rem_euclid(86_400_000) as u64;
        assert_eq!(until_midnight(&at), expected);
    }
}

#[test]
fn hours_outside_the_calendar_are_labelled_at_the_epoch() {
    let r = report(
        "2026-09-09",
        vec![segment(-8_334_601_300_000_000, 1_000, Activity::new("vdi", ""))],
        vec![],
        vec![category("vdi", false)],
        vec![],
        vec![],
    );
    assert_eq!(r.hourly.len(), 1);
    assert_eq!(r.hourly[0].label, "00h +00:00");
    assert_eq!(r.hourly[0].duration_ms, 1_000);
    let near_end = report(
        "2026-09-09",
        vec![segment(i64::MAX - 1_000, 1_000, Activity::new("vdi", ""))],
        vec![],
        vec![],
        vec![],
        vec![],
    );
    assert_eq!(near_end.vdi_ms, 1_000);
}

#[test]
fn distraction_counts_only_browser_and_application_time() {
    let sessions = vec![
        segment(1_788_956_400_000, 1_000, Activity::new("paused", "manual_pause")),
        segment(1_788_956_401_000, 2_000, Activity::new("unknown", "extension_unavailable")),
        segment(1_788_956_403_000, 4_000, Activity::new("idle", "no_input")),
        segment(1_788_956_407_000, 8_000, Activity::new("vdi", "")),
        segment(1_788_956_415_000, 3_000, Activity::app("ChatGPT".into(), "")),
        segment(1_788_956_418_000, 5_000, Activity::browser("example.org".into())),
    ];
    let categories = vec![
        category("vdi", true),
        category("local", true),
        category("unknown", true),
        category("system", true),
    ];
    let r = report("2026-09-09", sessions, vec![], categories, vec![], vec![]);
    assert_eq!(r.distraction_ms, Some(8_000));
    assert_eq!(r.unknown_ms, 7_000);
    assert_eq!(r.app_totals.len(), 2);
    assert_eq!(r.app_totals[0].label, "Google Chrome");
    assert_eq!(r.app_totals[0].duration_ms, 5_000);
    assert_eq!(r.app_totals[1].label, "ChatGPT");
    assert_eq!(r.largest_distraction.as_deref(), Some("Google Chrome"));
    assert!(r.category_totals.iter().all(|b| b.duration_ms > 0));
    assert!(r.hourly.iter().all(|b| b.duration_ms > 0));
    assert_eq!(r.category_totals.iter().map(|b| b.duration_ms).sum::<u64>() + r.idle_ms, r.coverage_ms);
}

#[test]
fn settings_read_back_what_was_saved() {
    let mut store = Store::new();
    let defaults = store.settings().unwrap();
    assert!(defaults.paused && !defaults.configured);
    assert_eq!(defaults.idle_minutes, 5);
    assert!(defaults.vdi.is_none());
    let chosen = Settings { paused: false, configured: true, idle_minutes: 12, vdi: None };
    store.save_settings(&chosen).unwrap();
    let mut rec = Recorder::new(store, &stamp(0), 1).unwrap();
    observe(&mut rec, 0, 20, Activity::new("vdi", ""), None);
    rec.close().unwrap();
    let read = rec.store.settings().unwrap();
    assert!(!read.paused && read.configured);
    assert_eq!(read.idle_minutes, 12);
}

#[test]
fn observed_time_follows_the_monotonic_clock() {
    let mut rec = Recorder::new(Store::new(), &stamp(0), 1).unwrap();
    let base = stamp(0);
    let vdi = Activity::new("vdi", "");
    rec.observe(base, vdi.clone(), None).unwrap();
    rec.observe(Stamp { utc: base.utc + 4_000, mono: 1_000, offset: base.offset }, vdi.clone(), None)
        .unwrap();
    rec.observe(Stamp { utc: base.utc + 5_000, mono: 2_000, offset: base.offset }, vdi.clone(), None)
        .unwrap();
    rec.observe(Stamp { utc: base.utc + 5_500, mono: 2_500, offset: base.offset }, vdi, None)
        .unwrap();
    rec.close().unwrap();
    let report = rec.store.report(&base.date()).unwrap();
    let observed: u64 = report
        .sessions
        .iter()
        .filter(|s| s.activity.source != "unobserved")
        .map(|s| s.duration_ms)
        .sum();
    assert_eq!(observed, 2_500);
    assert!(report.sessions.iter().any(|s| s.activity.reason == "clock_adjusted"));
}

#[test]
fn browser_time_counts_for_google_chrome() {
    let r = report(
        "2026-09-09",
        vec![segment(1_788_956_400_000, 1_000, Activity::browser("a.com".into()))],
        vec![],
        vec![],
        vec![],
        vec![("Google Chrome".to_string(), "research".to_string())],
    );
    assert_eq!(r.app_totals.len(), 1);
    assert_eq!(r.app_totals[0].label, "Google Chrome");
    assert_eq!(r.app_totals[0].duration_ms, 1_000);
    assert_eq!(r.app_totals[0].category, "research");
    assert_eq!(r.domains[0].hostname, "a.com");
    assert_eq!(r.domains[0].category, "unknown");
}

#[test]
fn hour_labels_give_the_local_hour_and_the_rounded_offset() {
    let at = |start_utc: i64, offset_seconds: i32| {
        let mut s = segment(start_utc, 1_000, Activity::new("vdi", ""));
        s.offset_seconds = offset_seconds;
        report("2026-09-09", vec![s], vec![], vec![], vec![], vec![]).hourly[0].label.clone()
    };
    assert_eq!(at(1_788_956_400_000, -10_800), "09h -03:00");
    assert_eq!(at(0, 86_399), "23h +24:00");
    assert_eq!(at(0, -19_830), "18h -05:31");
    assert_eq!(at(0, 19_829), "05h +05:30");
    assert_eq!(at(0, 0), "00h +00:00");
}
