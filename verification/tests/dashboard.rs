use stpro::dashboard::{initials, series_hue, StproApp};
use stpro::series::date_of;
use stpro::scan::{dir_entry, scan_dir_full};

fn scan_of(dir: &str, files: &[(&str, u64)]) -> stpro::series::Scan {
    let entries = files
        .iter()
        .map(|(name, secs)| dir_entry(&format!("{}/{}", dir, name), name, Some(*secs)))
        .collect();
    scan_dir_full(dir, entries)
}

#[test]
fn new_dashboard_reports_scan() {
    let app = StproApp::new(scan_of("/v", &[("Show.S01E01.mkv", 100), ("Show.S01E02.mkv", 200), ("x.txt", 5)]));
    assert_eq!(app.files_seen, 3);
    assert_eq!(app.source, "/v");
    assert_eq!(app.series.len(), 1);
    assert_eq!(app.status, "Scanned 3 recent files → 1 series flagged");
    assert_eq!(app.selected, None);
    assert_eq!(app.search, "");
    assert_eq!(app.total_episodes(), 2);
}

#[test]
fn refresh_replaces_and_clears_selection() {
    let mut app = StproApp::new(scan_of("/v", &[("Show.S01E01.mkv", 100)]));
    app.selected = Some(0);
    app.search = "sh".to_string();
    app.refresh(scan_of("/w", &[("A.S01E01.mkv", 1), ("B.S02E03.mkv", 2)]));
    assert_eq!(app.series.len(), 2);
    assert_eq!(app.series[0].name, "B");
    assert_eq!(app.source, "/w");
    assert_eq!(app.selected, None);
    assert_eq!(app.search, "sh");
    assert_eq!(app.status, "Scanned 2 recent files → 2 series flagged");
}

#[test]
fn add_folder_merges() {
    let mut app = StproApp::new(scan_of("/v", &[("Show.S01E01.mkv", 100)]));
    app.add_folder("/w", scan_of("/w", &[("show.s01e02.mkv", 300), ("Other.S01E01.mkv", 50)]));
    assert_eq!(app.series.len(), 2);
    assert_eq!(app.series[0].name, "Show");
    assert_eq!(app.series[0].episodes.len(), 2);
    assert_eq!(app.series[0].last_watched.number, 2);
    assert_eq!(app.status, "Added /w (+2 series) → 2 total");
    assert_eq!(app.source, "/v");
    assert_eq!(app.total_episodes(), 3);
}

#[test]
fn search_filters_case_insensitively() {
    let mut app = StproApp::new(scan_of("/v", &[("Modern.Family.S01E01.mkv", 100), ("The.Office.S01E01.mkv", 200)]));
    assert_eq!(app.matching_series(), vec![0, 1]);
    app.search = "FAM".to_string();
    let idx = app.matching_series();
    assert_eq!(idx.len(), 1);
    assert_eq!(app.series[idx[0]].name, "Modern Family");
    app.search = "zzz".to_string();
    assert!(app.matching_series().is_empty());
}

#[test]
fn hue_is_a_stable_hash() {
    assert_eq!(series_hue("abc"), 29);
    assert_eq!(series_hue("Modern Family"), 12);
    assert!(series_hue("") < 360);
}


#[test]
fn ready_to_continue_counts_available_next_episodes() {
    let app = StproApp::new(scan_of(
        "/v",
        &[("A.S01E01.mkv", 300), ("A.S01E02.mkv", 100), ("B.S01E01.mkv", 50), ("B.S01E02.mkv", 60), ("C.S02E05.mkv", 10)],
    ));
    assert_eq!(app.series.len(), 3);
    assert_eq!(app.ready_to_continue(), 1);
    let empty = StproApp::new(scan_of("/v", &[]));
    assert_eq!(empty.ready_to_continue(), 0);
}

#[test]
fn initials_of_first_two_words() {
    assert_eq!(initials("modern family"), "MF");
    assert_eq!(initials("  the   office us "), "TO");
    assert_eq!(initials("snl"), "S");
    assert_eq!(initials(""), "");
    assert_eq!(initials("stra\u{df}e x"), "SX");
    assert_eq!(initials("\u{df}ee"), "SS");
}

#[test]
fn visit_dates() {
    assert_eq!(date_of("2024-01-03T10:00:00Z"), "2024-01-03");
    assert_eq!(date_of("no-time"), "no-time");
    assert_eq!(date_of("T"), "");
}

#[test]
fn stale_selection_is_dropped() {
    let mut app = StproApp::new(scan_of("/v", &[("A.S01E01.mkv", 1)]));
    app.selected = Some(0);
    app.drop_stale_selection();
    assert_eq!(app.selected, Some(0));
    app.selected = Some(1);
    app.drop_stale_selection();
    assert_eq!(app.selected, None);
    assert_eq!(app.series.len(), 1);
}

#[test]
fn walk_depth_limit() {
    assert!(stpro::scan::may_descend(0));
    assert!(stpro::scan::may_descend(6));
    assert!(!stpro::scan::may_descend(7));
}
