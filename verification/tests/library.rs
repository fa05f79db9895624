use stpro::calendar::{civil_from_days, format_systime};
use stpro::episode_name::{clean_series_name, strip_ext, title_word};
use stpro::grouping::merge;
use stpro::scan::{build_series, dir_entry, extract_bookmarks, pack_entry, scan_dir_full, scan_recent_list};
use stpro::series::{Episode, Series};
use stpro::uri::{file_name, file_uri_to_path, hex_val, percent_decode};

fn entry(path: &str, visited: &str, name: &str) -> (String, String) {
    (format!("{}\u{0}{}", path, visited), name.to_string())
}

fn ep(season: u32, number: u32, visited: &str) -> Episode {
    Episode {
        season,
        number,
        visited: visited.to_string(),
        path: format!("/v/s{}e{}.mkv", season, number),
        filename: format!("s{}e{}.mkv", season, number),
    }
}

#[test]
fn tag_is_zero_padded() {
    assert_eq!(ep(1, 5, "x").tag(), "S01E05");
    assert_eq!(ep(12, 123, "x").tag(), "S12E123");
    assert_eq!(ep(0, 0, "x").tag(), "S00E00");
}

#[test]
fn civil_dates() {
    assert_eq!(civil_from_days(0), (1970, 1, 1));
    assert_eq!(civil_from_days(-1), (1969, 12, 31));
    assert_eq!(civil_from_days(11016), (2000, 2, 29));
    assert_eq!(civil_from_days(19782), (2024, 2, 29));
    assert_eq!(civil_from_days(-719468), (0, 3, 1));
}

#[test]
fn timestamps() {
    assert_eq!(format_systime(0), "1970-01-01T00:00:00Z");
    assert_eq!(format_systime(1_700_000_000), "2023-11-14T22:13:20Z");
    assert_eq!(format_systime(951_782_400), "2000-02-29T00:00:00Z");
}

#[test]
fn hex_digits() {
    assert_eq!(hex_val(b'0'), Some(0));
    assert_eq!(hex_val(b'a'), Some(10));
    assert_eq!(hex_val(b'F'), Some(15));
    assert_eq!(hex_val(b'g'), None);
}

#[test]
fn percent_decoding() {
    assert_eq!(percent_decode("a%20b"), "a b");
    assert_eq!(percent_decode("a%2Fb"), "a/b");
    assert_eq!(percent_decode("%zz"), "%zz");
    assert_eq!(percent_decode("%4"), "%4");
    assert_eq!(percent_decode("%E2%9C%93"), "\u{2713}");
    assert_eq!(percent_decode("%FF"), "\u{FFFD}");
    assert_eq!(percent_decode("plain"), "plain");
    assert_eq!(percent_decode("%41%62%2f"), "Ab/");
    assert_eq!(percent_decode("%e2%9C%93"), "\u{2713}");
    assert_eq!(percent_decode("100%"), "100%");
    assert_eq!(percent_decode("%g1 %4x %%"), "%g1 %4x %%");
}

#[test]
fn file_uris() {
    assert_eq!(file_uri_to_path("file:///home/u/a%20b.mkv"), Some("/home/u/a b.mkv".to_string()));
    assert_eq!(file_uri_to_path("file://host/share/x.mkv"), Some("/share/x.mkv".to_string()));
    assert_eq!(file_uri_to_path("file://nohost"), Some("nohost".to_string()));
    assert_eq!(file_uri_to_path("https://example.com/x"), None);
}

#[test]
fn file_names() {
    assert_eq!(file_name("/home/u/Show.S01E02.mkv"), "Show.S01E02.mkv");
    assert_eq!(file_name("/home/u/dir/"), "dir");
    assert_eq!(file_name("/home/u/dir/."), "dir");
    assert_eq!(file_name("/home/u/.."), "");
    assert_eq!(file_name("/"), "");
}

#[test]
fn extensions() {
    assert_eq!(strip_ext("Show.S01E02.mkv"), "Show.S01E02");
    assert_eq!(strip_ext("Show.S01E02.verylong"), "Show.S01E02.verylong");
    assert_eq!(strip_ext(".hidden"), ".hidden");
    assert_eq!(strip_ext("noext"), "noext");
    assert_eq!(strip_ext("x.\u{e9}\u{e9}"), "x");
    assert_eq!(strip_ext("x.\u{e9}\u{e9}\u{e9}"), "x.\u{e9}\u{e9}\u{e9}");
}

#[test]
fn series_titles() {
    assert_eq!(clean_series_name("Modern.Family."), "Modern Family");
    assert_eq!(clean_series_name("the_office-US "), "The Office US");
    assert_eq!(clean_series_name("SNL."), "SNL");
    assert_eq!(clean_series_name("..."), "");
    assert_eq!(clean_series_name(" ._- \t"), "");
    assert_eq!(title_word("SNL"), "SNL");
    assert_eq!(title_word("BREAKING"), "Breaking");
    assert_eq!(title_word("bReAkInG"), "Breaking");
}

#[test]
fn builds_series_from_files() {
    let items = vec![
        entry("/v/Modern.Family.S01E02.mkv", "2024-01-02T00:00:00Z", "Modern.Family.S01E02.mkv"),
        entry("/v/modern_family_s01e01.mkv", "2024-01-01T00:00:00Z", "modern_family_s01e01.mkv"),
        entry("/v/Modern.Family.S01E02.copy.mkv", "2024-01-05T00:00:00Z", "Modern.Family.S01E02.mkv"),
        entry("/v/notes.txt", "2024-01-09T00:00:00Z", "notes.txt"),
        entry("/v/The.Office.s2 e10.avi", "2023-12-31T00:00:00Z", "The.Office.s2 e10.avi"),
    ];
    let series = build_series(items);
    assert_eq!(series.len(), 2);
    assert_eq!(series[0].name, "Modern Family");
    assert_eq!(series[0].episodes.len(), 2);
    assert_eq!((series[0].episodes[0].season, series[0].episodes[0].number), (1, 1));
    assert_eq!((series[0].episodes[1].season, series[0].episodes[1].number), (1, 2));
    assert_eq!(series[0].episodes[1].visited, "2024-01-05T00:00:00Z");
    assert_eq!(series[0].last_watched.number, 2);
    assert_eq!(series[1].name, "The Office");
    assert_eq!((series[1].last_watched.season, series[1].last_watched.number), (2, 10));
}

#[test]
fn entries_without_title_or_time() {
    let items = vec![
        ("/v/S01E01.mkv".to_string(), "S01E01.mkv".to_string()),
        ("/v/Show.S01E0001.mkv".to_string(), "Show.S01E0001.mkv".to_string()),
        ("/v/Show.S0001E01.mkv".to_string(), "Show.S0001E01.mkv".to_string()),
    ];
    let series = build_series(items);
    assert_eq!(series.len(), 1);
    assert_eq!(series[0].name, "Show");
    assert_eq!((series[0].last_watched.season, series[0].last_watched.number), (1, 0));
    assert_eq!(series[0].last_watched.visited, "1970-01-01T00:00:00Z");
    assert_eq!(series[0].last_watched.path, "/v/Show.S01E0001.mkv");
}

#[test]
fn merging_keeps_newest_copy() {
    let a = build_series(vec![entry("/a/Show.S01E01.mkv", "2024-01-01T00:00:00Z", "Show.S01E01.mkv")]);
    let b = build_series(vec![
        entry("/b/show.s01e01.mkv", "2024-02-01T00:00:00Z", "show.s01e01.mkv"),
        entry("/b/Other.S03E04.mkv", "2023-01-01T00:00:00Z", "Other.S03E04.mkv"),
    ]);
    let m = merge(a, b);
    assert_eq!(m.len(), 2);
    assert_eq!(m[0].name, "Show");
    assert_eq!(m[0].episodes.len(), 1);
    assert_eq!(m[0].episodes[0].path, "/b/show.s01e01.mkv");
    assert_eq!(m[1].name, "Other");
}

#[test]
fn series_helpers() {
    let s = Series {
        name: "X".to_string(),
        episodes: vec![ep(1, 1, "2024-01-01T10:00:00Z"), ep(1, 2, "2024-01-03T10:00:00Z"), ep(2, 1, "2024-01-02T10:00:00Z")],
        last_watched: ep(1, 2, "2024-01-03T10:00:00Z"),
    };
    assert_eq!(s.watched_count(), 3);
    assert_eq!(s.seasons(), 2);
    assert_eq!(s.next_up(), (1, 3));
    assert_eq!(s.next_up_tag(), "S01E03");
    assert!(!s.next_available());
    assert_eq!(s.last_watched_date(), "2024-01-03");
    assert_eq!(s.season_counts(), (2, 2));
    let empty = Series { name: "E".to_string(), episodes: vec![], last_watched: ep(0, 1, "nodate") };
    assert_eq!(empty.seasons(), 1);
    assert!(!empty.next_available());
    assert_eq!(empty.last_watched_date(), "nodate");
    assert_eq!(empty.season_counts(), (0, 1));
}

#[test]
fn bookmarks_from_xbel() {
    let xml = r#"<xbel>
<bookmark href="file:///home/u/Videos/Show.S01E03.mkv" added="x" modified="2024-03-01T00:00:00Z" visited="2024-03-02T00:00:00Z"/>
<bookmark href="file:///home/u/Docs/a%20b.pdf" modified="2024-01-01T00:00:00Z"/>
<bookmark href="https://example.com/x" visited="2024-01-01T00:00:00Z"/>
</xbel>"#;
    let entries = extract_bookmarks(xml);
    assert_eq!(entries.len(), 2);
    assert_eq!(entries[0].0, "/home/u/Videos/Show.S01E03.mkv\u{0}2024-03-02T00:00:00Z");
    assert_eq!(entries[0].1, "Show.S01E03.mkv");
    assert_eq!(entries[1].0, "/home/u/Docs/a b.pdf\u{0}2024-01-01T00:00:00Z");
    assert_eq!(entries[1].1, "a b.pdf");
    let scan = scan_recent_list("src.xbel".to_string(), xml);
    assert_eq!(scan.total_files_seen, 2);
    assert_eq!(scan.source, "src.xbel");
    assert_eq!(scan.series.len(), 1);
    assert_eq!(scan.series[0].last_watched.tag(), "S01E03");
}

#[test]
fn directory_entries() {
    let (packed, name) = dir_entry("/v/Show.S01E01.mkv", "Show.S01E01.mkv", Some(0));
    assert_eq!(packed, "/v/Show.S01E01.mkv\u{0}1970-01-01T00:00:00Z");
    assert_eq!(name, "Show.S01E01.mkv");
    let (packed, _) = dir_entry("/v/a", "a", None);
    assert_eq!(packed, "/v/a\u{0}1970-01-01T00:00:00Z");
    let scan = scan_dir_full("/v", vec![dir_entry("/v/Show.S01E01.mkv", "Show.S01E01.mkv", Some(1_700_000_000))]);
    assert_eq!(scan.source, "/v");
    assert_eq!(scan.total_files_seen, 1);
    assert_eq!(scan.series[0].last_watched_date(), "2023-11-14");
}

#[test]
fn consecutive_days_are_consecutive_dates() {
    let mut prev = civil_from_days(-800);
    for z in -799..800i64 {
        let cur = civil_from_days(z);
        let next_day = if cur.2 == 1 {
            cur.1 == prev.1 % 12 + 1 && (cur.1 != 1 || cur.0 == prev.0 + 1)
        } else {
            cur.0 == prev.0 && cur.1 == prev.1 && cur.2 == prev.2 + 1
        };
        assert!(next_day, "{:?} -> {:?}", prev, cur);
        prev = cur;
    }
}

#[test]
fn grouped_series_are_well_formed() {
    let items = vec![
        entry("/v/a.S02E01.mkv", "2024-01-03T00:00:00Z", "a.S02E01.mkv"),
        entry("/v/A.S01E02.mkv", "2024-01-01T00:00:00Z", "A.S01E02.mkv"),
        entry("/v/b.S01E01.mkv", "2024-01-05T00:00:00Z", "b.S01E01.mkv"),
        entry("/v/A.S01E01.mkv", "2024-01-02T00:00:00Z", "A.S01E01.mkv"),
        entry("/v/c.S01E01.mkv", "2024-01-04T00:00:00Z", "c.S01E01.mkv"),
    ];
    let series = build_series(items.clone());
    let names: Vec<&str> = series.iter().map(|s| s.name.as_str()).collect();
    assert_eq!(names, vec!["B", "C", "A"]);
    for s in &series {
        for w in s.episodes.windows(2) {
            assert!((w[0].season, w[0].number) < (w[1].season, w[1].number));
        }
        assert!(s.episodes.iter().all(|e| e.visited <= s.last_watched.visited));
        for e in &s.episodes {
            assert!(items.iter().any(|(p, _)| p.starts_with(&e.path)));
        }
    }
    assert_eq!(series[2].last_watched.tag(), "S02E01");
}

#[test]
fn equal_visit_times_keep_first_copy_and_last_in_order() {
    let items = vec![
        entry("/v/x/Show.S01E01.mkv", "2024-01-01T00:00:00Z", "Show.S01E01.mkv"),
        entry("/v/y/Show.S01E01.mkv", "2024-01-01T00:00:00Z", "Show.S01E01.mkv"),
        entry("/v/Show.S01E02.mkv", "2024-01-01T00:00:00Z", "Show.S01E02.mkv"),
    ];
    let series = build_series(items);
    assert_eq!(series[0].episodes[0].path, "/v/x/Show.S01E01.mkv");
    assert_eq!(series[0].last_watched.number, 2);
}

fn summary(series: &[Series]) -> Vec<(String, Vec<(u32, u32, String, String)>, (u32, u32, String))> {
    series
        .iter()
        .map(|s| {
            (
                s.name.clone(),
                s.episodes.iter().map(|e| (e.season, e.number, e.visited.clone(), e.path.clone())).collect(),
                (s.last_watched.season, s.last_watched.number, s.last_watched.visited.clone()),
            )
        })
        .collect()
}

fn sample_items() -> Vec<(String, String)> {
    vec![
        entry("/v/a.S02E01.mkv", "2024-01-03T00:00:00Z", "a.S02E01.mkv"),
        entry("/v/A.S01E02.mkv", "2024-01-01T00:00:00Z", "A.S01E02.mkv"),
        entry("/v/b.S01E01.mkv", "2024-01-05T00:00:00Z", "b.S01E01.mkv"),
        entry("/w/a.s02e01.mkv", "2024-01-02T00:00:00Z", "a.s02e01.mkv"),
        entry("/v/c.S01E01.mkv", "2024-01-05T00:00:00Z", "c.S01E01.mkv"),
    ]
}

#[test]
fn merging_with_nothing_changes_nothing() {
    let series = build_series(sample_items());
    let again = merge(build_series(sample_items()), Vec::new());
    assert_eq!(summary(&again), summary(&series));
    let again = merge(Vec::new(), build_series(sample_items()));
    assert_eq!(summary(&again), summary(&series));
}

#[test]
fn merging_with_itself_changes_nothing() {
    let series = build_series(sample_items());
    let twice = merge(build_series(sample_items()), build_series(sample_items()));
    assert_eq!(summary(&twice), summary(&series));
    assert_eq!(series.len(), 3);
    assert_eq!(series[0].name, "B");
    assert_eq!(series[1].name, "C");
    assert_eq!(series[2].episodes[1].path, "/v/a.S02E01.mkv");
}

#[test]
fn timestamps_sort_as_times() {
    let times: [u64; 9] = [0, 59, 60, 86_399, 86_400, 951_782_399, 951_782_400, 1_700_000_000, 253_402_300_799];
    for &a in &times {
        for &b in &times {
            let (ta, tb) = (format_systime(a), format_systime(b));
            assert_eq!(ta < tb, a < b, "{} {}", ta, tb);
            assert_eq!(ta == tb, a == b);
        }
    }
    assert_eq!(format_systime(253_402_300_799), "9999-12-31T23:59:59Z");
}

#[test]
fn packed_entries_round_trip() {
    let packed = pack_entry("/v/Show.S01E04.mkv", "2024-05-01T12:00:00Z");
    assert_eq!(packed, "/v/Show.S01E04.mkv\u{0}2024-05-01T12:00:00Z");
    let series = build_series(vec![(packed, "Show.S01E04.mkv".to_string())]);
    assert_eq!(series[0].last_watched.path, "/v/Show.S01E04.mkv");
    assert_eq!(series[0].last_watched.visited, "2024-05-01T12:00:00Z");
    let series = build_series(vec![(pack_entry("/v/Show.S01E04.mkv", "a\u{0}b"), "Show.S01E04.mkv".to_string())]);
    assert_eq!(series[0].last_watched.visited, "a\u{0}b");
}

#[test]
fn merging_commutes_up_to_name_case_and_ties() {
    let a = || {
        build_series(vec![
            entry("/a/Show.S01E01.mkv", "2024-01-01T00:00:00Z", "Show.S01E01.mkv"),
            entry("/a/Show.S01E02.mkv", "2024-01-04T00:00:00Z", "Show.S01E02.mkv"),
            entry("/a/Other.S01E01.mkv", "2024-01-04T00:00:00Z", "Other.S01E01.mkv"),
        ])
    };
    let b = || {
        build_series(vec![
            entry("/b/SHOW.s01e01.mkv", "2024-02-01T00:00:00Z", "SHOW.s01e01.mkv"),
            entry("/b/Third.S02E01.mkv", "2023-05-01T00:00:00Z", "Third.S02E01.mkv"),
        ])
    };
    let ab = merge(a(), b());
    let ba = merge(b(), a());
    let key = |r: &[Series]| {
        let mut v: Vec<_> = summary(r).into_iter().map(|(n, e, l)| (n.to_lowercase(), e, l)).collect();
        v.sort();
        v
    };
    assert_eq!(key(&ab), key(&ba));
    assert_eq!(ab[0].name, "Show");
    assert_eq!(ba[0].name, "SHOW");
    assert_eq!(ab[0].episodes[0].path, "/b/SHOW.s01e01.mkv");
}
