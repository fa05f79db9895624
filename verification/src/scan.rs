//! Turning discovered files into series: each entry is a packed
//! `path\0timestamp` text and a file name; file names with an episode marker
//! become episodes, grouped into series.
use vstd::prelude::*;
use crate::series::{Episode, EpisodeView, Series, SeriesView, Scan, episode_total};
use crate::properties::{lemma_well_grouped, well_grouped};
use crate::text::{chars_of, push_str, string_from_chars};
use crate::uri::{file_name, file_name_of, file_uri_path, file_uri_to_path};
use crate::calendar::{format_systime, timestamp_text};
use crate::episode_name::{clean_name_text, clean_name_chars, find_episode_marker, find_marker,
    group_number, parse_group, strip_ext_chars, strip_ext_text};
use crate::grouping::{Group, all_nonempty, finalize, finalize_view, first_index, group_items,
    groups_view, insert_ep, lemma_first_index, lemma_first_index_at, series_view};

verus! {

/// The visit time given to files whose time is unknown.
pub open spec fn epoch_text() -> Seq<char> {
    "1970-01-01T00:00:00Z"@
}

/// Selects the NUL character.
pub open spec fn is_nul() -> spec_fn(char) -> bool {
    |c: char| c == '\0'
}

/// A packed entry split at its first NUL into path and visit time; without a
/// NUL, the whole text is the path and the time is the epoch.
pub open spec fn split_packed(p: Seq<char>) -> (Seq<char>, Seq<char>) {
    let i = first_index(p, is_nul());
    if i < 0 {
        (p, epoch_text())
    } else {
        (p.take(i), p.skip(i + 1))
    }
}

/// Splitting a packed entry gives back what was packed: a path without NUL
/// characters and the visit time packed after it.
pub proof fn lemma_split_packed_round_trip(path: Seq<char>, visited: Seq<char>)
    requires
        !path.contains('\0'),
    ensures
        split_packed(path + seq!['\0'] + visited) == (path, visited),
{
    let p = path + seq!['\0'] + visited;
    assert forall|k: int| 0 <= k < path.len() implies !(#[trigger] is_nul()(p[k])) by {
        assert(p[k] == path[k]);
        assert(path.contains(path[k]));
    }
    assert(is_nul()(p[path.len() as int]));
    lemma_first_index_at(p, is_nul(), path.len() as int);
    assert(p.take(path.len() as int) =~= path);
    assert(p.skip(path.len() as int + 1) =~= visited);
}

/// The series name and episode an entry stands for, when its file name
/// (without extension) has an episode marker after a non-empty title.
pub open spec fn parse_entry(packed: Seq<char>, filename: Seq<char>) -> Option<(Seq<char>, EpisodeView)> {
    let (path, visited) = split_packed(packed);
    let stem = strip_ext_text(filename);
    match find_marker(stem) {
        None => None,
        Some((start, (a, b, c, d))) => {
            let name = clean_name_text(stem.take(start));
            if name.len() == 0 {
                None
            } else {
                Some(
                    (
                        name,
                        EpisodeView {
                            season: group_number(stem.subrange(a, b)),
                            number: group_number(stem.subrange(c, d)),
                            visited,
                            path,
                            filename,
                        },
                    ),
                )
            }
        },
    }
}

/// The named episodes of a list of entries, in order.
pub open spec fn parsed_items(items: Seq<(Seq<char>, Seq<char>)>) -> Seq<(Seq<char>, EpisodeView)>
    decreases items.len(),
{
    if items.len() == 0 {
        Seq::empty()
    } else {
        let rest = parsed_items(items.drop_last());
        match parse_entry(items.last().0, items.last().1) {
            Some(x) => rest.push(x),
            None => rest,
        }
    }
}

/// The texts of a list of entries.
pub open spec fn entries_view(items: Seq<(String, String)>) -> Seq<(Seq<char>, Seq<char>)> {
    items.map_values(|p: (String, String)| (p.0@, p.1@))
}

fn subrange_of(s: &Vec<char>, from: usize, to: usize) -> (r: Vec<char>)
    requires
        from <= to <= s.len(),
    ensures
        r@ == s@.subrange(from as int, to as int),
{
    let mut r: Vec<char> = Vec::new();
    let mut k: usize = from;
    while k < to
        invariant
            from <= k <= to <= s.len(),
            r@ == s@.subrange(from as int, k as int),
        decreases to - k,
    {
        r.push(s[k]);
        k = k + 1;
        assert(r@ =~= s@.subrange(from as int, k as int));
    }
    r
}

fn split_packed_exec(packed: &String) -> (r: (String, String))
    ensures
        (r.0@, r.1@) == split_packed(packed@),
{
    let p = chars_of(packed.as_str());
    let mut i: usize = 0;
    while i < p.len() && p[i] != '\0'
        invariant
            i <= p.len(),
            forall|k: int| 0 <= k < i ==> !(#[trigger] is_nul()(p@[k])),
        decreases p.len() - i,
    {
        i = i + 1;
    }
    proof {
        lemma_first_index(p@, is_nul());
        let f = first_index(p@, is_nul());
        if f >= 0 && f < i {
            assert(!is_nul()(p@[f]));
        }
        if i < p.len() && f != i {
            if f == -1 {
                assert(!is_nul()(p@[i as int]));
            } else {
                assert(!is_nul()(p@[i as int]));
            }
        }
    }
    if i == p.len() {
        let mut e: Vec<char> = Vec::new();
        push_str(&mut e, "1970-01-01T00:00:00Z");
        (packed.clone(), string_from_chars(&e))
    } else {
        let path = subrange_of(&p, 0, i);
        let visited = subrange_of(&p, i + 1, p.len());
        assert(path@ =~= p@.take(i as int));
        assert(visited@ =~= p@.skip(i as int + 1));
        (string_from_chars(&path), string_from_chars(&visited))
    }
}

/// Reads one entry: the series name and episode it stands for, if any.
pub fn parse_entry_exec(packed: &String, filename: &String) -> (r: Option<(String, Episode)>)
    ensures
        match r {
            Some((n, e)) => parse_entry(packed@, filename@) == Some((n@, e@)),
            None => parse_entry(packed@, filename@) is None,
        },
{
    let (path, visited) = split_packed_exec(packed);
    let stem = strip_ext_chars(&chars_of(filename.as_str()));
    match find_episode_marker(&stem) {
        None => None,
        Some((start, a, b, c, d)) => {
            proof {
                crate::episode_name::lemma_marker_bounds(stem@, start as int);
            }
            let name = clean_name_chars(&subrange_of(&stem, 0, start));
            assert(stem@.subrange(0, start as int) =~= stem@.take(start as int));
            if name.len() == 0 {
                return None;
            }
            let season = parse_group(&stem, a, b);
            let number = parse_group(&stem, c, d);
            Some((string_from_chars(&name), Episode { season, number, visited, path, filename: filename.clone() }))
        },
    }
}

/// Turn `(packed_path, basename)` tuples into deduplicated, sorted series.
pub fn build_series(items: Vec<(String, String)>) -> (r: Vec<Series>)
    ensures
        series_view(r@) == finalize_view(group_items(parsed_items(entries_view(items@)))),
        well_grouped(parsed_items(entries_view(items@)), series_view(r@)),
        episode_total(series_view(r@)) <= items.len(),
{
    let ghost all = entries_view(items@);
    let mut groups: Vec<Group> = Vec::new();
    assert(groups_view(groups@) =~= group_items(parsed_items(all.take(0))));
    let mut i: usize = 0;
    while i < items.len()
        invariant
            i <= items.len(),
            all == entries_view(items@),
            groups_view(groups@) == group_items(parsed_items(all.take(i as int))),
            all_nonempty(groups@),
        decreases items.len() - i,
    {
        let (packed, filename) = &items[i];
        proof {
            assert(all.take(i as int + 1).drop_last() =~= all.take(i as int));
            assert(all.take(i as int + 1).last() == (packed@, filename@));
        }
        match parse_entry_exec(packed, filename) {
            Some((name, ep)) => {
                proof {
                    let prev = parsed_items(all.take(i as int));
                    assert(parsed_items(all.take(i as int + 1)) == prev.push((name@, ep@)));
                    assert(prev.push((name@, ep@)).drop_last() =~= prev);
                }
                insert_ep(&mut groups, name, ep);
            },
            None => {},
        }
        i = i + 1;
    }
    assert(all.take(i as int) =~= all);
    proof {
        lemma_well_grouped(parsed_items(all));
        lemma_parsed_items_len(all);
    }
    finalize(groups)
}

/// Each entry gives at most one named episode.
proof fn lemma_parsed_items_len(items: Seq<(Seq<char>, Seq<char>)>)
    ensures
        parsed_items(items).len() <= items.len(),
    decreases items.len(),
{
    if items.len() > 0 {
        lemma_parsed_items_len(items.drop_last());
    }
}

/// The pattern that finds bookmarks in a recently-used list: the `href`
/// attribute, and optionally a later `visited` or `modified` attribute in the
/// same element.
pub const BOOKMARK_PATTERN: &'static str = "href=\"([^\"]*)\"(?:[^>]*?\\bvisited=\"([^\"]*)\")?(?:[^>]*?\\bmodified=\"([^\"]*)\")?";

/// The capture groups of every match of `pattern` in `text`, as the `regex`
/// crate finds them: successive non-overlapping leftmost-first matches, each
/// with its groups in order (group 0 is the whole match, a group that did not
/// take part is `None`); `None` when the pattern does not compile.
pub uninterp spec fn regex_captures(pattern: Seq<char>, text: Seq<char>) -> Option<Seq<Seq<Option<Seq<char>>>>>;

/// The texts of a list of capture groups.
pub open spec fn captures_view(caps: Seq<Vec<Option<String>>>) -> Seq<Seq<Option<Seq<char>>>> {
    caps.map_values(
        |c: Vec<Option<String>>|
            c@.map_values(
                |g: Option<String>|
                    match g {
                        Some(t) => Some(t@),
                        None => None,
                    },
            ),
    )
}

/// Trusted: `regex::Regex::new` followed by `Regex::captures_iter`, each
/// match's groups turned into owned texts. The contract claims only that the
/// result is the fixed function `regex_captures` of the pattern and the text;
/// what the matches are is left to the `regex` crate.
#[verifier::external_body]
fn captures_all(pattern: &str, text: &str) -> (r: Option<Vec<Vec<Option<String>>>>)
    ensures
        match r {
            Some(c) => regex_captures(pattern@, text@) == Some(captures_view(c@)),
            None => regex_captures(pattern@, text@) is None,
        },
{
    let re = regex::Regex::new(pattern).ok()?;
    Some(
        re.captures_iter(text).map(
            |c| c.iter().map(|g| g.map(|m| m.as_str().to_string())).collect(),
        ).collect(),
    )
}

/// Capture group `i`, if it exists and took part in the match.
pub open spec fn capture(cap: Seq<Option<Seq<char>>>, i: int) -> Option<Seq<char>> {
    if 0 <= i < cap.len() { cap[i] } else { None }
}

/// The entry a bookmark match gives: the decoded local path packed with the
/// visit time (`visited`, else `modified`, else the epoch), and the file
/// name; `None` when the link is not a `file://` URI.
pub open spec fn bookmark_entry(cap: Seq<Option<Seq<char>>>) -> Option<(Seq<char>, Seq<char>)> {
    let href = match capture(cap, 1) {
        Some(h) => h,
        None => Seq::empty(),
    };
    let visited = match capture(cap, 2) {
        Some(v) => v,
        None => match capture(cap, 3) {
            Some(v) => v,
            None => epoch_text(),
        },
    };
    match file_uri_path(href) {
        None => None,
        Some(local) => Some(
            (
                local + seq!['\0'] + visited,
                match file_name_of(local) {
                    Some(n) => n,
                    None => Seq::empty(),
                },
            ),
        ),
    }
}

/// The entries of a list of bookmark matches, in order.
pub open spec fn bookmark_entries(caps: Seq<Seq<Option<Seq<char>>>>) -> Seq<(Seq<char>, Seq<char>)>
    decreases caps.len(),
{
    if caps.len() == 0 {
        Seq::empty()
    } else {
        let rest = bookmark_entries(caps.drop_last());
        match bookmark_entry(caps.last()) {
            Some(e) => rest.push(e),
            None => rest,
        }
    }
}

fn group_text(cap: &Vec<Option<String>>, i: usize) -> (r: Option<String>)
    ensures
        match r {
            Some(t) => capture(captures_view(seq![*cap])[0], i as int) == Some(t@),
            None => capture(captures_view(seq![*cap])[0], i as int) is None,
        },
{
    if i < cap.len() {
        match &cap[i] {
            Some(t) => Some(t.clone()),
            None => None,
        }
    } else {
        None
    }
}

/// Packs a path and a visit time as `path\0time`.
pub fn pack_entry(path: &str, visited: &str) -> (r: String)
    ensures
        r@ == path@ + seq!['\0'] + visited@,
{
    let mut v: Vec<char> = Vec::new();
    push_str(&mut v, path);
    v.push('\0');
    push_str(&mut v, visited);
    string_from_chars(&v)
}

/// The entries of a list of bookmark matches.
pub fn bookmarks_from_captures(caps: &Vec<Vec<Option<String>>>) -> (r: Vec<(String, String)>)
    ensures
        entries_view(r@) == bookmark_entries(captures_view(caps@)),
{
    let ghost all = captures_view(caps@);
    let mut out: Vec<(String, String)> = Vec::new();
    let mut i: usize = 0;
    assert(entries_view(out@) =~= bookmark_entries(all.take(0)));
    while i < caps.len()
        invariant
            i <= caps.len(),
            all == captures_view(caps@),
            entries_view(out@) == bookmark_entries(all.take(i as int)),
        decreases caps.len() - i,
    {
        let cap = &caps[i];
        proof {
            assert(all.take(i as int + 1).drop_last() =~= all.take(i as int));
            assert(all.take(i as int + 1).last() == all[i as int]);
            assert(captures_view(seq![*cap])[0] == all[i as int]);
        }
        let href = match group_text(cap, 1) {
            Some(h) => h,
            None => string_from_chars(&Vec::new()),
        };
        let visited = match group_text(cap, 2) {
            Some(v) => v,
            None => match group_text(cap, 3) {
                Some(v) => v,
                None => {
                    let mut e: Vec<char> = Vec::new();
                    push_str(&mut e, "1970-01-01T00:00:00Z");
                    string_from_chars(&e)
                },
            },
        };
        match file_uri_to_path(href.as_str()) {
            Some(local) => {
                let name = file_name(local.as_str());
                let packed = pack_entry(local.as_str(), visited.as_str());
                out.push((packed, name));
                assert(entries_view(out@) =~= bookmark_entries(all.take(i as int)).push((packed@, name@)));
            },
            None => {},
        }
        i = i + 1;
    }
    assert(all.take(i as int) =~= all);
    out
}

/// Pull `(href, visited)` pairs out of a recently-used.xbel document, as
/// `(path\0visited, basename)` entries.
pub fn extract_bookmarks(xml: &str) -> (r: Vec<(String, String)>)
    ensures
        entries_view(r@) == match regex_captures(BOOKMARK_PATTERN@, xml@) {
            Some(c) => bookmark_entries(c),
            None => Seq::empty(),
        },
{
    match captures_all(BOOKMARK_PATTERN, xml) {
        Some(caps) => bookmarks_from_captures(&caps),
        None => {
            let r: Vec<(String, String)> = Vec::new();
            assert(entries_view(r@) =~= Seq::<(Seq<char>, Seq<char>)>::empty());
            r
        },
    }
}

/// A scan of a recently-used list read from `source`: every bookmark found
/// is counted, and the episode files among them are grouped into series.
pub fn scan_recent_list(source: String, raw: &str) -> (s: Scan)
    ensures
        s.source@ == source@,
        s.total_files_seen == match regex_captures(BOOKMARK_PATTERN@, raw@) {
            Some(c) => bookmark_entries(c),
            None => Seq::empty(),
        }.len(),
        series_view(s.series@) == finalize_view(group_items(parsed_items(
            match regex_captures(BOOKMARK_PATTERN@, raw@) {
                Some(c) => bookmark_entries(c),
                None => Seq::empty(),
            },
        ))),
{
    let hrefs = extract_bookmarks(raw);
    let total = hrefs.len();
    Scan { series: build_series(hrefs), source, total_files_seen: total }
}

/// Build a `Scan` from the files found by walking a directory, so it can be
/// merged with the recent scan.
pub fn scan_dir_full(dir: &str, files: Vec<(String, String)>) -> (s: Scan)
    ensures
        s.source@ == dir@,
        s.total_files_seen == files.len(),
        series_view(s.series@) == finalize_view(group_items(parsed_items(entries_view(files@)))),
{
    let total = files.len();
    let mut d: Vec<char> = Vec::new();
    push_str(&mut d, dir);
    Scan { series: build_series(files), source: string_from_chars(&d), total_files_seen: total }
}

/// How deep a directory walk goes: directories are read down to six levels
/// below the one the walk starts in.
pub open spec fn max_walk_depth() -> nat {
    6
}

/// Whether a directory walk reads a directory at depth `depth` (the starting
/// directory is at depth 0).
pub fn may_descend(depth: usize) -> (b: bool)
    ensures
        b == (depth <= max_walk_depth()),
{
    depth <= 6
}

/// The entry for a file found in a directory: its path packed with its
/// modification time (the epoch when unknown), and its file name.
pub fn dir_entry(path: &str, name: &str, modified_secs: Option<u64>) -> (r: (String, String))
    ensures
        r.0@ == path@ + seq!['\0'] + match modified_secs {
            Some(t) => timestamp_text(t as nat),
            None => epoch_text(),
        },
        r.1@ == name@,
{
    let ts = match modified_secs {
        Some(t) => format_systime(t),
        None => {
            let mut e: Vec<char> = Vec::new();
            push_str(&mut e, "1970-01-01T00:00:00Z");
            string_from_chars(&e)
        },
    };
    let mut n: Vec<char> = Vec::new();
    push_str(&mut n, name);
    (pack_entry(path, ts.as_str()), string_from_chars(&n))
}

} // verus!
