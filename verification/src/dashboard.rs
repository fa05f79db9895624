//! The state behind the "continue watching" dashboard: the series shown,
//! where they came from, the search text and selection, and the status line.
use vstd::prelude::*;
use vstd::utf8::encode_utf8;
use crate::series::{Series, SeriesView, Scan, has_episode, episode_total};
use crate::text::{chars_of, decimal, decimal_chars, lowercase, push_str, string_from_chars, to_lowercase,
    to_uppercase, uppercase_text};
use crate::episode_name::{is_white_space, white_space};
use crate::grouping::{finalize_view, group_items, merge, series_items, series_view};

verus! {

/// What the dashboard shows and remembers between frames.
pub struct StproApp {
    pub series: Vec<Series>,
    pub source: String,
    pub files_seen: usize,
    pub search: String,
    pub status: String,
    pub selected: Option<usize>,
}

/// Status line after a scan of the recently-used list.
pub open spec fn refresh_status(files: nat, series: nat) -> Seq<char> {
    "Scanned "@ + decimal(files) + " recent files → "@ + decimal(series) + " series flagged"@
}

/// Status line after adding a folder.
pub open spec fn added_status(dir: Seq<char>, added: nat, total: nat) -> Seq<char> {
    "Added "@ + dir + " (+"@ + decimal(added) + " series) → "@ + decimal(total) + " total"@
}

/// Whether the series' next episode is already in the library.
pub open spec fn next_is_available(s: SeriesView) -> bool {
    has_episode(s.episodes, s.last_watched.season, (s.last_watched.number + 1) as u32)
}

/// Number of series whose next episode is already in the library.
pub open spec fn ready_total(ss: Seq<SeriesView>) -> nat
    decreases ss.len(),
{
    if ss.len() == 0 {
        0
    } else {
        ready_total(ss.drop_last()) + if next_is_available(ss.last()) { 1nat } else { 0nat }
    }
}

/// Whether position `i` of `s` starts a white-space separated word.
pub open spec fn starts_word(s: Seq<char>, i: int) -> bool {
    0 <= i < s.len() && !is_white_space(s[i]) && (i == 0 || is_white_space(s[i - 1]))
}

/// The first characters of the words among the first `n` characters of `s`.
pub open spec fn word_initials(s: Seq<char>, n: int) -> Seq<char>
    decreases n,
{
    if n <= 0 {
        Seq::empty()
    } else if starts_word(s, n - 1) {
        word_initials(s, n - 1).push(s[n - 1])
    } else {
        word_initials(s, n - 1)
    }
}

/// The first characters of the first two words of a name.
pub open spec fn initial_chars(name: Seq<char>) -> Seq<char> {
    let all = word_initials(name, name.len() as int);
    if all.len() <= 2 { all } else { all.take(2) }
}

/// Whether `needle` occurs in `hay` as a contiguous run.
pub open spec fn contains_text(hay: Seq<char>, needle: Seq<char>) -> bool {
    exists|i: int| 0 <= i <= hay.len() - needle.len() && #[trigger] hay.subrange(i, i + needle.len()) == needle
}

/// Whether a series matches the search text: an empty search matches all,
/// otherwise the lowercased name must contain the lowercased search.
pub open spec fn matches_search(name: Seq<char>, search: Seq<char>) -> bool {
    lowercase(search).len() == 0 || contains_text(lowercase(name), lowercase(search))
}

/// FNV-1a style hash of bytes, with offset 1469598103934665603 and the
/// 64-bit FNV prime.
pub open spec fn fnv1a(bytes: Seq<u8>) -> u64
    decreases bytes.len(),
{
    if bytes.len() == 0 {
        1469598103934665603u64
    } else {
        (fnv1a(bytes.drop_last()) ^ (bytes.last() as u64)).wrapping_mul(1099511628211u64)
    }
}

fn status_text(prefix: &str, n1: u64, middle: &str, n2: u64, suffix: &str) -> (s: String)
    ensures
        s@ == prefix@ + decimal(n1 as nat) + middle@ + decimal(n2 as nat) + suffix@,
{
    let mut v: Vec<char> = Vec::new();
    push_str(&mut v, prefix);
    let d1 = decimal_chars(n1);
    let mut k: usize = 0;
    let ghost a = v@;
    while k < d1.len()
        invariant
            k <= d1.len(),
            v@ == a + d1@.take(k as int),
        decreases d1.len() - k,
    {
        v.push(d1[k]);
        k = k + 1;
        assert(v@ =~= a + d1@.take(k as int));
    }
    assert(d1@.take(k as int) =~= d1@);
    push_str(&mut v, middle);
    let d2 = decimal_chars(n2);
    let mut j: usize = 0;
    let ghost b = v@;
    while j < d2.len()
        invariant
            j <= d2.len(),
            v@ == b + d2@.take(j as int),
        decreases d2.len() - j,
    {
        v.push(d2[j]);
        j = j + 1;
        assert(v@ =~= b + d2@.take(j as int));
    }
    assert(d2@.take(j as int) =~= d2@);
    push_str(&mut v, suffix);
    assert(v@ =~= prefix@ + decimal(n1 as nat) + middle@ + decimal(n2 as nat) + suffix@);
    string_from_chars(&v)
}

impl StproApp {
    /// A dashboard showing a first scan of the recently-used list, with an
    /// empty search and nothing selected.
    pub fn new(scan: Scan) -> (app: Self)
        ensures
            series_view(app.series@) == series_view(scan.series@),
            app.source@ == scan.source@,
            app.files_seen == scan.total_files_seen,
            app.search@ == Seq::<char>::empty(),
            app.status@ == refresh_status(scan.total_files_seen as nat, scan.series.len() as nat),
            app.selected is None,
    {
        let mut app = StproApp {
            series: Vec::new(),
            source: String::new(),
            files_seen: 0,
            search: String::new(),
            status: String::new(),
            selected: None,
        };
        app.refresh(scan);
        app
    }

    /// Shows a new scan of the recently-used list: its series, source and
    /// file count replace the old ones, the status line reports them, and the
    /// selection is cleared.
    pub fn refresh(&mut self, scan: Scan)
        ensures
            series_view(final(self).series@) == series_view(scan.series@),
            final(self).source@ == scan.source@,
            final(self).files_seen == scan.total_files_seen,
            final(self).search == old(self).search,
            final(self).status@ == refresh_status(scan.total_files_seen as nat, scan.series.len() as nat),
            final(self).selected is None,
    {
        self.files_seen = scan.total_files_seen;
        self.source = scan.source;
        self.status = status_text(
            "Scanned ",
            scan.total_files_seen as u64,
            " recent files → ",
            scan.series.len() as u64,
            " series flagged",
        );
        self.series = scan.series;
        self.selected = None;
    }

    /// Adds the series found in folder `dir`, merged with those shown, and
    /// reports how many series the folder had and how many there are now.
    pub fn add_folder(&mut self, dir: &str, scan: Scan)
        ensures
            series_view(final(self).series@) == finalize_view(
                group_items(series_items(series_view(old(self).series@) + series_view(scan.series@))),
            ),
            final(self).status@ == added_status(dir@, scan.series.len() as nat, final(self).series.len() as nat),
            final(self).source == old(self).source,
            final(self).files_seen == old(self).files_seen,
            final(self).search == old(self).search,
            final(self).selected == old(self).selected,
    {
        let added = scan.series.len();
        let mut existing: Vec<Series> = Vec::new();
        std::mem::swap(&mut existing, &mut self.series);
        self.series = merge(existing, scan.series);
        let mut v: Vec<char> = Vec::new();
        push_str(&mut v, "Added ");
        push_str(&mut v, dir);
        let rest = status_text(" (+", added as u64, " series) → ", self.series.len() as u64, " total");
        push_str(&mut v, rest.as_str());
        assert(v@ =~= added_status(dir@, added as nat, self.series.len() as nat));
        self.status = string_from_chars(&v);
    }

    /// Total number of episodes over all series shown.
    pub fn total_episodes(&self) -> (n: usize)
        requires
            episode_total(series_view(self.series@)) <= usize::MAX,
        ensures
            n == episode_total(series_view(self.series@)),
    {
        let ghost all = series_view(self.series@);
        let mut total: usize = 0;
        let mut i: usize = 0;
        while i < self.series.len()
            invariant
                i <= self.series.len(),
                all == series_view(self.series@),
                episode_total(all) <= usize::MAX,
                total == episode_total(all.take(i as int)),
            decreases self.series.len() - i,
        {
            proof {
                assert(all.take(i as int + 1).drop_last() =~= all.take(i as int));
                lemma_episode_total_prefix(all, i as int + 1);
            }
            total = total + self.series[i].watched_count();
            i = i + 1;
        }
        assert(all.take(i as int) =~= all);
        total
    }

    /// Number of series whose next episode is already in the library.
    pub fn ready_to_continue(&self) -> (n: usize)
        requires
            forall|i: int| 0 <= i < self.series.len() ==> (#[trigger] self.series@[i]).last_watched.number < u32::MAX,
        ensures
            n == ready_total(series_view(self.series@)),
    {
        let ghost all = series_view(self.series@);
        let mut n: usize = 0;
        let mut i: usize = 0;
        while i < self.series.len()
            invariant
                i <= self.series.len(),
                all == series_view(self.series@),
                forall|k: int| 0 <= k < self.series.len() ==> (#[trigger] self.series@[k]).last_watched.number < u32::MAX,
                n == ready_total(all.take(i as int)),
                n <= i,
            decreases self.series.len() - i,
        {
            proof {
                assert(all.take(i as int + 1).drop_last() =~= all.take(i as int));
                assert(all.take(i as int + 1).last() == self.series@[i as int]@);
            }
            if self.series[i].next_available() {
                n = n + 1;
            }
            i = i + 1;
        }
        assert(all.take(i as int) =~= all);
        n
    }

    /// Forgets a selection that no longer points at a series shown.
    pub fn drop_stale_selection(&mut self)
        ensures
            final(self).selected == (match old(self).selected {
                Some(i) => if i < old(self).series.len() { Some(i) } else { None },
                None => None,
            }),
            series_view(final(self).series@) == series_view(old(self).series@),
            final(self).series.len() == old(self).series.len(),
            final(self).source == old(self).source,
            final(self).files_seen == old(self).files_seen,
            final(self).search == old(self).search,
            final(self).status == old(self).status,
    {
        match self.selected {
            Some(i) => {
                if i >= self.series.len() {
                    self.selected = None;
                }
            },
            None => {},
        }
    }

    /// Indices of the series whose name matches the search text.
    pub fn matching_series(&self) -> (r: Vec<usize>)
        ensures
            forall|k: int| 0 <= k < r.len() ==> #[trigger] r@[k] < self.series.len(),
            forall|k: int, l: int| 0 <= k < l < r.len() ==> #[trigger] r@[k] < #[trigger] r@[l],
            forall|i: int|
                0 <= i < self.series.len() ==> (r@.contains(i as usize) <==> matches_search(
                    self.series@[i].name@,
                    self.search@,
                )),
    {
        let query = chars_of(to_lowercase(self.search.as_str()).as_str());
        let mut r: Vec<usize> = Vec::new();
        let mut i: usize = 0;
        while i < self.series.len()
            invariant
                i <= self.series.len(),
                query@ == lowercase(self.search@),
                forall|k: int| 0 <= k < r.len() ==> #[trigger] r@[k] < i,
                forall|k: int, l: int| 0 <= k < l < r.len() ==> #[trigger] r@[k] < #[trigger] r@[l],
                forall|j: int|
                    0 <= j < i ==> (r@.contains(j as usize) <==> matches_search(
                        self.series@[j].name@,
                        self.search@,
                    )),
            decreases self.series.len() - i,
        {
            let name = chars_of(to_lowercase(self.series[i].name.as_str()).as_str());
            let keep = query.len() == 0 || contains_chars(&name, &query);
            let ghost before = r@;
            if keep {
                r.push(i);
            }
            proof {
                assert forall|j: int|
                    0 <= j < i + 1 implies (r@.contains(j as usize) <==> matches_search(
                    self.series@[j].name@,
                    self.search@,
                )) by {
                    if j < i {
                        if r@.contains(j as usize) {
                            let k = choose|k: int| 0 <= k < r@.len() && r@[k] == j as usize;
                            if k < before.len() {
                                assert(before[k] == j as usize);
                            }
                        }
                        if before.contains(j as usize) {
                            let k = choose|k: int| 0 <= k < before.len() && before[k] == j as usize;
                            assert(r@[k] == j as usize);
                        }
                    } else {
                        if keep {
                            assert(r@[r@.len() - 1] == i);
                        } else if r@.contains(j as usize) {
                            let k = choose|k: int| 0 <= k < r@.len() && r@[k] == j as usize;
                            assert(r@[k] < i);
                        }
                    }
                }
            }
            i = i + 1;
        }
        r
    }
}

/// Whether `needle` occurs in `hay`.
fn contains_chars(hay: &Vec<char>, needle: &Vec<char>) -> (b: bool)
    ensures
        b == contains_text(hay@, needle@),
{
    if needle.len() > hay.len() {
        proof {
            if contains_text(hay@, needle@) {
                let i = choose|i: int|
                    0 <= i <= hay@.len() - needle@.len() && #[trigger] hay@.subrange(i, i + needle@.len())
                        == needle@;
            }
        }
        return false;
    }
    let mut i: usize = 0;
    while i <= hay.len() - needle.len()
        invariant
            needle.len() <= hay.len(),
            i <= hay.len() - needle.len() + 1,
            forall|k: int| 0 <= k < i ==> #[trigger] hay@.subrange(k, k + needle@.len()) != needle@,
        decreases hay.len() - needle.len() + 1 - i,
    {
        let mut j: usize = 0;
        while j < needle.len() && hay[i + j] == needle[j]
            invariant
                j <= needle.len(),
                i + needle.len() <= hay.len(),
                hay@.subrange(i as int, i + j) == needle@.take(j as int),
            decreases needle.len() - j,
        {
            assert(hay@.subrange(i as int, i + j + 1) =~= hay@.subrange(i as int, i + j).push(hay@[i + j]));
            assert(needle@.take(j + 1) =~= needle@.take(j as int).push(needle@[j as int]));
            j = j + 1;
        }
        if j == needle.len() {
            assert(needle@.take(j as int) =~= needle@);
            assert(hay@.subrange(i as int, i + needle@.len()) == needle@);
            return true;
        }
        assert(hay@.subrange(i as int, i + needle@.len())[j as int] == hay@[i + j]);
        assert(needle@[j as int] != hay@[i + j]);
        i = i + 1;
    }
    false
}

/// The episode total of a prefix grows by the size of the next series.
proof fn lemma_episode_total_prefix(all: Seq<SeriesView>, n: int)
    requires
        0 <= n <= all.len(),
    ensures
        episode_total(all.take(n)) <= episode_total(all),
    decreases all.len() - n,
{
    if n < all.len() {
        lemma_episode_total_prefix(all, n + 1);
        assert(all.take(n + 1).drop_last() =~= all.take(n));
    } else {
        assert(all.take(n) =~= all);
    }
}

/// The initials a series is shown with: the first characters of its first
/// two words, uppercased.
pub fn initials(name: &str) -> (r: String)
    ensures
        r@ == uppercase_text(initial_chars(name@)),
{
    let s = chars_of(name);
    let mut out: Vec<char> = Vec::new();
    let mut prev_space = true;
    let mut i: usize = 0;
    while i < s.len()
        invariant
            i <= s.len(),
            prev_space == (i == 0 || is_white_space(s@[i - 1])),
            out@ == (if word_initials(s@, i as int).len() <= 2 {
                word_initials(s@, i as int)
            } else {
                word_initials(s@, i as int).take(2)
            }),
        decreases s.len() - i,
    {
        let c = s[i];
        let space = white_space(c);
        let ghost w = word_initials(s@, i as int);
        if !space && prev_space {
            assert(starts_word(s@, i as int));
            assert(word_initials(s@, i + 1) == w.push(c));
            if out.len() < 2 {
                out.push(c);
                assert(out@ =~= w.push(c));
            } else {
                assert(w.push(c).take(2) =~= w.take(2));
            }
        } else {
            assert(!starts_word(s@, i as int));
        }
        prev_space = space;
        i = i + 1;
    }
    to_uppercase(string_from_chars(&out).as_str())
}

/// Hue (0..360) that a series name is shown with: the `fnv1a` hash of the
/// name's UTF-8 bytes, modulo 360.
pub fn series_hue(name: &str) -> (h: u64)
    ensures
        h == fnv1a(encode_utf8(name@)) % 360,
{
    let bytes = name.as_bytes();
    let mut h: u64 = 1469598103934665603;
    let mut i: usize = 0;
    while i < bytes.len()
        invariant
            i <= bytes.len(),
            h == fnv1a(bytes@.take(i as int)),
        decreases bytes.len() - i,
    {
        assert(bytes@.take(i as int + 1).drop_last() =~= bytes@.take(i as int));
        h = (h ^ (bytes[i] as u64)).wrapping_mul(1099511628211);
        i = i + 1;
    }
    assert(bytes@.take(i as int) =~= bytes@);
    h % 360
}

/// The search is a case-insensitive substring search: an empty search
/// matches every name; a search that occurs anywhere in the lowercased name
/// (at its start, inside it, at its end, or as the whole of it) matches; and a
/// matching non-empty search occurs at some place in the lowercased name.
pub proof fn lemma_search_law(name: Seq<char>, search: Seq<char>, i: int)
    ensures
        lowercase(search).len() == 0 ==> matches_search(name, search),
        0 <= i && i + lowercase(search).len() <= lowercase(name).len() && lowercase(name).subrange(
            i,
            i + lowercase(search).len(),
        ) == lowercase(search) ==> matches_search(name, search),
        matches_search(name, name),
        matches_search(name, search) && lowercase(search).len() > 0 ==> exists|j: int|
            0 <= j && j + lowercase(search).len() <= lowercase(name).len() && #[trigger] lowercase(name).subrange(
                j,
                j + lowercase(search).len(),
            ) == lowercase(search),
{
    let h = lowercase(name);
    assert(h.subrange(0, 0 + h.len() as int) =~= h);
    assert(contains_text(h, h));
    if matches_search(name, search) && lowercase(search).len() > 0 {
        let q = lowercase(search);
        let j = choose|j: int| 0 <= j <= h.len() - q.len() && #[trigger] h.subrange(j, j + q.len()) == q;
        assert(j + q.len() <= h.len());
    }
}

} // verus!
