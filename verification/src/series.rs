//! The data model: flagged episode files, the series they form, and the
//! result of a scan.
use vstd::prelude::*;
use crate::text::{padded_decimal, push_padded, string_from_chars, chars_of};

verus! {

/// A single episode file the scanner flagged.
#[derive(Debug)]
pub struct Episode {
    pub season: u32,
    pub number: u32,
    /// ISO-8601 timestamp string. These sort lexicographically, so plain string
    /// comparison gives chronological ordering.
    pub visited: String,
    pub path: String,
    pub filename: String,
}

/// The mathematical value of an [`Episode`].
pub struct EpisodeView {
    pub season: u32,
    pub number: u32,
    pub visited: Seq<char>,
    pub path: Seq<char>,
    pub filename: Seq<char>,
}

impl View for Episode {
    type V = EpisodeView;

    open spec fn view(&self) -> EpisodeView {
        EpisodeView {
            season: self.season,
            number: self.number,
            visited: self.visited@,
            path: self.path@,
            filename: self.filename@,
        }
    }
}

impl Clone for Episode {
    fn clone(&self) -> (e: Self)
        ensures
            e == *self,
    {
        Episode {
            season: self.season,
            number: self.number,
            visited: self.visited.clone(),
            path: self.path.clone(),
            filename: self.filename.clone(),
        }
    }
}

/// `S01E05` style tag of a season and an episode number.
pub open spec fn tag_text(season: u32, number: u32) -> Seq<char> {
    seq!['S'] + padded_decimal(season as nat, 2) + seq!['E'] + padded_decimal(number as nat, 2)
}

fn tag_string(season: u32, number: u32) -> (s: String)
    ensures
        s@ == tag_text(season, number),
{
    let mut out: Vec<char> = Vec::new();
    out.push('S');
    push_padded(&mut out, season as u64, 2);
    out.push('E');
    push_padded(&mut out, number as u64, 2);
    assert(out@ =~= tag_text(season, number));
    string_from_chars(&out)
}

impl Episode {
    /// `S01E05` style tag.
    pub fn tag(&self) -> (s: String)
        ensures
            s@ == tag_text(self.season, self.number),
    {
        tag_string(self.season, self.number)
    }
}

/// An aggregated show, built from one or more flagged episode files.
#[derive(Debug)]
pub struct Series {
    pub name: String,
    /// Deduplicated episodes, sorted by season then number.
    pub episodes: Vec<Episode>,
    /// The episode with the most recent `visited` timestamp.
    pub last_watched: Episode,
}

/// The mathematical value of a [`Series`].
pub struct SeriesView {
    pub name: Seq<char>,
    pub episodes: Seq<EpisodeView>,
    pub last_watched: EpisodeView,
}

/// Number of episodes over all series.
pub open spec fn episode_total(ss: Seq<SeriesView>) -> nat
    decreases ss.len(),
{
    if ss.len() == 0 {
        0
    } else {
        episode_total(ss.drop_last()) + ss.last().episodes.len()
    }
}

/// The views of a sequence of episodes.
pub open spec fn episodes_view(eps: Seq<Episode>) -> Seq<EpisodeView> {
    eps.map_values(|e: Episode| e@)
}

impl View for Series {
    type V = SeriesView;

    open spec fn view(&self) -> SeriesView {
        SeriesView {
            name: self.name@,
            episodes: episodes_view(self.episodes@),
            last_watched: self.last_watched@,
        }
    }
}

impl Clone for Series {
    fn clone(&self) -> (s: Self)
        ensures
            s@ == self@,
    {
        let mut episodes: Vec<Episode> = Vec::new();
        let mut i: usize = 0;
        while i < self.episodes.len()
            invariant
                i <= self.episodes.len(),
                episodes@ == self.episodes@.take(i as int),
            decreases self.episodes.len() - i,
        {
            episodes.push(self.episodes[i].clone());
            i = i + 1;
            assert(episodes@ =~= self.episodes@.take(i as int));
        }
        assert(self.episodes@.take(i as int) =~= self.episodes@);
        Series { name: self.name.clone(), episodes, last_watched: self.last_watched.clone() }
    }
}

/// The season count shown for a list of episodes: the highest season
/// present, or 1 when there are none.
pub open spec fn highest_season(eps: Seq<EpisodeView>) -> u32
    decreases eps.len(),
{
    if eps.len() == 0 {
        1
    } else if eps.len() == 1 {
        eps[0].season
    } else {
        let rest = highest_season(eps.drop_last());
        if eps.last().season > rest { eps.last().season } else { rest }
    }
}

/// Whether an episode with this season and number is among `eps`.
pub open spec fn has_episode(eps: Seq<EpisodeView>, season: u32, number: u32) -> bool {
    exists|i: int| 0 <= i < eps.len() && eps[i].season == season && eps[i].number == number
}

/// The part of `s` before its first `'T'` (all of `s` when it has none).
pub open spec fn date_part(s: Seq<char>) -> Seq<char>
    decreases s.len(),
{
    if s.len() == 0 {
        s
    } else if s[0] == 'T' {
        Seq::empty()
    } else {
        seq![s[0]] + date_part(s.drop_first())
    }
}

/// The episodes of `eps` that belong to `season`.
pub open spec fn in_season(eps: Seq<EpisodeView>, season: u32) -> Seq<EpisodeView> {
    eps.filter(|e: EpisodeView| e.season == season)
}

/// The highest episode number in `eps`, or 1 when it is empty or that
/// number is 0.
pub open spec fn highest_number(eps: Seq<EpisodeView>) -> u32
    decreases eps.len(),
{
    if eps.len() == 0 {
        1
    } else {
        let rest = highest_number(eps.drop_last());
        if eps.last().number > rest { eps.last().number } else { rest }
    }
}

/// Date portion (`YYYY-MM-DD`) of a visit time: the text up to its first
/// `'T'` (all of it when there is none).
pub fn date_of(visited: &str) -> (s: String)
    ensures
        s@ == date_part(visited@),
{
    let chars = chars_of(visited);
    let mut out: Vec<char> = Vec::new();
    let mut i: usize = 0;
    assert(chars@.skip(0) =~= chars@);
    while i < chars.len() && chars[i] != 'T'
        invariant
            i <= chars.len(),
            out@ == chars@.take(i as int),
            date_part(chars@) == out@ + date_part(chars@.skip(i as int)),
        decreases chars.len() - i,
    {
        assert(chars@.skip(i as int).drop_first() =~= chars@.skip(i as int + 1));
        out.push(chars[i]);
        i = i + 1;
        assert(out@ =~= chars@.take(i as int));
    }
    proof {
        if i == chars.len() {
            assert(chars@.skip(i as int) =~= Seq::<char>::empty());
        }
    }
    assert(out@ =~= date_part(chars@));
    string_from_chars(&out)
}

impl Series {
    /// Count of distinct episodes seen.
    pub fn watched_count(&self) -> (n: usize)
        ensures
            n == self@.episodes.len(),
    {
        self.episodes.len()
    }

    /// Highest season number present (1 when there are no episodes).
    pub fn seasons(&self) -> (n: u32)
        ensures
            n == highest_season(self@.episodes),
    {
        let mut best: u32 = 1;
        let mut i: usize = 0;
        while i < self.episodes.len()
            invariant
                i <= self.episodes.len(),
                best == highest_season(self@.episodes.take(i as int)),
            decreases self.episodes.len() - i,
        {
            let ghost prefix = self@.episodes.take(i as int + 1);
            assert(prefix.drop_last() =~= self@.episodes.take(i as int));
            let s = self.episodes[i].season;
            if i == 0 || s > best {
                best = s;
            }
            i = i + 1;
        }
        assert(self@.episodes.take(i as int) =~= self@.episodes);
        best
    }

    /// The next episode the user should watch: the one numerically after the
    /// last watched episode within the same season. Returns `(season, number)`.
    pub fn next_up(&self) -> (r: (u32, u32))
        requires
            self.last_watched.number < u32::MAX,
        ensures
            r == (self.last_watched.season, (self.last_watched.number + 1) as u32),
    {
        (self.last_watched.season, self.last_watched.number + 1)
    }

    /// `S01E06` tag for the next episode to watch.
    pub fn next_up_tag(&self) -> (s: String)
        requires
            self.last_watched.number < u32::MAX,
        ensures
            s@ == tag_text(self.last_watched.season, (self.last_watched.number + 1) as u32),
    {
        let (s, e) = self.next_up();
        tag_string(s, e)
    }

    /// Whether the suggested next episode already exists in the user's library.
    pub fn next_available(&self) -> (b: bool)
        requires
            self.last_watched.number < u32::MAX,
        ensures
            b == has_episode(
                self@.episodes,
                self.last_watched.season,
                (self.last_watched.number + 1) as u32,
            ),
    {
        let (s, e) = self.next_up();
        let mut i: usize = 0;
        while i < self.episodes.len()
            invariant
                i <= self.episodes.len(),
                !has_episode(self@.episodes.take(i as int), s, e),
                s == self.last_watched.season,
                e == (self.last_watched.number + 1) as u32,
            decreases self.episodes.len() - i,
        {
            if self.episodes[i].season == s && self.episodes[i].number == e {
                assert(self@.episodes[i as int].season == s && self@.episodes[i as int].number == e);
                assert(has_episode(self@.episodes, s, e));
                return true;
            }
            proof {
                let next = self@.episodes.take(i as int + 1);
                if has_episode(next, s, e) {
                    let j = choose|j: int|
                        0 <= j < next.len() && next[j].season == s && next[j].number == e;
                    if j < i {
                        assert(self@.episodes.take(i as int)[j] == next[j]);
                    }
                }
            }
            i = i + 1;
        }
        assert(self@.episodes.take(i as int) =~= self@.episodes);
        false
    }

    /// Date portion (`YYYY-MM-DD`) of the last watch, for display: the
    /// visit time up to its first `'T'`.
    pub fn last_watched_date(&self) -> (s: String)
        ensures
            s@ == date_part(self.last_watched.visited@),
    {
        date_of(self.last_watched.visited.as_str())
    }

    /// Episodes seen in the last-watched season, and the highest episode
    /// number seen there (at least 1): the two numbers season progress is
    /// computed from.
    pub fn season_counts(&self) -> (r: (usize, u32))
        ensures
            r.0 == in_season(self@.episodes, self.last_watched.season).len(),
            r.1 == highest_number(in_season(self@.episodes, self.last_watched.season)),
    {
        let season = self.last_watched.season;
        let mut count: usize = 0;
        let mut best: u32 = 1;
        let mut i: usize = 0;
        while i < self.episodes.len()
            invariant
                i <= self.episodes.len(),
                season == self.last_watched.season,
                count == in_season(self@.episodes.take(i as int), season).len(),
                best == highest_number(in_season(self@.episodes.take(i as int), season)),
                count <= i,
            decreases self.episodes.len() - i,
        {
            let ghost prefix = self@.episodes.take(i as int + 1);
            assert(prefix.drop_last() =~= self@.episodes.take(i as int));
            let e = &self.episodes[i];
            assert(prefix.last() == e@);
            assert(in_season(prefix, season) == if e.season == season {
                in_season(self@.episodes.take(i as int), season).push(e@)
            } else {
                in_season(self@.episodes.take(i as int), season)
            }) by {
                reveal_with_fuel(Seq::filter, 1);
            }
            if e.season == season {
                count = count + 1;
                if e.number > best {
                    best = e.number;
                }
            }
            proof {
                if e.season == season {
                    assert(in_season(prefix, season).drop_last()
                        =~= in_season(self@.episodes.take(i as int), season));
                }
            }
            assert(count == in_season(prefix, season).len());
            assert(best == highest_number(in_season(prefix, season)));
            i = i + 1;
        }
        assert(self@.episodes.take(i as int) =~= self@.episodes);
        (count, best)
    }
}

/// Result of a full scan.
pub struct Scan {
    pub series: Vec<Series>,
    pub source: String,
    pub total_files_seen: usize,
}

/// The season count is the highest season present: no episode has a later
/// season, some episode has exactly that season, and a series without
/// episodes counts as one season.
pub proof fn lemma_seasons_law(eps: Seq<EpisodeView>)
    ensures
        eps.len() == 0 ==> highest_season(eps) == 1,
        forall|k: int| 0 <= k < eps.len() ==> (#[trigger] eps[k]).season <= highest_season(eps),
        eps.len() > 0 ==> exists|k: int| 0 <= k < eps.len() && (#[trigger] eps[k]).season == highest_season(eps),
    decreases eps.len(),
{
    if eps.len() > 1 {
        let rest = eps.drop_last();
        lemma_seasons_law(rest);
        assert forall|k: int| 0 <= k < eps.len() implies (#[trigger] eps[k]).season <= highest_season(eps) by {
            if k < eps.len() - 1 {
                assert(eps[k] == rest[k]);
            }
        }
        if eps.last().season <= highest_season(rest) {
            let k = choose|k: int| 0 <= k < rest.len() && (#[trigger] rest[k]).season == highest_season(rest);
            assert(eps[k] == rest[k]);
        } else {
            assert(eps[eps.len() - 1].season == highest_season(eps));
        }
    } else if eps.len() == 1 {
        assert(eps[0].season == highest_season(eps));
    }
}

/// The highest episode number of a list: at least 1, no episode has a
/// higher number, and unless it is 1 some episode has exactly that number.
pub proof fn lemma_highest_number_law(eps: Seq<EpisodeView>)
    ensures
        highest_number(eps) >= 1,
        forall|k: int| 0 <= k < eps.len() ==> (#[trigger] eps[k]).number <= highest_number(eps),
        highest_number(eps) == 1 || exists|k: int| 0 <= k < eps.len() && (#[trigger] eps[k]).number == highest_number(eps),
    decreases eps.len(),
{
    if eps.len() > 0 {
        let rest = eps.drop_last();
        lemma_highest_number_law(rest);
        assert forall|k: int| 0 <= k < eps.len() implies (#[trigger] eps[k]).number <= highest_number(eps) by {
            if k < eps.len() - 1 {
                assert(eps[k] == rest[k]);
            }
        }
        if eps.last().number > highest_number(rest) {
            assert(eps[eps.len() - 1].number == highest_number(eps));
        } else if highest_number(rest) != 1 {
            let k = choose|k: int| 0 <= k < rest.len() && (#[trigger] rest[k]).number == highest_number(rest);
            assert(eps[k] == rest[k]);
        }
    }
}

/// Season progress is counted against the highest episode number seen in the
/// last-watched season: every episode of that season has a number no higher
/// than the second count, the count is at least 1, and unless it is 1 it is
/// the number of an episode of that season; the first count is the number of
/// episodes of that season, so it counts only episodes of that season and
/// is at most the number of episodes.
pub proof fn lemma_season_counts_law(s: SeriesView)
    ensures
        forall|k: int|
            0 <= k < s.episodes.len() && (#[trigger] s.episodes[k]).season == s.last_watched.season
                ==> s.episodes[k].number <= highest_number(in_season(s.episodes, s.last_watched.season)),
        highest_number(in_season(s.episodes, s.last_watched.season)) >= 1,
        highest_number(in_season(s.episodes, s.last_watched.season)) == 1 || exists|k: int|
            0 <= k < s.episodes.len() && (#[trigger] s.episodes[k]).season == s.last_watched.season
                && s.episodes[k].number == highest_number(in_season(s.episodes, s.last_watched.season)),
        in_season(s.episodes, s.last_watched.season).len() <= s.episodes.len(),
        forall|j: int|
            0 <= j < in_season(s.episodes, s.last_watched.season).len() ==> (#[trigger] in_season(
                s.episodes,
                s.last_watched.season,
            )[j]).season == s.last_watched.season,
{
    let season = s.last_watched.season;
    let pred = |e: EpisodeView| e.season == season;
    let f = in_season(s.episodes, season);
    s.episodes.filter_lemma(pred);
    assert(f == s.episodes.filter(pred));
    lemma_highest_number_law(f);
    assert forall|k: int|
        0 <= k < s.episodes.len() && (#[trigger] s.episodes[k]).season == season implies s.episodes[k].number
        <= highest_number(f) by {
        assert(pred(s.episodes[k]));
        assert(f.contains(s.episodes[k]));
        let j = choose|j: int| 0 <= j < f.len() && f[j] == s.episodes[k];
    }
    if highest_number(f) != 1 {
        let j = choose|j: int| 0 <= j < f.len() && (#[trigger] f[j]).number == highest_number(f);
        assert(pred(f[j]));
        assert(f.contains(f[j]));
        s.episodes.lemma_filter_contains_rev(pred, f[j]);
        let k = choose|k: int| 0 <= k < s.episodes.len() && s.episodes[k] == f[j];
        assert(s.episodes[k].season == season);
    }
    assert forall|j: int| 0 <= j < f.len() implies (#[trigger] f[j]).season == season by {
        assert(pred(f[j]));
    }
}

/// The next episode is available exactly when the library holds an episode
/// with the last watched episode's season and the number after it; an
/// episode of another season, whatever its number, does not count.
pub proof fn lemma_next_available_law(s: SeriesView)
    requires
        s.last_watched.number < u32::MAX,
    ensures
        has_episode(s.episodes, s.last_watched.season, (s.last_watched.number + 1) as u32) <==> exists|k: int|
            0 <= k < s.episodes.len() && (#[trigger] s.episodes[k]).season == s.last_watched.season
                && s.episodes[k].number == s.last_watched.number + 1,
        (forall|k: int| 0 <= k < s.episodes.len() ==> (#[trigger] s.episodes[k]).season != s.last_watched.season)
            ==> !has_episode(s.episodes, s.last_watched.season, (s.last_watched.number + 1) as u32),
{
    let n = (s.last_watched.number + 1) as u32;
    if has_episode(s.episodes, s.last_watched.season, n) {
        let k = choose|k: int|
            0 <= k < s.episodes.len() && s.episodes[k].season == s.last_watched.season && s.episodes[k].number == n;
        assert(s.episodes[k].season == s.last_watched.season);
    }
    if exists|k: int|
        0 <= k < s.episodes.len() && (#[trigger] s.episodes[k]).season == s.last_watched.season
            && s.episodes[k].number == s.last_watched.number + 1 {
        let k = choose|k: int|
            0 <= k < s.episodes.len() && (#[trigger] s.episodes[k]).season == s.last_watched.season
                && s.episodes[k].number == s.last_watched.number + 1;
        assert(s.episodes[k].number == n);
    }
}

/// The episodes of a season, episode by episode: none in an empty list, and
/// adding an episode adds it exactly when it is of that season, so the first
/// count of season progress is the number of episodes of the season.
pub proof fn lemma_in_season_law(eps: Seq<EpisodeView>, e: EpisodeView, season: u32)
    ensures
        in_season(Seq::<EpisodeView>::empty(), season).len() == 0,
        in_season(eps.push(e), season) == if e.season == season {
            in_season(eps, season).push(e)
        } else {
            in_season(eps, season)
        },
{
    reveal_with_fuel(Seq::filter, 1);
    assert(eps.push(e).drop_last() =~= eps);
}

} // verus!
