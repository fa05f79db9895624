//! Grouping flagged episodes into series: case-insensitive series names,
//! one copy per (season, episode) keeping the most recently visited, and
//! the final ordering of series and episodes.
use vstd::prelude::*;
use crate::series::{Episode, EpisodeView, Series, SeriesView, episodes_view};
use crate::text::{lowercase, text_less, text_greater, to_lowercase};
use crate::properties::{groups_ok, lemma_finalize_view, lemma_well_grouped, names_distinct, newest_first,
    series_well_formed, well_grouped};

verus! {

/// Index of the first element of `s` that satisfies `p`, or -1.
pub open spec fn first_index<A>(s: Seq<A>, p: spec_fn(A) -> bool) -> int
    decreases s.len(),
{
    if s.len() == 0 {
        -1
    } else {
        let j = first_index(s.drop_last(), p);
        if j >= 0 {
            j
        } else if p(s.last()) {
            s.len() - 1
        } else {
            -1
        }
    }
}

/// `first_index` finds the first match, and -1 exactly when none matches.
pub proof fn lemma_first_index<A>(s: Seq<A>, p: spec_fn(A) -> bool)
    ensures
        -1 <= first_index(s, p) < s.len(),
        first_index(s, p) >= 0 ==> p(s[first_index(s, p)]),
        forall|k: int| 0 <= k < first_index(s, p) ==> !p(#[trigger] s[k]),
        first_index(s, p) == -1 ==> forall|k: int| 0 <= k < s.len() ==> !p(#[trigger] s[k]),
    decreases s.len(),
{
    if s.len() > 0 {
        lemma_first_index(s.drop_last(), p);
        assert forall|k: int| 0 <= k < s.len() - 1 implies s.drop_last()[k] == #[trigger] s[k] by {}
    }
}

/// The first match is the one at `j` when `j` matches and nothing before it does.
pub proof fn lemma_first_index_at<A>(s: Seq<A>, p: spec_fn(A) -> bool, j: int)
    requires
        0 <= j < s.len(),
        p(s[j]),
        forall|k: int| 0 <= k < j ==> !p(#[trigger] s[k]),
    ensures
        first_index(s, p) == j,
{
    lemma_first_index(s, p);
    let r = first_index(s, p);
    if r == -1 {
        assert(!p(s[j]));
    } else if r < j {
        assert(!p(s[r]));
    } else if r > j {
        assert(!p(s[j]));
    }
}

/// Where an element goes in an ordered sequence: before the first element
/// that `p` selects, or at the end.
pub open spec fn insert_position<A>(s: Seq<A>, p: spec_fn(A) -> bool) -> int {
    let i = first_index(s, p);
    if i < 0 { s.len() as int } else { i }
}

/// Episodes of one show collected so far, with the lowercased name as key.
pub struct Group {
    pub key: String,
    pub name: String,
    pub episodes: Vec<Episode>,
}

/// The mathematical value of a [`Group`].
pub struct GroupView {
    pub key: Seq<char>,
    pub name: Seq<char>,
    pub episodes: Seq<EpisodeView>,
}

impl View for Group {
    type V = GroupView;

    open spec fn view(&self) -> GroupView {
        GroupView { key: self.key@, name: self.name@, episodes: episodes_view(self.episodes@) }
    }
}

/// The views of a sequence of groups.
pub open spec fn groups_view(gs: Seq<Group>) -> Seq<GroupView> {
    gs.map_values(|g: Group| g@)
}

/// Whether an episode has the given season and number.
pub open spec fn in_slot(season: u32, number: u32) -> spec_fn(EpisodeView) -> bool {
    |e: EpisodeView| e.season == season && e.number == number
}

/// Adds `ep` to the episodes of a show: a new (season, episode) is appended;
/// an existing one is replaced only by a more recently visited copy.
pub open spec fn add_episode(eps: Seq<EpisodeView>, ep: EpisodeView) -> Seq<EpisodeView> {
    let j = first_index(eps, in_slot(ep.season, ep.number));
    if j < 0 {
        eps.push(ep)
    } else if text_less(eps[j].visited, ep.visited) {
        eps.update(j, ep)
    } else {
        eps
    }
}

/// Whether a group has the given key.
pub open spec fn has_key(key: Seq<char>) -> spec_fn(GroupView) -> bool {
    |g: GroupView| g.key == key
}

/// Adds `ep` under the show called `name`: shows are told apart by their
/// lowercased names, and a new show keeps the name it was first seen with.
pub open spec fn add_to_groups(gs: Seq<GroupView>, name: Seq<char>, ep: EpisodeView) -> Seq<GroupView> {
    let key = lowercase(name);
    let i = first_index(gs, has_key(key));
    if i < 0 {
        gs.push(GroupView { key, name, episodes: seq![ep] })
    } else {
        gs.update(i, GroupView { episodes: add_episode(gs[i].episodes, ep), ..gs[i] })
    }
}

fn add_episode_to(eps: &mut Vec<Episode>, ep: Episode)
    ensures
        episodes_view(final(eps)@) == add_episode(episodes_view(old(eps)@), ep@),
        final(eps).len() >= old(eps).len(),
{
    let ghost view = episodes_view(eps@);
    let mut j: usize = 0;
    while j < eps.len()
        invariant
            j <= eps.len(),
            view == episodes_view(eps@),
            view == episodes_view(old(eps)@),
            forall|k: int| 0 <= k < j ==> !(#[trigger] in_slot(ep.season, ep.number)(view[k])),
        decreases eps.len() - j,
    {
        assert(view[j as int] == eps@[j as int]@);
        if eps[j].season == ep.season && eps[j].number == ep.number {
            proof {
                lemma_first_index_at(view, in_slot(ep.season, ep.number), j as int);
            }
            if text_greater(ep.visited.as_str(), eps[j].visited.as_str()) {
                eps[j] = ep;
                assert(episodes_view(eps@) =~= view.update(j as int, ep@));
            }
            return;
        }
        j = j + 1;
    }
    proof {
        lemma_first_index(view, in_slot(ep.season, ep.number));
        if first_index(view, in_slot(ep.season, ep.number)) >= 0 {
            let r = first_index(view, in_slot(ep.season, ep.number));
            assert(!in_slot(ep.season, ep.number)(view[r]));
        }
    }
    eps.push(ep);
    assert(episodes_view(eps@) =~= view.push(ep@));
}

/// Every group holds at least one episode.
pub open spec fn all_nonempty(gs: Seq<Group>) -> bool {
    forall|i: int| 0 <= i < gs.len() ==> (#[trigger] gs[i]).episodes.len() > 0
}

/// Insert an episode under its series, deduping case-insensitively and keeping
/// the most recently visited copy of any given (season, episode).
pub fn insert_ep(groups: &mut Vec<Group>, name: String, ep: Episode)
    ensures
        groups_view(final(groups)@) == add_to_groups(groups_view(old(groups)@), name@, ep@),
        all_nonempty(old(groups)@) ==> all_nonempty(final(groups)@),
{
    let key = to_lowercase(name.as_str());
    let ghost view = groups_view(groups@);
    let mut i: usize = 0;
    while i < groups.len()
        invariant
            i <= groups.len(),
            view == groups_view(groups@),
            view == groups_view(old(groups)@),
            key@ == lowercase(name@),
            forall|k: int| 0 <= k < i ==> !(#[trigger] has_key(key@)(view[k])),
            groups@ == old(groups)@,
        decreases groups.len() - i,
    {
        assert(view[i as int] == groups@[i as int]@);
        if groups[i].key == key {
            proof {
                lemma_first_index_at(view, has_key(key@), i as int);
            }
            add_episode_to(&mut groups[i].episodes, ep);
            assert(groups_view(groups@) =~= view.update(
                i as int,
                GroupView { episodes: add_episode(view[i as int].episodes, ep@), ..view[i as int] },
            ));
            return;
        }
        i = i + 1;
    }
    proof {
        lemma_first_index(view, has_key(key@));
        if first_index(view, has_key(key@)) >= 0 {
            let r = first_index(view, has_key(key@));
            assert(!has_key(key@)(view[r]));
        }
    }
    let mut episodes: Vec<Episode> = Vec::new();
    episodes.push(ep);
    groups.push(Group { key, name, episodes });
    assert(episodes_view(episodes@) =~= seq![ep@]);
    assert(groups_view(groups@) =~= view.push(GroupView { key: lowercase(name@), name: name@, episodes: seq![ep@] }));
}

/// Position `k` is where an element goes when `k` is the first place `p`
/// selects (or the end, when it selects none).
pub proof fn lemma_insert_position<A>(s: Seq<A>, p: spec_fn(A) -> bool, k: int)
    requires
        0 <= k <= s.len(),
        k < s.len() ==> p(s[k]),
        forall|j: int| 0 <= j < k ==> !p(#[trigger] s[j]),
    ensures
        insert_position(s, p) == k,
{
    lemma_first_index(s, p);
    if k < s.len() {
        lemma_first_index_at(s, p, k);
    } else if first_index(s, p) >= 0 {
        assert(!p(s[first_index(s, p)]));
    }
}

/// Episode order: by season, then by number.
pub open spec fn slot_less(a: EpisodeView, b: EpisodeView) -> bool {
    a.season < b.season || (a.season == b.season && a.number < b.number)
}

/// Selects the episodes that come after `x` in episode order.
pub open spec fn after_slot_of(x: EpisodeView) -> spec_fn(EpisodeView) -> bool {
    |y: EpisodeView| slot_less(x, y)
}

/// Inserts `x` into an episode list before the first episode that comes after it.
pub open spec fn insert_by_slot(sorted: Seq<EpisodeView>, x: EpisodeView) -> Seq<EpisodeView> {
    sorted.insert(insert_position(sorted, after_slot_of(x)), x)
}

/// Episodes sorted by season then number (insertion sort).
pub open spec fn sort_by_slot(eps: Seq<EpisodeView>) -> Seq<EpisodeView>
    decreases eps.len(),
{
    if eps.len() == 0 {
        eps
    } else {
        insert_by_slot(sort_by_slot(eps.drop_last()), eps.last())
    }
}

/// Index of the most recently visited episode; among equally recent ones,
/// the last.
pub open spec fn latest_index(eps: Seq<EpisodeView>) -> int
    decreases eps.len(),
{
    if eps.len() <= 1 {
        0
    } else {
        let j = latest_index(eps.drop_last());
        if text_less(eps.last().visited, eps[j].visited) {
            j
        } else {
            eps.len() - 1
        }
    }
}

/// The series a group becomes: its episodes in order, and the most recently
/// visited one as the last watched.
pub open spec fn finish_group(g: GroupView) -> SeriesView {
    let eps = sort_by_slot(g.episodes);
    SeriesView { name: g.name, episodes: eps, last_watched: eps[latest_index(eps)] }
}

/// Selects the series last watched before `x` was.
pub open spec fn older_than(x: SeriesView) -> spec_fn(SeriesView) -> bool {
    |y: SeriesView| text_less(y.last_watched.visited, x.last_watched.visited)
}

/// Inserts `x` before the first series last watched before it.
pub open spec fn insert_by_recency(sorted: Seq<SeriesView>, x: SeriesView) -> Seq<SeriesView> {
    sorted.insert(insert_position(sorted, older_than(x)), x)
}

/// Series ordered newest activity first; equally recent ones keep their order.
pub open spec fn order_by_recency(ss: Seq<SeriesView>) -> Seq<SeriesView>
    decreases ss.len(),
{
    if ss.len() == 0 {
        ss
    } else {
        insert_by_recency(order_by_recency(ss.drop_last()), ss.last())
    }
}

/// The series of a set of groups, newest activity first.
pub open spec fn finalize_view(gs: Seq<GroupView>) -> Seq<SeriesView> {
    order_by_recency(gs.map_values(|g: GroupView| finish_group(g)))
}

/// The views of a sequence of series.
pub open spec fn series_view(ss: Seq<Series>) -> Seq<SeriesView> {
    ss.map_values(|s: Series| s@)
}

fn sort_episodes(eps: &Vec<Episode>) -> (r: Vec<Episode>)
    ensures
        episodes_view(r@) == sort_by_slot(episodes_view(eps@)),
{
    let ghost input = episodes_view(eps@);
    let mut sorted: Vec<Episode> = Vec::new();
    let mut i: usize = 0;
    assert(input.take(0) =~= Seq::<EpisodeView>::empty());
    while i < eps.len()
        invariant
            i <= eps.len(),
            input == episodes_view(eps@),
            episodes_view(sorted@) == sort_by_slot(input.take(i as int)),
        decreases eps.len() - i,
    {
        let x = eps[i].clone();
        let ghost sv = episodes_view(sorted@);
        let mut p: usize = 0;
        while p < sorted.len() && !(x.season < sorted[p].season
            || (x.season == sorted[p].season && x.number < sorted[p].number))
            invariant
                p <= sorted.len(),
                sv == episodes_view(sorted@),
                forall|k: int| 0 <= k < p ==> !(#[trigger] after_slot_of(x@)(sv[k])),
            decreases sorted.len() - p,
        {
            assert(sv[p as int] == sorted@[p as int]@);
            p = p + 1;
        }
        proof {
            if p < sorted.len() {
                assert(sv[p as int] == sorted@[p as int]@);
            }
            lemma_insert_position(sv, after_slot_of(x@), p as int);
            assert(input.take(i as int + 1).drop_last() =~= input.take(i as int));
            assert(input.take(i as int + 1).last() == x@);
        }
        sorted.insert(p, x);
        assert(episodes_view(sorted@) =~= sv.insert(p as int, x@));
        i = i + 1;
    }
    assert(input.take(i as int) =~= input);
    sorted
}

fn latest_of(eps: &Vec<Episode>) -> (j: usize)
    requires
        eps.len() > 0,
    ensures
        j == latest_index(episodes_view(eps@)),
        j < eps.len(),
{
    let ghost v = episodes_view(eps@);
    let mut best: usize = 0;
    let mut i: usize = 1;
    while i < eps.len()
        invariant
            1 <= i <= eps.len(),
            best < i,
            v == episodes_view(eps@),
            best == latest_index(v.take(i as int)),
        decreases eps.len() - i,
    {
        let ghost prefix = v.take(i as int + 1);
        assert(prefix.drop_last() =~= v.take(i as int));
        assert(v.take(i as int)[best as int] == eps@[best as int]@);
        assert(prefix.last() == eps@[i as int]@);
        if !text_greater(eps[best].visited.as_str(), eps[i].visited.as_str()) {
            best = i;
        }
        i = i + 1;
    }
    assert(v.take(i as int) =~= v);
    best
}

fn finish(g: &Group) -> (s: Series)
    requires
        g.episodes.len() > 0,
    ensures
        s@ == finish_group(g@),
{
    let episodes = sort_episodes(&g.episodes);
    proof {
        lemma_sort_by_slot_len(episodes_view(g.episodes@));
    }
    let j = latest_of(&episodes);
    let last_watched = episodes[j].clone();
    Series { name: g.name.clone(), episodes, last_watched }
}

/// Sorting keeps the number of episodes.
pub proof fn lemma_sort_by_slot_len(eps: Seq<EpisodeView>)
    ensures
        sort_by_slot(eps).len() == eps.len(),
    decreases eps.len(),
{
    if eps.len() > 0 {
        lemma_sort_by_slot_len(eps.drop_last());
        lemma_first_index(sort_by_slot(eps.drop_last()), after_slot_of(eps.last()));
    }
}

/// Collapse the accumulator into sorted `Series`, newest activity first.
pub fn finalize(groups: Vec<Group>) -> (r: Vec<Series>)
    requires
        all_nonempty(groups@),
    ensures
        series_view(r@) == finalize_view(groups_view(groups@)),
        groups_ok(groups_view(groups@)) ==> {
            &&& newest_first(series_view(r@))
            &&& names_distinct(series_view(r@))
            &&& forall|i: int| 0 <= i < r.len() ==> #[trigger] series_well_formed(series_view(r@)[i])
        },
{
    proof {
        if groups_ok(groups_view(groups@)) {
            lemma_finalize_view(groups_view(groups@));
        }
    }
    let ghost finished = groups_view(groups@).map_values(|g: GroupView| finish_group(g));
    let mut out: Vec<Series> = Vec::new();
    let mut i: usize = 0;
    assert(finished.take(0) =~= Seq::<SeriesView>::empty());
    while i < groups.len()
        invariant
            i <= groups.len(),
            finished == groups_view(groups@).map_values(|g: GroupView| finish_group(g)),
            all_nonempty(groups@),
            series_view(out@) == order_by_recency(finished.take(i as int)),
        decreases groups.len() - i,
    {
        let x = finish(&groups[i]);
        let ghost sv = series_view(out@);
        let mut p: usize = 0;
        while p < out.len()
            && !text_greater(x.last_watched.visited.as_str(), out[p].last_watched.visited.as_str())
            invariant
                p <= out.len(),
                sv == series_view(out@),
                forall|k: int| 0 <= k < p ==> !(#[trigger] older_than(x@)(sv[k])),
            decreases out.len() - p,
        {
            assert(sv[p as int] == out@[p as int]@);
            p = p + 1;
        }
        proof {
            if p < out.len() {
                assert(sv[p as int] == out@[p as int]@);
            }
            lemma_insert_position(sv, older_than(x@), p as int);
            assert(finished.take(i as int + 1).drop_last() =~= finished.take(i as int));
            assert(finished.take(i as int + 1).last() == x@);
        }
        out.insert(p, x);
        assert(series_view(out@) =~= sv.insert(p as int, x@));
        i = i + 1;
    }
    assert(finished.take(i as int) =~= finished);
    out
}

/// The (series name, episode) pairs of one series, in order.
pub open spec fn items_of(s: SeriesView) -> Seq<(Seq<char>, EpisodeView)> {
    s.episodes.map_values(|e: EpisodeView| (s.name, e))
}

/// The (series name, episode) pairs of a list of series, in order.
pub open spec fn series_items(ss: Seq<SeriesView>) -> Seq<(Seq<char>, EpisodeView)>
    decreases ss.len(),
{
    if ss.len() == 0 {
        Seq::empty()
    } else {
        series_items(ss.drop_last()) + items_of(ss.last())
    }
}

/// Adds named episodes one after the other.
pub open spec fn add_items(gs: Seq<GroupView>, items: Seq<(Seq<char>, EpisodeView)>) -> Seq<GroupView>
    decreases items.len(),
{
    if items.len() == 0 {
        gs
    } else {
        add_to_groups(add_items(gs, items.drop_last()), items.last().0, items.last().1)
    }
}

/// The groups formed by named episodes, in the order they come.
pub open spec fn group_items(items: Seq<(Seq<char>, EpisodeView)>) -> Seq<GroupView> {
    add_items(Seq::empty(), items)
}

/// Adding two runs of items is adding their concatenation.
pub proof fn lemma_add_items_concat(
    gs: Seq<GroupView>,
    a: Seq<(Seq<char>, EpisodeView)>,
    b: Seq<(Seq<char>, EpisodeView)>,
)
    ensures
        add_items(gs, a + b) == add_items(add_items(gs, a), b),
    decreases b.len(),
{
    if b.len() == 0 {
        assert(a + b =~= a);
    } else {
        assert((a + b).drop_last() =~= a + b.drop_last());
        lemma_add_items_concat(gs, a, b.drop_last());
    }
}

/// The items of two lists of series are the items of each, in turn.
pub proof fn lemma_series_items_concat(a: Seq<SeriesView>, b: Seq<SeriesView>)
    ensures
        series_items(a + b) == series_items(a) + series_items(b),
    decreases b.len(),
{
    if b.len() == 0 {
        assert(a + b =~= a);
        assert(series_items(b) =~= Seq::<(Seq<char>, EpisodeView)>::empty());
        assert(series_items(a) + series_items(b) =~= series_items(a));
    } else {
        assert((a + b).drop_last() =~= a + b.drop_last());
        lemma_series_items_concat(a, b.drop_last());
        assert(series_items(a + b) =~= series_items(a) + series_items(b));
    }
}

fn add_series(groups: &mut Vec<Group>, s: &Series)
    requires
        all_nonempty(old(groups)@),
    ensures
        groups_view(final(groups)@) == add_items(groups_view(old(groups)@), items_of(s@)),
        all_nonempty(final(groups)@),
{
    let ghost start = groups_view(groups@);
    let ghost items = items_of(s@);
    let mut j: usize = 0;
    assert(items.take(0) =~= Seq::<(Seq<char>, EpisodeView)>::empty());
    while j < s.episodes.len()
        invariant
            j <= s.episodes.len(),
            items == items_of(s@),
            groups_view(groups@) == add_items(start, items.take(j as int)),
            all_nonempty(groups@),
        decreases s.episodes.len() - j,
    {
        let ep = s.episodes[j].clone();
        proof {
            assert(items.take(j as int + 1).drop_last() =~= items.take(j as int));
            assert(items.take(j as int + 1).last() == (s.name@, ep@));
        }
        insert_ep(groups, s.name.clone(), ep);
        j = j + 1;
    }
    assert(items.take(j as int) =~= items);
}

fn add_all_series(groups: &mut Vec<Group>, ss: &Vec<Series>)
    requires
        all_nonempty(old(groups)@),
    ensures
        groups_view(final(groups)@) == add_items(groups_view(old(groups)@), series_items(series_view(ss@))),
        all_nonempty(final(groups)@),
{
    let ghost start = groups_view(groups@);
    let ghost all = series_view(ss@);
    let mut i: usize = 0;
    assert(all.take(0) =~= Seq::<SeriesView>::empty());
    while i < ss.len()
        invariant
            i <= ss.len(),
            all == series_view(ss@),
            groups_view(groups@) == add_items(start, series_items(all.take(i as int))),
            all_nonempty(groups@),
        decreases ss.len() - i,
    {
        proof {
            assert(all.take(i as int + 1).drop_last() =~= all.take(i as int));
            assert(all.take(i as int + 1).last() == ss@[i as int]@);
            lemma_add_items_concat(start, series_items(all.take(i as int)), items_of(ss@[i as int]@));
        }
        add_series(groups, &ss[i]);
        i = i + 1;
    }
    assert(all.take(i as int) =~= all);
}

/// Merge two scans (e.g. recent + an added folder), deduping by series/episode:
/// the result is what grouping the episodes of `a` and then of `b` gives.
pub fn merge(a: Vec<Series>, b: Vec<Series>) -> (r: Vec<Series>)
    ensures
        series_view(r@) == finalize_view(group_items(series_items(series_view(a@) + series_view(b@)))),
        well_grouped(series_items(series_view(a@) + series_view(b@)), series_view(r@)),
{
    let mut groups: Vec<Group> = Vec::new();
    assert(groups_view(groups@) =~= Seq::<GroupView>::empty());
    add_all_series(&mut groups, &a);
    add_all_series(&mut groups, &b);
    proof {
        lemma_series_items_concat(series_view(a@), series_view(b@));
        lemma_add_items_concat(Seq::empty(), series_items(series_view(a@)), series_items(series_view(b@)));
        lemma_well_grouped(series_items(series_view(a@) + series_view(b@)));
    }
    finalize(groups)
}

} // verus!
