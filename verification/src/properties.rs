//! What every grouping result satisfies: episodes deduplicated and ordered,
//! the last watched episode the most recent one, series newest first with
//! case-insensitively distinct names, and each input episode represented by
//! its most recently visited copy.
use vstd::prelude::*;
use crate::series::{EpisodeView, SeriesView, episode_total};
use crate::text::{lowercase, text_less, lemma_text_less_asymmetric, lemma_text_less_irreflexive,
    lemma_text_less_total, lemma_text_less_transitive};
use crate::grouping::{GroupView, items_of, series_items, lemma_add_items_concat, lemma_series_items_concat, lemma_first_index_at, add_episode, add_to_groups, add_items, group_items, finish_group, finalize_view, in_slot, has_key, first_index, lemma_first_index, insert_position, slot_less, after_slot_of,
    sort_by_slot, latest_index, older_than, order_by_recency, lemma_sort_by_slot_len};

verus! {

/// Two episodes are copies of the same (season, episode).
pub open spec fn same_slot(a: EpisodeView, b: EpisodeView) -> bool {
    a.season == b.season && a.number == b.number
}

/// No (season, episode) occurs twice.
pub open spec fn slots_distinct(eps: Seq<EpisodeView>) -> bool {
    forall|i: int, j: int|
        0 <= i < eps.len() && 0 <= j < eps.len() && i != j ==> !same_slot(#[trigger] eps[i], #[trigger] eps[j])
}

/// Episodes strictly ascending by season, then number.
pub open spec fn slots_ascending(eps: Seq<EpisodeView>) -> bool {
    forall|i: int, j: int| 0 <= i < j < eps.len() ==> slot_less(#[trigger] eps[i], #[trigger] eps[j])
}

/// Insertion sort by (season, number) keeps the episodes and, when no
/// (season, episode) repeats, orders them strictly.
pub proof fn lemma_sort_by_slot(eps: Seq<EpisodeView>)
    ensures
        sort_by_slot(eps).len() == eps.len(),
        forall|e: EpisodeView| sort_by_slot(eps).contains(e) <==> eps.contains(e),
        slots_distinct(eps) ==> slots_ascending(sort_by_slot(eps)),
    decreases eps.len(),
{
    if eps.len() > 0 {
        let rest = eps.drop_last();
        let x = eps.last();
        lemma_sort_by_slot(rest);
        let s = sort_by_slot(rest);
        let pred = after_slot_of(x);
        lemma_first_index(s, pred);
        let p = insert_position(s, pred);
        let r = s.insert(p, x);
        assert(r == sort_by_slot(eps));
        assert(0 <= p <= s.len());
        assert forall|k: int| 0 <= k < p implies !slot_less(x, #[trigger] s[k]) by {
            assert(!pred(s[k]));
        }
        assert forall|e: EpisodeView| r.contains(e) <==> eps.contains(e) by {
            if r.contains(e) {
                let k = choose|k: int| 0 <= k < r.len() && r[k] == e;
                if k < p {
                    assert(s[k] == e);
                    assert(rest.contains(e));
                    let m = choose|m: int| 0 <= m < rest.len() && rest[m] == e;
                    assert(eps[m] == e);
                } else if k > p {
                    assert(s[k - 1] == e);
                    assert(rest.contains(e));
                    let m = choose|m: int| 0 <= m < rest.len() && rest[m] == e;
                    assert(eps[m] == e);
                } else {
                    assert(eps[eps.len() - 1] == e);
                }
            }
            if eps.contains(e) {
                let k = choose|k: int| 0 <= k < eps.len() && eps[k] == e;
                if k < eps.len() - 1 {
                    assert(rest[k] == e);
                    assert(rest.contains(e));
                    assert(s.contains(e));
                    let m = choose|m: int| 0 <= m < s.len() && s[m] == e;
                    if m < p {
                        assert(r[m] == e);
                    } else {
                        assert(r[m + 1] == e);
                    }
                } else {
                    assert(r[p] == e);
                }
            }
        }
        if slots_distinct(eps) {
            assert(slots_distinct(rest)) by {
                assert forall|i: int, j: int|
                    0 <= i < rest.len() && 0 <= j < rest.len() && i != j implies !same_slot(
                    #[trigger] rest[i],
                    #[trigger] rest[j],
                ) by {
                    assert(rest[i] == eps[i] && rest[j] == eps[j]);
                }
            }
            assert forall|k: int| 0 <= k < s.len() implies !same_slot(x, #[trigger] s[k]) by {
                assert(s.contains(s[k]));
                assert(rest.contains(s[k]));
                let m = choose|m: int| 0 <= m < rest.len() && rest[m] == s[k];
                assert(eps[m] == rest[m]);
                assert(eps[eps.len() - 1] == x);
            }
            assert forall|i: int, j: int| 0 <= i < j < r.len() implies slot_less(
                #[trigger] r[i],
                #[trigger] r[j],
            ) by {
                if j < p {
                    assert(r[i] == s[i] && r[j] == s[j]);
                } else if j == p {
                    assert(r[i] == s[i]);
                    assert(!slot_less(x, s[i]) && !same_slot(x, s[i]));
                } else if i < p {
                    assert(r[i] == s[i] && r[j] == s[j - 1]);
                } else if i == p {
                    assert(r[j] == s[j - 1]);
                    assert(pred(s[p]));
                    if j - 1 > p {
                        assert(slot_less(s[p], s[j - 1]));
                    }
                } else {
                    assert(r[i] == s[i - 1] && r[j] == s[j - 1]);
                }
            }
        }
    }
}

/// The episode `latest_index` picks is one no other episode was visited after.
pub proof fn lemma_latest_index(eps: Seq<EpisodeView>)
    requires
        eps.len() > 0,
    ensures
        0 <= latest_index(eps) < eps.len(),
        forall|k: int| 0 <= k < eps.len() ==> !text_less(eps[latest_index(eps)].visited, #[trigger] eps[k].visited),
    decreases eps.len(),
{
    if eps.len() == 1 {
        lemma_text_less_irreflexive(eps[0].visited);
    } else {
        let rest = eps.drop_last();
        lemma_latest_index(rest);
        let j = latest_index(rest);
        let last = eps.last();
        assert(eps[j] == rest[j]);
        if text_less(last.visited, eps[j].visited) {
            assert forall|k: int| 0 <= k < eps.len() implies !text_less(eps[j].visited, #[trigger] eps[k].visited) by {
                if k < eps.len() - 1 {
                    assert(eps[k] == rest[k]);
                } else {
                    lemma_text_less_asymmetric(last.visited, eps[j].visited);
                }
            }
        } else {
            lemma_text_less_irreflexive(last.visited);
            assert forall|k: int| 0 <= k < eps.len() implies !text_less(last.visited, #[trigger] eps[k].visited) by {
                if k < eps.len() - 1 {
                    assert(eps[k] == rest[k]);
                    assert(!text_less(eps[j].visited, eps[k].visited));
                    lemma_text_less_total(last.visited, eps[j].visited);
                    if text_less(last.visited, eps[k].visited) {
                        if eps[j].visited == last.visited {
                        } else {
                            lemma_text_less_transitive(eps[j].visited, last.visited, eps[k].visited);
                        }
                    }
                }
            }
        }
    }
}

/// Series ordered newest activity first.
pub open spec fn newest_first(ss: Seq<SeriesView>) -> bool {
    forall|i: int, j: int|
        0 <= i < j < ss.len() ==> !text_less(
            (#[trigger] ss[i]).last_watched.visited,
            (#[trigger] ss[j]).last_watched.visited,
        )
}

/// No two series have the same name up to case.
pub open spec fn names_distinct(ss: Seq<SeriesView>) -> bool {
    forall|i: int, j: int|
        0 <= i < ss.len() && 0 <= j < ss.len() && i != j ==> lowercase((#[trigger] ss[i]).name)
            != lowercase((#[trigger] ss[j]).name)
}

/// Ordering by recency keeps the series, puts the newest activity first,
/// and keeps names distinct.
pub proof fn lemma_order_by_recency(ss: Seq<SeriesView>)
    ensures
        order_by_recency(ss).len() == ss.len(),
        forall|x: SeriesView| order_by_recency(ss).contains(x) <==> ss.contains(x),
        newest_first(order_by_recency(ss)),
        names_distinct(ss) ==> names_distinct(order_by_recency(ss)),
    decreases ss.len(),
{
    if ss.len() > 0 {
        let rest = ss.drop_last();
        let x = ss.last();
        lemma_order_by_recency(rest);
        let s = order_by_recency(rest);
        let pred = older_than(x);
        lemma_first_index(s, pred);
        let p = insert_position(s, pred);
        let r = s.insert(p, x);
        assert(r == order_by_recency(ss));
        assert forall|k: int| 0 <= k < p implies !text_less(
            (#[trigger] s[k]).last_watched.visited,
            x.last_watched.visited,
        ) by {
            assert(!pred(s[k]));
        }
        assert forall|e: SeriesView| r.contains(e) <==> ss.contains(e) by {
            if r.contains(e) {
                let k = choose|k: int| 0 <= k < r.len() && r[k] == e;
                if k != p {
                    let k2 = if k < p { k } else { k - 1 };
                    assert(s[k2] == e);
                    assert(s.contains(e));
                    assert(rest.contains(e));
                    let m = choose|m: int| 0 <= m < rest.len() && rest[m] == e;
                    assert(ss[m] == rest[m]);
                } else {
                    assert(ss[ss.len() - 1] == e);
                }
            }
            if ss.contains(e) {
                let k = choose|k: int| 0 <= k < ss.len() && ss[k] == e;
                if k < ss.len() - 1 {
                    assert(rest[k] == e);
                    assert(rest.contains(e));
                    assert(s.contains(e));
                    let m = choose|m: int| 0 <= m < s.len() && s[m] == e;
                    if m < p {
                        assert(r[m] == e);
                    } else {
                        assert(r[m + 1] == e);
                    }
                } else {
                    assert(r[p] == e);
                }
            }
        }
        assert forall|i: int, j: int| 0 <= i < j < r.len() implies !text_less(
            (#[trigger] r[i]).last_watched.visited,
            (#[trigger] r[j]).last_watched.visited,
        ) by {
            if j < p {
                assert(r[i] == s[i] && r[j] == s[j]);
            } else if j == p {
                assert(r[i] == s[i]);
            } else if i < p {
                assert(r[i] == s[i] && r[j] == s[j - 1]);
            } else if i == p {
                assert(r[j] == s[j - 1]);
                assert(pred(s[p]));
                let a = s[j - 1].last_watched.visited;
                let b = s[p].last_watched.visited;
                let c = x.last_watched.visited;
                if j - 1 > p {
                    assert(!text_less(b, a));
                    lemma_text_less_total(a, b);
                    if a != b {
                        lemma_text_less_transitive(a, b, c);
                    }
                }
                lemma_text_less_asymmetric(a, c);
            } else {
                assert(r[i] == s[i - 1] && r[j] == s[j - 1]);
            }
        }
        if names_distinct(ss) {
            assert(names_distinct(rest)) by {
                assert forall|i: int, j: int|
                    0 <= i < rest.len() && 0 <= j < rest.len() && i != j implies lowercase(
                    (#[trigger] rest[i]).name,
                ) != lowercase((#[trigger] rest[j]).name) by {
                    assert(rest[i] == ss[i] && rest[j] == ss[j]);
                }
            }
            assert forall|k: int| 0 <= k < s.len() implies lowercase(x.name) != lowercase(
                (#[trigger] s[k]).name,
            ) by {
                assert(s.contains(s[k]));
                assert(rest.contains(s[k]));
                let m = choose|m: int| 0 <= m < rest.len() && rest[m] == s[k];
                assert(ss[m] == rest[m]);
                assert(ss[ss.len() - 1] == x);
            }
            assert forall|i: int, j: int|
                0 <= i < r.len() && 0 <= j < r.len() && i != j implies lowercase((#[trigger] r[i]).name)
                != lowercase((#[trigger] r[j]).name) by {
                if i != p && j != p {
                    let i2 = if i < p { i } else { i - 1 };
                    let j2 = if j < p { j } else { j - 1 };
                    assert(r[i] == s[i2] && r[j] == s[j2]);
                } else if i == p {
                    let j2 = if j < p { j } else { j - 1 };
                    assert(r[j] == s[j2]);
                } else {
                    let i2 = if i < p { i } else { i - 1 };
                    assert(r[i] == s[i2]);
                }
            }
        }
    }
}

/// The shape every group keeps: its key is its lowercased name, it has
/// episodes and no (season, episode) twice; no two groups share a key.
pub open spec fn groups_ok(gs: Seq<GroupView>) -> bool {
    &&& forall|i: int|
        0 <= i < gs.len() ==> {
            &&& (#[trigger] gs[i]).key == lowercase(gs[i].name)
            &&& gs[i].episodes.len() > 0
            &&& slots_distinct(gs[i].episodes)
        }
    &&& forall|i: int, j: int|
        0 <= i < gs.len() && 0 <= j < gs.len() && i != j ==> (#[trigger] gs[i]).key != (#[trigger] gs[j]).key
}

/// Adding an episode keeps the (season, episode) pairs distinct.
proof fn lemma_add_episode_distinct(eps: Seq<EpisodeView>, ep: EpisodeView)
    requires
        slots_distinct(eps),
    ensures
        slots_distinct(add_episode(eps, ep)),
        add_episode(eps, ep).len() >= eps.len(),
{
    let pred = in_slot(ep.season, ep.number);
    lemma_first_index(eps, pred);
    let j = first_index(eps, pred);
    let r = add_episode(eps, ep);
    if j < 0 {
        assert forall|a: int, b: int|
            0 <= a < r.len() && 0 <= b < r.len() && a != b implies !same_slot(#[trigger] r[a], #[trigger] r[b]) by {
            if a == eps.len() {
                assert(!pred(eps[b]));
            } else if b == eps.len() {
                assert(!pred(eps[a]));
            } else {
                assert(r[a] == eps[a] && r[b] == eps[b]);
            }
        }
    } else if text_less(eps[j].visited, ep.visited) {
        assert forall|a: int, b: int|
            0 <= a < r.len() && 0 <= b < r.len() && a != b implies !same_slot(#[trigger] r[a], #[trigger] r[b]) by {
            if a == j {
                assert(same_slot(eps[j], ep));
                assert(!same_slot(eps[j], eps[b]));
            } else if b == j {
                assert(same_slot(eps[j], ep));
                assert(!same_slot(eps[a], eps[j]));
            } else {
                assert(r[a] == eps[a] && r[b] == eps[b]);
            }
        }
    }
}

/// Adding a named episode keeps the shape of the groups.
proof fn lemma_add_to_groups_ok(gs: Seq<GroupView>, name: Seq<char>, ep: EpisodeView)
    requires
        groups_ok(gs),
    ensures
        groups_ok(add_to_groups(gs, name, ep)),
{
    let key = lowercase(name);
    let pred = has_key(key);
    lemma_first_index(gs, pred);
    let i = first_index(gs, pred);
    let r = add_to_groups(gs, name, ep);
    if i < 0 {
        assert(slots_distinct(seq![ep]));
        assert forall|a: int, b: int|
            0 <= a < r.len() && 0 <= b < r.len() && a != b implies (#[trigger] r[a]).key != (#[trigger] r[b]).key by {
            if a == gs.len() {
                assert(!pred(gs[b]));
            } else if b == gs.len() {
                assert(!pred(gs[a]));
            } else {
                assert(r[a] == gs[a] && r[b] == gs[b]);
            }
        }
        assert forall|a: int| 0 <= a < r.len() implies {
            &&& (#[trigger] r[a]).key == lowercase(r[a].name)
            &&& r[a].episodes.len() > 0
            &&& slots_distinct(r[a].episodes)
        } by {
            if a < gs.len() {
                assert(r[a] == gs[a]);
            }
        }
    } else {
        lemma_add_episode_distinct(gs[i].episodes, ep);
        assert forall|a: int, b: int|
            0 <= a < r.len() && 0 <= b < r.len() && a != b implies (#[trigger] r[a]).key != (#[trigger] r[b]).key by {
            assert(r[a].key == gs[a].key && r[b].key == gs[b].key);
        }
        assert forall|a: int| 0 <= a < r.len() implies {
            &&& (#[trigger] r[a]).key == lowercase(r[a].name)
            &&& r[a].episodes.len() > 0
            &&& slots_distinct(r[a].episodes)
        } by {
            if a != i {
                assert(r[a] == gs[a]);
            }
        }
    }
}

/// Adding any run of named episodes keeps the shape of the groups.
pub proof fn lemma_add_items_ok(gs: Seq<GroupView>, items: Seq<(Seq<char>, EpisodeView)>)
    requires
        groups_ok(gs),
    ensures
        groups_ok(add_items(gs, items)),
    decreases items.len(),
{
    if items.len() > 0 {
        lemma_add_items_ok(gs, items.drop_last());
        lemma_add_to_groups_ok(add_items(gs, items.drop_last()), items.last().0, items.last().1);
    }
}

/// A series as grouping produces it: it has episodes, ascending by season
/// and number with none twice, and its last watched episode is one of them
/// that no other was visited after.
pub open spec fn series_well_formed(s: SeriesView) -> bool {
    &&& s.episodes.len() > 0
    &&& slots_ascending(s.episodes)
    &&& s.episodes.contains(s.last_watched)
    &&& forall|k: int|
        0 <= k < s.episodes.len() ==> !text_less(s.last_watched.visited, (#[trigger] s.episodes[k]).visited)
}

/// Finishing a group sorts its episodes and picks the most recent one.
pub proof fn lemma_finish_group(g: GroupView)
    requires
        g.episodes.len() > 0,
        slots_distinct(g.episodes),
    ensures
        series_well_formed(finish_group(g)),
        finish_group(g).name == g.name,
        forall|e: EpisodeView| finish_group(g).episodes.contains(e) <==> g.episodes.contains(e),
{
    lemma_sort_by_slot(g.episodes);
    let eps = sort_by_slot(g.episodes);
    lemma_latest_index(eps);
    assert(eps.contains(eps[latest_index(eps)]));
}

/// The series of well-shaped groups are well formed, newest first, with
/// distinct names, one per group.
pub proof fn lemma_finalize_view(gs: Seq<GroupView>)
    requires
        groups_ok(gs),
    ensures
        finalize_view(gs).len() == gs.len(),
        newest_first(finalize_view(gs)),
        names_distinct(finalize_view(gs)),
        forall|i: int| 0 <= i < gs.len() ==> #[trigger] series_well_formed(finalize_view(gs)[i]),
        forall|i: int| 0 <= i < gs.len() ==> finalize_view(gs).contains(#[trigger] finish_group(gs[i])),
        forall|i: int|
            #![trigger finalize_view(gs)[i]]
            0 <= i < gs.len() ==> exists|a: int|
                0 <= a < gs.len() && finalize_view(gs)[i] == #[trigger] finish_group(gs[a]),
{
    let ss = gs.map_values(|g: GroupView| finish_group(g));
    assert forall|i: int| 0 <= i < gs.len() implies #[trigger] ss[i] == finish_group(gs[i]) && series_well_formed(ss[i]) by {
        lemma_finish_group(gs[i]);
    }
    assert(names_distinct(ss)) by {
        assert forall|i: int, j: int|
            0 <= i < ss.len() && 0 <= j < ss.len() && i != j implies lowercase((#[trigger] ss[i]).name)
            != lowercase((#[trigger] ss[j]).name) by {
            assert(ss[i] == finish_group(gs[i]) && ss[j] == finish_group(gs[j]));
        }
    }
    lemma_order_by_recency(ss);
    let r = finalize_view(gs);
    assert forall|i: int| #![trigger r[i]] 0 <= i < gs.len() implies exists|a: int|
        0 <= a < gs.len() && r[i] == #[trigger] finish_group(gs[a]) by {
        assert(r.contains(r[i]));
        assert(ss.contains(r[i]));
        let m = choose|m: int| 0 <= m < ss.len() && ss[m] == r[i];
        assert(ss[m] == finish_group(gs[m]));
    }
    assert forall|i: int| 0 <= i < gs.len() implies #[trigger] series_well_formed(r[i]) by {
        assert(r.contains(r[i]));
        assert(ss.contains(r[i]));
        let m = choose|m: int| 0 <= m < ss.len() && ss[m] == r[i];
        assert(ss[m] == finish_group(gs[m]));
    }
    assert forall|i: int| 0 <= i < gs.len() implies r.contains(#[trigger] finish_group(gs[i])) by {
        assert(ss[i] == finish_group(gs[i]));
        assert(ss.contains(ss[i]));
    }
}

/// Grouping any named episodes gives series that are each well formed,
/// ordered newest activity first, with names distinct up to case.
pub proof fn lemma_grouping_well_formed(items: Seq<(Seq<char>, EpisodeView)>)
    ensures
        newest_first(finalize_view(group_items(items))),
        names_distinct(finalize_view(group_items(items))),
        forall|i: int|
            0 <= i < finalize_view(group_items(items)).len() ==> #[trigger] series_well_formed(
                finalize_view(group_items(items))[i],
            ),
{
    assert(groups_ok(Seq::<GroupView>::empty()));
    lemma_add_items_ok(Seq::empty(), items);
    lemma_finalize_view(group_items(items));
}

/// Group `a` of `gs` holds, at `b`, a copy of the item's episode under the
/// item's key, visited no earlier than the item.
pub open spec fn holds_copy(gs: Seq<GroupView>, a: int, b: int, item: (Seq<char>, EpisodeView)) -> bool {
    &&& 0 <= a < gs.len()
    &&& 0 <= b < gs[a].episodes.len()
    &&& gs[a].key == lowercase(item.0)
    &&& same_slot(gs[a].episodes[b], item.1)
    &&& !text_less(gs[a].episodes[b].visited, item.1.visited)
}

/// Some group holds a copy of the item.
pub open spec fn covered(gs: Seq<GroupView>, item: (Seq<char>, EpisodeView)) -> bool {
    exists|a: int, b: int| #[trigger] holds_copy(gs, a, b, item)
}

/// Every given item has a copy held under its key.
pub open spec fn groups_cover(gs: Seq<GroupView>, items: Seq<(Seq<char>, EpisodeView)>) -> bool {
    forall|k: int| 0 <= k < items.len() ==> #[trigger] covered(gs, items[k])
}

/// Item `k` gives episode `e` under a name whose lowercase is `key`.
pub open spec fn given_as(items: Seq<(Seq<char>, EpisodeView)>, k: int, e: EpisodeView, key: Seq<char>) -> bool {
    0 <= k < items.len() && items[k].1 == e && lowercase(items[k].0) == key
}

/// Some item gives episode `e` under key `key`.
pub open spec fn given(items: Seq<(Seq<char>, EpisodeView)>, e: EpisodeView, key: Seq<char>) -> bool {
    exists|k: int| #[trigger] given_as(items, k, e, key)
}

/// Every episode held is one of the given items, given under that key.
pub open spec fn groups_from(gs: Seq<GroupView>, items: Seq<(Seq<char>, EpisodeView)>) -> bool {
    forall|a: int, b: int|
        0 <= a < gs.len() && 0 <= b < gs[a].episodes.len() ==> #[trigger] given(items, gs[a].episodes[b], gs[a].key)
}

/// Adding a named episode as a new group keeps both content properties.
proof fn lemma_new_group_content(
    gs: Seq<GroupView>,
    items: Seq<(Seq<char>, EpisodeView)>,
    name: Seq<char>,
    ep: EpisodeView,
)
    requires
        groups_cover(gs, items),
        groups_from(gs, items),
        first_index(gs, has_key(lowercase(name))) < 0,
    ensures
        groups_cover(add_to_groups(gs, name, ep), items.push((name, ep))),
        groups_from(add_to_groups(gs, name, ep), items.push((name, ep))),
{
    let r = add_to_groups(gs, name, ep);
    let items2 = items.push((name, ep));
    lemma_text_less_irreflexive(ep.visited);
    assert forall|k: int| 0 <= k < items2.len() implies covered(r, items2[k]) by {
        if k < items.len() {
            assert(items2[k] == items[k]);
            assert(covered(gs, items[k]));
            let (a, b) = choose|a: int, b: int| #[trigger] holds_copy(gs, a, b, items[k]);
            assert(r[a] == gs[a]);
            assert(holds_copy(r, a, b, items2[k]));
        } else {
            assert(r[gs.len() as int].episodes[0] == ep);
            assert(holds_copy(r, gs.len() as int, 0, items2[k]));
        }
    }
    assert forall|a: int, b: int|
        0 <= a < r.len() && 0 <= b < r[a].episodes.len() implies given(items2, r[a].episodes[b], r[a].key) by {
        if a < gs.len() {
            assert(r[a] == gs[a]);
            assert(gs[a].episodes[b] == r[a].episodes[b]);
            assert(given(items, gs[a].episodes[b], gs[a].key));
            let k = choose|k: int| #[trigger] given_as(items, k, gs[a].episodes[b], gs[a].key);
            assert(items2[k] == items[k]);
            assert(given_as(items2, k, r[a].episodes[b], r[a].key));
        } else {
            assert(items2[items.len() as int] == (name, ep));
            assert(given_as(items2, items.len() as int, r[a].episodes[b], r[a].key));
        }
    }
}

/// A copy replaced by a more recent one still covers what the old copy covered.
proof fn lemma_newer_still_covers(old_v: Seq<char>, new_v: Seq<char>, item_v: Seq<char>)
    requires
        text_less(old_v, new_v),
        !text_less(old_v, item_v),
    ensures
        !text_less(new_v, item_v),
{
    lemma_text_less_total(old_v, item_v);
    if text_less(new_v, item_v) {
        if item_v == old_v {
            lemma_text_less_asymmetric(old_v, new_v);
        } else {
            lemma_text_less_transitive(item_v, old_v, new_v);
            lemma_text_less_asymmetric(item_v, new_v);
        }
    }
}

/// Adding a named episode to an existing group keeps the cover property.
proof fn lemma_old_group_cover(
    gs: Seq<GroupView>,
    items: Seq<(Seq<char>, EpisodeView)>,
    name: Seq<char>,
    ep: EpisodeView,
)
    requires
        groups_cover(gs, items),
        first_index(gs, has_key(lowercase(name))) >= 0,
    ensures
        groups_cover(add_to_groups(gs, name, ep), items.push((name, ep))),
{
    let key = lowercase(name);
    lemma_first_index(gs, has_key(key));
    let i = first_index(gs, has_key(key));
    let r = add_to_groups(gs, name, ep);
    let items2 = items.push((name, ep));
    let eps = gs[i].episodes;
    let spred = in_slot(ep.season, ep.number);
    lemma_first_index(eps, spred);
    let j = first_index(eps, spred);
    let neweps = add_episode(eps, ep);
    assert(r[i].episodes == neweps);
    assert(gs[i].key == key);
    lemma_text_less_irreflexive(ep.visited);
    assert forall|k: int| 0 <= k < items2.len() implies covered(r, items2[k]) by {
        if k < items.len() {
            assert(items2[k] == items[k]);
            assert(covered(gs, items[k]));
            let (a, b) = choose|a: int, b: int| #[trigger] holds_copy(gs, a, b, items[k]);
            if a != i {
                assert(r[a] == gs[a]);
            } else if j >= 0 && text_less(eps[j].visited, ep.visited) && b == j {
                assert(neweps[b] == ep);
                lemma_newer_still_covers(eps[j].visited, ep.visited, items[k].1.visited);
            } else {
                assert(neweps[b] == eps[b]);
            }
            assert(holds_copy(r, a, b, items2[k]));
        } else {
            assert(items2[k] == (name, ep));
            if j < 0 {
                assert(neweps[eps.len() as int] == ep);
                assert(holds_copy(r, i, eps.len() as int, items2[k]));
            } else if text_less(eps[j].visited, ep.visited) {
                assert(neweps[j] == ep);
                assert(holds_copy(r, i, j, items2[k]));
            } else {
                assert(spred(eps[j]));
                assert(neweps[j] == eps[j]);
                assert(holds_copy(r, i, j, items2[k]));
            }
        }
    }
}

/// Adding a named episode to an existing group keeps the provenance property.
proof fn lemma_old_group_from(
    gs: Seq<GroupView>,
    items: Seq<(Seq<char>, EpisodeView)>,
    name: Seq<char>,
    ep: EpisodeView,
)
    requires
        groups_from(gs, items),
        first_index(gs, has_key(lowercase(name))) >= 0,
    ensures
        groups_from(add_to_groups(gs, name, ep), items.push((name, ep))),
{
    let key = lowercase(name);
    lemma_first_index(gs, has_key(key));
    let i = first_index(gs, has_key(key));
    let r = add_to_groups(gs, name, ep);
    let items2 = items.push((name, ep));
    let eps = gs[i].episodes;
    let spred = in_slot(ep.season, ep.number);
    lemma_first_index(eps, spred);
    let j = first_index(eps, spred);
    let neweps = add_episode(eps, ep);
    assert(r[i].episodes == neweps);
    assert(gs[i].key == key);
    assert forall|a: int, b: int|
        0 <= a < r.len() && 0 <= b < r[a].episodes.len() implies given(items2, r[a].episodes[b], r[a].key) by {
        if (a == i) && ((j < 0 && b == eps.len()) || (j >= 0 && text_less(eps[j].visited, ep.visited) && b == j)) {
            assert(r[a].episodes[b] == ep);
            assert(items2[items.len() as int] == (name, ep));
            assert(given_as(items2, items.len() as int, r[a].episodes[b], r[a].key));
        } else {
            if a == i {
                assert(r[a].episodes[b] == eps[b]);
            } else {
                assert(r[a] == gs[a]);
            }
            assert(r[a].key == gs[a].key);
            assert(gs[a].episodes[b] == r[a].episodes[b]);
            assert(given(items, gs[a].episodes[b], gs[a].key));
            let k = choose|k: int| #[trigger] given_as(items, k, gs[a].episodes[b], gs[a].key);
            assert(items2[k] == items[k]);
            assert(given_as(items2, k, r[a].episodes[b], r[a].key));
        }
    }
}

/// One step of grouping keeps both content properties.
proof fn lemma_add_to_groups_content(
    gs: Seq<GroupView>,
    items: Seq<(Seq<char>, EpisodeView)>,
    name: Seq<char>,
    ep: EpisodeView,
)
    requires
        groups_cover(gs, items),
        groups_from(gs, items),
    ensures
        groups_cover(add_to_groups(gs, name, ep), items.push((name, ep))),
        groups_from(add_to_groups(gs, name, ep), items.push((name, ep))),
{
    if first_index(gs, has_key(lowercase(name))) < 0 {
        lemma_new_group_content(gs, items, name, ep);
    } else {
        lemma_old_group_cover(gs, items, name, ep);
        lemma_old_group_from(gs, items, name, ep);
    }
}

/// Grouping a run of items keeps both content properties.
proof fn lemma_group_items_content(items: Seq<(Seq<char>, EpisodeView)>)
    ensures
        groups_cover(group_items(items), items),
        groups_from(group_items(items), items),
    decreases items.len(),
{
    if items.len() > 0 {
        let rest = items.drop_last();
        lemma_group_items_content(rest);
        lemma_add_to_groups_content(group_items(rest), rest, items.last().0, items.last().1);
        assert(rest.push(items.last()) =~= items);
    }
}

/// Series `i` of `ss` has, at position `j`, a copy of the item's episode,
/// under a name equal to the item's up to case, visited no earlier.
pub open spec fn series_holds_copy(ss: Seq<SeriesView>, i: int, j: int, item: (Seq<char>, EpisodeView)) -> bool {
    &&& 0 <= i < ss.len()
    &&& 0 <= j < ss[i].episodes.len()
    &&& lowercase(ss[i].name) == lowercase(item.0)
    &&& same_slot(ss[i].episodes[j], item.1)
    &&& !text_less(ss[i].episodes[j].visited, item.1.visited)
}

/// Some series holds a copy of the item.
pub open spec fn series_cover(ss: Seq<SeriesView>, item: (Seq<char>, EpisodeView)) -> bool {
    exists|i: int, j: int| #[trigger] series_holds_copy(ss, i, j, item)
}

/// Nothing given is lost: each named episode given to the grouping is kept in
/// the series of that name (up to case), as a copy of the same season and
/// episode visited no earlier than it.
pub proof fn lemma_grouping_keeps_newest(items: Seq<(Seq<char>, EpisodeView)>, k: int)
    requires
        0 <= k < items.len(),
    ensures
        series_cover(finalize_view(group_items(items)), items[k]),
{
    let gs = group_items(items);
    let r = finalize_view(gs);
    assert(groups_ok(Seq::<GroupView>::empty()));
    lemma_add_items_ok(Seq::empty(), items);
    lemma_group_items_content(items);
    lemma_finalize_view(gs);
    assert(covered(gs, items[k]));
    let (a, b) = choose|a: int, b: int| #[trigger] holds_copy(gs, a, b, items[k]);
    let g = gs[a];
    lemma_finish_group(g);
    let f = finish_group(g);
    assert(r.contains(f));
    let i = choose|i: int| 0 <= i < r.len() && r[i] == f;
    assert(g.episodes.contains(g.episodes[b]));
    assert(f.episodes.contains(g.episodes[b]));
    let j = choose|j: int| 0 <= j < f.episodes.len() && f.episodes[j] == g.episodes[b];
    assert(series_holds_copy(r, i, j, items[k]));
}

/// Nothing is invented: every episode of every series is one of the given
/// episodes, given under a name equal to the series' name up to case.
pub proof fn lemma_grouping_invents_nothing(items: Seq<(Seq<char>, EpisodeView)>, i: int, j: int)
    requires
        0 <= i < finalize_view(group_items(items)).len(),
        0 <= j < finalize_view(group_items(items))[i].episodes.len(),
    ensures
        given(
            items,
            finalize_view(group_items(items))[i].episodes[j],
            lowercase(finalize_view(group_items(items))[i].name),
        ),
{
    let gs = group_items(items);
    let r = finalize_view(gs);
    assert(groups_ok(Seq::<GroupView>::empty()));
    lemma_add_items_ok(Seq::empty(), items);
    lemma_group_items_content(items);
    lemma_finalize_view(gs);
    let a = choose|a: int| 0 <= a < gs.len() && r[i] == #[trigger] finish_group(gs[a]);
    let g = gs[a];
    lemma_finish_group(g);
    assert(r[i].episodes.contains(r[i].episodes[j]));
    assert(g.episodes.contains(r[i].episodes[j]));
    let b = choose|b: int| 0 <= b < g.episodes.len() && g.episodes[b] == r[i].episodes[j];
    assert(given(items, gs[a].episodes[b], gs[a].key));
}

/// Series as grouping leaves them: well formed, each with the last watched
/// episode `latest_index` picks, newest first, with distinct names.
pub open spec fn normalized(ss: Seq<SeriesView>) -> bool {
    &&& names_distinct(ss)
    &&& newest_first(ss)
    &&& forall|i: int|
        0 <= i < ss.len() ==> {
            &&& #[trigger] series_well_formed(ss[i])
            &&& ss[i].last_watched == ss[i].episodes[latest_index(ss[i].episodes)]
        }
}

/// The groups a list of series stands for.
pub open spec fn as_groups(ss: Seq<SeriesView>) -> Seq<GroupView> {
    ss.map_values(|s: SeriesView| GroupView { key: lowercase(s.name), name: s.name, episodes: s.episodes })
}

/// Grouping always gives normalized series.
pub proof fn lemma_grouping_normalized(items: Seq<(Seq<char>, EpisodeView)>)
    ensures
        normalized(finalize_view(group_items(items))),
{
    let gs = group_items(items);
    let r = finalize_view(gs);
    lemma_grouping_well_formed(items);
    assert(groups_ok(Seq::<GroupView>::empty()));
    lemma_add_items_ok(Seq::empty(), items);
    lemma_finalize_view(gs);
    assert forall|i: int| 0 <= i < r.len() implies r[i].last_watched == r[i].episodes[latest_index(r[i].episodes)] by {
        let a = choose|a: int| 0 <= a < gs.len() && r[i] == #[trigger] finish_group(gs[a]);
    }
}

/// The episodes of one series, added after groups of other names, form one
/// new group holding those episodes in order.
proof fn lemma_add_series_items(gs: Seq<GroupView>, s: SeriesView, j: int)
    requires
        forall|k: int| 0 <= k < gs.len() ==> (#[trigger] gs[k]).key != lowercase(s.name),
        slots_ascending(s.episodes),
        1 <= j <= s.episodes.len(),
    ensures
        add_items(gs, items_of(s).take(j)) == gs.push(
            GroupView { key: lowercase(s.name), name: s.name, episodes: s.episodes.take(j) },
        ),
    decreases j,
{
    let items = items_of(s);
    let key = lowercase(s.name);
    assert(items.take(j).drop_last() =~= items.take(j - 1));
    assert(items.take(j).last() == (s.name, s.episodes[j - 1]));
    if j == 1 {
        assert(items.take(0) =~= Seq::<(Seq<char>, EpisodeView)>::empty());
        lemma_first_index(gs, has_key(key));
        if first_index(gs, has_key(key)) >= 0 {
            assert(has_key(key)(gs[first_index(gs, has_key(key))]));
        }
        assert(s.episodes.take(1) =~= seq![s.episodes[0]]);
        assert(add_items(gs, items.take(0)) == gs);
        assert(add_items(gs, items.take(1)) == add_to_groups(gs, s.name, s.episodes[0]));
        assert(add_to_groups(gs, s.name, s.episodes[0]) =~= gs.push(
            GroupView { key, name: s.name, episodes: s.episodes.take(1) },
        ));
    } else {
        lemma_add_series_items(gs, s, j - 1);
        let g = GroupView { key, name: s.name, episodes: s.episodes.take(j - 1) };
        let prev = gs.push(g);
        assert forall|k: int| 0 <= k < gs.len() implies !(#[trigger] has_key(key)(prev[k])) by {
            assert(prev[k] == gs[k]);
        }
        lemma_first_index_at(prev, has_key(key), gs.len() as int);
        let eps = s.episodes.take(j - 1);
        let e = s.episodes[j - 1];
        lemma_first_index(eps, in_slot(e.season, e.number));
        if first_index(eps, in_slot(e.season, e.number)) >= 0 {
            let f = first_index(eps, in_slot(e.season, e.number));
            assert(slot_less(s.episodes[f], s.episodes[j - 1]));
            assert(eps[f] == s.episodes[f]);
        }
        assert(add_episode(eps, e) =~= s.episodes.take(j));
        assert(add_to_groups(prev, s.name, e) =~= gs.push(
            GroupView { key, name: s.name, episodes: s.episodes.take(j) },
        ));
        assert(add_items(gs, items.take(j)) == add_to_groups(
            add_items(gs, items.take(j - 1)),
            s.name,
            e,
        ));
    }
}

/// Grouping the episodes of series with distinct names and ordered, non-empty
/// episode lists gives back one group per series, in order.
proof fn lemma_group_series_items(ss: Seq<SeriesView>)
    requires
        names_distinct(ss),
        forall|i: int| 0 <= i < ss.len() ==> #[trigger] series_well_formed(ss[i]),
    ensures
        group_items(series_items(ss)) == as_groups(ss),
    decreases ss.len(),
{
    if ss.len() == 0 {
        assert(series_items(ss) =~= Seq::<(Seq<char>, EpisodeView)>::empty());
        assert(as_groups(ss) =~= Seq::<GroupView>::empty());
    } else {
        let rest = ss.drop_last();
        let last = ss.last();
        assert(names_distinct(rest)) by {
            assert forall|i: int, j: int|
                0 <= i < rest.len() && 0 <= j < rest.len() && i != j implies lowercase((#[trigger] rest[i]).name)
                != lowercase((#[trigger] rest[j]).name) by {
                assert(rest[i] == ss[i] && rest[j] == ss[j]);
            }
        }
        assert forall|i: int| 0 <= i < rest.len() implies #[trigger] series_well_formed(rest[i]) by {
            assert(rest[i] == ss[i]);
            assert(series_well_formed(ss[i]));
        }
        lemma_group_series_items(rest);
        lemma_add_items_concat(Seq::empty(), series_items(rest), items_of(last));
        let gs = as_groups(rest);
        assert forall|k: int| 0 <= k < gs.len() implies (#[trigger] gs[k]).key != lowercase(last.name) by {
            assert(gs[k].key == lowercase(ss[k].name));
            assert(ss[ss.len() - 1] == last);
        }
        assert(series_well_formed(ss[ss.len() - 1]));
        lemma_add_series_items(gs, last, last.episodes.len() as int);
        assert(items_of(last).take(last.episodes.len() as int) =~= items_of(last));
        assert(last.episodes.take(last.episodes.len() as int) =~= last.episodes);
        assert(as_groups(ss) =~= gs.push(
            GroupView { key: lowercase(last.name), name: last.name, episodes: last.episodes },
        ));
    }
}

/// Sorting episodes that are already in order leaves them as they are.
proof fn lemma_sort_sorted(eps: Seq<EpisodeView>)
    requires
        slots_ascending(eps),
    ensures
        sort_by_slot(eps) == eps,
    decreases eps.len(),
{
    if eps.len() > 0 {
        let rest = eps.drop_last();
        let x = eps.last();
        assert(slots_ascending(rest)) by {
            assert forall|i: int, j: int| 0 <= i < j < rest.len() implies slot_less(
                #[trigger] rest[i],
                #[trigger] rest[j],
            ) by {
                assert(rest[i] == eps[i] && rest[j] == eps[j]);
            }
        }
        lemma_sort_sorted(rest);
        let pred = after_slot_of(x);
        assert forall|k: int| 0 <= k < rest.len() implies !(#[trigger] pred(rest[k])) by {
            assert(rest[k] == eps[k]);
            assert(slot_less(eps[k], eps[eps.len() - 1]));
        }
        lemma_first_index(rest, pred);
        if first_index(rest, pred) >= 0 {
            assert(!pred(rest[first_index(rest, pred)]));
        }
        assert(rest.insert(rest.len() as int, x) =~= eps);
    }
}

/// Ordering series that are already newest first leaves them as they are.
proof fn lemma_order_sorted(ss: Seq<SeriesView>)
    requires
        newest_first(ss),
    ensures
        order_by_recency(ss) == ss,
    decreases ss.len(),
{
    if ss.len() > 0 {
        let rest = ss.drop_last();
        let x = ss.last();
        assert(newest_first(rest)) by {
            assert forall|i: int, j: int| 0 <= i < j < rest.len() implies !text_less(
                (#[trigger] rest[i]).last_watched.visited,
                (#[trigger] rest[j]).last_watched.visited,
            ) by {
                assert(rest[i] == ss[i] && rest[j] == ss[j]);
            }
        }
        lemma_order_sorted(rest);
        let pred = older_than(x);
        assert forall|k: int| 0 <= k < rest.len() implies !(#[trigger] pred(rest[k])) by {
            assert(rest[k] == ss[k]);
            assert(ss[ss.len() - 1] == x);
        }
        lemma_first_index(rest, pred);
        if first_index(rest, pred) >= 0 {
            assert(!pred(rest[first_index(rest, pred)]));
        }
        assert(rest.insert(rest.len() as int, x) =~= ss);
    }
}

/// Grouping the episodes of normalized series again gives the same series.
pub proof fn lemma_regroup_normalized(ss: Seq<SeriesView>)
    requires
        normalized(ss),
    ensures
        finalize_view(group_items(series_items(ss))) == ss,
{
    lemma_group_series_items(ss);
    let gs = as_groups(ss);
    let finished = gs.map_values(|g: GroupView| finish_group(g));
    assert forall|i: int| 0 <= i < ss.len() implies #[trigger] finished[i] == ss[i] by {
        assert(series_well_formed(ss[i]));
        lemma_sort_sorted(ss[i].episodes);
        assert(gs[i].episodes == ss[i].episodes);
    }
    assert(finished =~= ss);
    lemma_order_sorted(ss);
}

/// Grouping is stable: grouping the episodes of grouped series again (as
/// merging a result with nothing does) gives the same series.
pub proof fn lemma_regrouping_changes_nothing(items: Seq<(Seq<char>, EpisodeView)>)
    ensures
        finalize_view(group_items(series_items(finalize_view(group_items(items)))))
            == finalize_view(group_items(items)),
{
    lemma_grouping_normalized(items);
    lemma_regroup_normalized(finalize_view(group_items(items)));
}

/// Adding an episode that a group already holds, under that group's name,
/// changes nothing: the copy held has the same visit time, so it stays.
proof fn lemma_add_held(gs: Seq<GroupView>, name: Seq<char>, e: EpisodeView, a: int, b: int)
    requires
        forall|i: int, j: int|
            0 <= i < gs.len() && 0 <= j < gs.len() && i != j ==> (#[trigger] gs[i]).key
                != (#[trigger] gs[j]).key,
        0 <= a < gs.len(),
        0 <= b < gs[a].episodes.len(),
        gs[a].key == lowercase(name),
        gs[a].episodes[b] == e,
        slots_ascending(gs[a].episodes),
    ensures
        add_to_groups(gs, name, e) == gs,
{
    let key = lowercase(name);
    assert forall|k: int| 0 <= k < a implies !(#[trigger] has_key(key)(gs[k])) by {
        assert(gs[k].key != gs[a].key);
    }
    lemma_first_index_at(gs, has_key(key), a);
    let eps = gs[a].episodes;
    assert forall|k: int| 0 <= k < b implies !(#[trigger] in_slot(e.season, e.number)(eps[k])) by {
        assert(slot_less(eps[k], eps[b]));
    }
    lemma_first_index_at(eps, in_slot(e.season, e.number), b);
    lemma_text_less_irreflexive(e.visited);
    assert(add_episode(eps, e) == eps);
    assert(gs.update(a, GroupView { episodes: eps, ..gs[a] }) =~= gs);
}

/// Adding again the first `n` episodes of a series that group `a` already
/// holds changes nothing.
proof fn lemma_add_held_series(gs: Seq<GroupView>, s: SeriesView, a: int, n: int)
    requires
        forall|i: int, j: int|
            0 <= i < gs.len() && 0 <= j < gs.len() && i != j ==> (#[trigger] gs[i]).key
                != (#[trigger] gs[j]).key,
        0 <= a < gs.len(),
        gs[a].key == lowercase(s.name),
        gs[a].episodes == s.episodes,
        slots_ascending(s.episodes),
        0 <= n <= s.episodes.len(),
    ensures
        add_items(gs, items_of(s).take(n)) == gs,
    decreases n,
{
    let items = items_of(s);
    if n == 0 {
        assert(items.take(0) =~= Seq::<(Seq<char>, EpisodeView)>::empty());
    } else {
        lemma_add_held_series(gs, s, a, n - 1);
        assert(items.take(n).drop_last() =~= items.take(n - 1));
        assert(items.take(n).last() == (s.name, s.episodes[n - 1]));
        lemma_add_held(gs, s.name, s.episodes[n - 1], a, n - 1);
    }
}

/// Adding again the episodes of the first `n` series of a normalized list to
/// the groups that list stands for changes nothing.
proof fn lemma_add_held_all(ss: Seq<SeriesView>, n: int)
    requires
        normalized(ss),
        0 <= n <= ss.len(),
    ensures
        add_items(as_groups(ss), series_items(ss.take(n))) == as_groups(ss),
    decreases n,
{
    let gs = as_groups(ss);
    if n == 0 {
        assert(series_items(ss.take(0)) =~= Seq::<(Seq<char>, EpisodeView)>::empty());
    } else {
        lemma_add_held_all(ss, n - 1);
        assert(ss.take(n).drop_last() =~= ss.take(n - 1));
        assert(ss.take(n).last() == ss[n - 1]);
        lemma_add_items_concat(gs, series_items(ss.take(n - 1)), items_of(ss[n - 1]));
        assert forall|i: int, j: int|
            0 <= i < gs.len() && 0 <= j < gs.len() && i != j implies (#[trigger] gs[i]).key
                != (#[trigger] gs[j]).key by {
            assert(gs[i].key == lowercase(ss[i].name) && gs[j].key == lowercase(ss[j].name));
        }
        assert(series_well_formed(ss[n - 1]));
        let s = ss[n - 1];
        lemma_add_held_series(gs, s, n - 1, s.episodes.len() as int);
        assert(items_of(s).take(s.episodes.len() as int) =~= items_of(s));
    }
}

/// Merging a grouping result with itself changes nothing: every episode
/// given the second time is a copy already kept with the same visit time.
pub proof fn lemma_merge_with_itself(items: Seq<(Seq<char>, EpisodeView)>)
    ensures
        finalize_view(group_items(series_items(
            finalize_view(group_items(items)) + finalize_view(group_items(items)),
        ))) == finalize_view(group_items(items)),
{
    let ss = finalize_view(group_items(items));
    lemma_grouping_normalized(items);
    lemma_series_items_concat(ss, ss);
    lemma_add_items_concat(Seq::empty(), series_items(ss), series_items(ss));
    lemma_group_series_items(ss);
    lemma_add_held_all(ss, ss.len() as int);
    assert(ss.take(ss.len() as int) =~= ss);
    lemma_regroup_normalized(ss);
}

/// Number of episodes over all groups.
pub open spec fn groups_total(gs: Seq<GroupView>) -> nat
    decreases gs.len(),
{
    if gs.len() == 0 {
        0
    } else {
        groups_total(gs.drop_last()) + gs.last().episodes.len()
    }
}

/// Replacing one group changes the total by the difference in its size.
proof fn lemma_groups_total_update(gs: Seq<GroupView>, i: int, g: GroupView)
    requires
        0 <= i < gs.len(),
    ensures
        groups_total(gs.update(i, g)) + gs[i].episodes.len() == groups_total(gs) + g.episodes.len(),
    decreases gs.len(),
{
    let u = gs.update(i, g);
    if i == gs.len() - 1 {
        assert(u.drop_last() =~= gs.drop_last());
    } else {
        assert(u.drop_last() =~= gs.drop_last().update(i, g));
        lemma_groups_total_update(gs.drop_last(), i, g);
    }
}

/// Adding one episode adds at most one episode to the groups.
proof fn lemma_add_to_groups_total(gs: Seq<GroupView>, name: Seq<char>, ep: EpisodeView)
    ensures
        groups_total(add_to_groups(gs, name, ep)) <= groups_total(gs) + 1,
{
    let key = lowercase(name);
    lemma_first_index(gs, has_key(key));
    let i = first_index(gs, has_key(key));
    if i < 0 {
        assert(add_to_groups(gs, name, ep).drop_last() =~= gs);
    } else {
        let eps = gs[i].episodes;
        lemma_first_index(eps, in_slot(ep.season, ep.number));
        assert(add_episode(eps, ep).len() <= eps.len() + 1);
        lemma_groups_total_update(gs, i, GroupView { episodes: add_episode(eps, ep), ..gs[i] });
    }
}

/// Adding a run of items adds at most one episode per item.
proof fn lemma_add_items_total(gs: Seq<GroupView>, items: Seq<(Seq<char>, EpisodeView)>)
    ensures
        groups_total(add_items(gs, items)) <= groups_total(gs) + items.len(),
    decreases items.len(),
{
    if items.len() > 0 {
        lemma_add_items_total(gs, items.drop_last());
        lemma_add_to_groups_total(add_items(gs, items.drop_last()), items.last().0, items.last().1);
    }
}

/// Inserting a series adds its episodes to the total.
proof fn lemma_episode_total_insert(ss: Seq<SeriesView>, p: int, x: SeriesView)
    requires
        0 <= p <= ss.len(),
    ensures
        episode_total(ss.insert(p, x)) == episode_total(ss) + x.episodes.len(),
    decreases ss.len(),
{
    let r = ss.insert(p, x);
    if p == ss.len() {
        assert(r.drop_last() =~= ss);
    } else {
        assert(r.drop_last() =~= ss.drop_last().insert(p, x));
        assert(r.last() == ss.last());
        lemma_episode_total_insert(ss.drop_last(), p, x);
    }
}

/// Ordering by recency keeps the episode total.
proof fn lemma_order_by_recency_total(ss: Seq<SeriesView>)
    ensures
        episode_total(order_by_recency(ss)) == episode_total(ss),
    decreases ss.len(),
{
    if ss.len() > 0 {
        lemma_order_by_recency_total(ss.drop_last());
        let s = order_by_recency(ss.drop_last());
        lemma_first_index(s, older_than(ss.last()));
        lemma_episode_total_insert(s, insert_position(s, older_than(ss.last())), ss.last());
    }
}

/// Finishing groups into series keeps the episode total.
proof fn lemma_finalize_total(gs: Seq<GroupView>)
    ensures
        episode_total(finalize_view(gs)) == groups_total(gs),
    decreases gs.len(),
{
    let ss = gs.map_values(|g: GroupView| finish_group(g));
    lemma_order_by_recency_total(ss);
    lemma_finished_total(gs);
}

proof fn lemma_finished_total(gs: Seq<GroupView>)
    ensures
        episode_total(gs.map_values(|g: GroupView| finish_group(g))) == groups_total(gs),
    decreases gs.len(),
{
    if gs.len() > 0 {
        lemma_finished_total(gs.drop_last());
        assert(gs.map_values(|g: GroupView| finish_group(g)).drop_last()
            =~= gs.drop_last().map_values(|g: GroupView| finish_group(g)));
        lemma_sort_by_slot_len(gs.last().episodes);
    }
}

/// Grouping never yields more episodes than it was given.
pub proof fn lemma_grouping_total(items: Seq<(Seq<char>, EpisodeView)>)
    ensures
        episode_total(finalize_view(group_items(items))) <= items.len(),
{
    lemma_add_items_total(Seq::empty(), items);
    lemma_finalize_total(group_items(items));
}

/// What grouping a run of named episodes promises of the series it gives:
/// newest activity first, names distinct up to case, each series well
/// formed (episodes ascending with one copy per season and episode, the last
/// watched one the most recent), every given episode kept by a copy visited
/// no earlier, no episode that was not given, and no more episodes than given.
pub open spec fn well_grouped(items: Seq<(Seq<char>, EpisodeView)>, r: Seq<SeriesView>) -> bool {
    &&& newest_first(r)
    &&& names_distinct(r)
    &&& forall|i: int| 0 <= i < r.len() ==> #[trigger] series_well_formed(r[i])
    &&& forall|k: int| 0 <= k < items.len() ==> #[trigger] series_cover(r, items[k])
    &&& forall|i: int, j: int|
        0 <= i < r.len() && 0 <= j < r[i].episodes.len() ==> #[trigger] given(
            items,
            r[i].episodes[j],
            lowercase(r[i].name),
        )
    &&& episode_total(r) <= items.len()
}

/// Grouping any named episodes gives series that are well grouped.
pub proof fn lemma_well_grouped(items: Seq<(Seq<char>, EpisodeView)>)
    ensures
        well_grouped(items, finalize_view(group_items(items))),
{
    let r = finalize_view(group_items(items));
    lemma_grouping_well_formed(items);
    lemma_grouping_total(items);
    assert forall|k: int| 0 <= k < items.len() implies #[trigger] series_cover(r, items[k]) by {
        lemma_grouping_keeps_newest(items, k);
    }
    assert forall|i: int, j: int| 0 <= i < r.len() && 0 <= j < r[i].episodes.len() implies #[trigger] given(
        items,
        r[i].episodes[j],
        lowercase(r[i].name),
    ) by {
        lemma_grouping_invents_nothing(items, i, j);
    }
}

/// Two episode lists, each strictly ascending by season and number, that
/// hold the same episodes are the same list.
proof fn lemma_ascending_unique(x: Seq<EpisodeView>, y: Seq<EpisodeView>)
    requires
        slots_ascending(x),
        slots_ascending(y),
        forall|e: EpisodeView| #![trigger x.contains(e)] #![trigger y.contains(e)] x.contains(e) <==> y.contains(e),
    ensures
        x == y,
    decreases x.len(),
{
    if x.len() == 0 {
        if y.len() > 0 {
            assert(y.contains(y[0]));
        }
        assert(x =~= y);
    } else {
        assert(x.contains(x[0]));
        assert(y.len() > 0);
        assert(y.contains(y[0]));
        let j = choose|j: int| 0 <= j < y.len() && y[j] == x[0];
        let i = choose|i: int| 0 <= i < x.len() && x[i] == y[0];
        if j > 0 {
            assert(slot_less(y[0], y[j]));
            if i > 0 {
                assert(slot_less(x[0], x[i]));
            }
        }
        assert(x[0] == y[0]);
        let x1 = x.drop_first();
        let y1 = y.drop_first();
        assert(slots_ascending(x1)) by {
            assert forall|a: int, b: int| 0 <= a < b < x1.len() implies slot_less(#[trigger] x1[a], #[trigger] x1[b]) by {
                assert(x1[a] == x[a + 1] && x1[b] == x[b + 1]);
            }
        }
        assert(slots_ascending(y1)) by {
            assert forall|a: int, b: int| 0 <= a < b < y1.len() implies slot_less(#[trigger] y1[a], #[trigger] y1[b]) by {
                assert(y1[a] == y[a + 1] && y1[b] == y[b + 1]);
            }
        }
        assert forall|e: EpisodeView| #![trigger x1.contains(e)] #![trigger y1.contains(e)] x1.contains(e) <==> y1.contains(e) by {
            if x1.contains(e) {
                let a = choose|a: int| 0 <= a < x1.len() && x1[a] == e;
                assert(x[a + 1] == e);
                assert(x.contains(e));
                assert(slot_less(x[0], x[a + 1]));
                let b = choose|b: int| 0 <= b < y.len() && y[b] == e;
                assert(b != 0);
                assert(y1[b - 1] == e);
            }
            if y1.contains(e) {
                let a = choose|a: int| 0 <= a < y1.len() && y1[a] == e;
                assert(y[a + 1] == e);
                assert(y.contains(e));
                assert(slot_less(y[0], y[a + 1]));
                let b = choose|b: int| 0 <= b < x.len() && x[b] == e;
                assert(b != 0);
                assert(x1[b - 1] == e);
            }
        }
        lemma_ascending_unique(x1, y1);
        assert(x =~= seq![x[0]] + x1);
        assert(y =~= seq![y[0]] + y1);
    }
}

/// The item `x` is episode `p` of series `i` of `ss`, under its name.
pub open spec fn item_at(ss: Seq<SeriesView>, i: int, p: int, x: (Seq<char>, EpisodeView)) -> bool {
    0 <= i < ss.len() && 0 <= p < ss[i].episodes.len() && x == (ss[i].name, ss[i].episodes[p])
}

/// The item `x` is one of the episodes of `ss`, under its series' name.
pub open spec fn in_series(ss: Seq<SeriesView>, x: (Seq<char>, EpisodeView)) -> bool {
    exists|i: int, p: int| #[trigger] item_at(ss, i, p, x)
}

/// The items of a list of series are exactly its episodes under their names.
proof fn lemma_series_items_contains(ss: Seq<SeriesView>, x: (Seq<char>, EpisodeView))
    ensures
        series_items(ss).contains(x) <==> in_series(ss, x),
    decreases ss.len(),
{
    if ss.len() == 0 {
        assert(series_items(ss) =~= Seq::<(Seq<char>, EpisodeView)>::empty());
    } else {
        let rest = ss.drop_last();
        let last = ss.last();
        let n = ss.len() - 1;
        lemma_series_items_contains(rest, x);
        let l = series_items(rest);
        let m = items_of(last);
        assert(series_items(ss) == l + m);
        if series_items(ss).contains(x) {
            let k = choose|k: int| 0 <= k < (l + m).len() && (l + m)[k] == x;
            if k < l.len() {
                assert(l[k] == x);
                assert(l.contains(x));
                let (i, p) = choose|i: int, p: int| #[trigger] item_at(rest, i, p, x);
                assert(rest[i] == ss[i]);
                assert(item_at(ss, i, p, x));
            } else {
                assert(m[k - l.len()] == x);
                assert(item_at(ss, n, k - l.len(), x));
            }
        }
        if in_series(ss, x) {
            let (i, p) = choose|i: int, p: int| #[trigger] item_at(ss, i, p, x);
            if i < n {
                assert(rest[i] == ss[i]);
                assert(item_at(rest, i, p, x));
                let k = choose|k: int| 0 <= k < l.len() && l[k] == x;
                assert((l + m)[k] == x);
            } else {
                assert(m[p] == x);
                assert((l + m)[l.len() + p] == x);
            }
        }
    }
}

/// The episodes of two lists of series, taken together, in either order.
proof fn lemma_in_series_concat(a: Seq<SeriesView>, b: Seq<SeriesView>, x: (Seq<char>, EpisodeView))
    ensures
        in_series(a + b, x) <==> (in_series(a, x) || in_series(b, x)),
{
    let ab = a + b;
    if in_series(ab, x) {
        let (i, p) = choose|i: int, p: int| #[trigger] item_at(ab, i, p, x);
        if i < a.len() {
            assert(ab[i] == a[i]);
            assert(item_at(a, i, p, x));
        } else {
            assert(ab[i] == b[i - a.len()]);
            assert(item_at(b, i - a.len(), p, x));
        }
    }
    if in_series(a, x) {
        let (i, p) = choose|i: int, p: int| #[trigger] item_at(a, i, p, x);
        assert(ab[i] == a[i]);
        assert(item_at(ab, i, p, x));
    }
    if in_series(b, x) {
        let (i, p) = choose|i: int, p: int| #[trigger] item_at(b, i, p, x);
        assert(ab[a.len() + i] == b[i]);
        assert(item_at(ab, a.len() + i, p, x));
    }
}

/// Copies of the same season and episode, under the same name up to case and
/// with the same visit time, are the same episode.
pub open spec fn unique_copies(items: Seq<(Seq<char>, EpisodeView)>) -> bool {
    forall|x: (Seq<char>, EpisodeView), y: (Seq<char>, EpisodeView)|
        #[trigger] items.contains(x) && #[trigger] items.contains(y) && lowercase(x.0) == lowercase(y.0)
            && same_slot(x.1, y.1) && x.1.visited == y.1.visited ==> x.1 == y.1
}

/// Some item gives episode `e` under a name whose lowercase is `key`.
pub open spec fn gives(items: Seq<(Seq<char>, EpisodeView)>, key: Seq<char>, e: EpisodeView) -> bool {
    exists|x: (Seq<char>, EpisodeView)| #[trigger] items.contains(x) && lowercase(x.0) == key && x.1 == e
}

/// Episode `e` is given under `key`, and no item under that key with the same
/// season and episode was visited after it.
pub open spec fn newest_given(items: Seq<(Seq<char>, EpisodeView)>, key: Seq<char>, e: EpisodeView) -> bool {
    &&& gives(items, key, e)
    &&& forall|x: (Seq<char>, EpisodeView)|
        #[trigger] items.contains(x) && lowercase(x.0) == key && same_slot(x.1, e) ==> !text_less(
            e.visited,
            x.1.visited,
        )
}

/// The episodes of a grouped series are exactly the newest copies given
/// under its name.
proof fn lemma_series_content(items: Seq<(Seq<char>, EpisodeView)>, i: int, e: EpisodeView)
    requires
        unique_copies(items),
        0 <= i < finalize_view(group_items(items)).len(),
    ensures
        finalize_view(group_items(items))[i].episodes.contains(e) <==> newest_given(
            items,
            lowercase(finalize_view(group_items(items))[i].name),
            e,
        ),
{
    let r = finalize_view(group_items(items));
    lemma_well_grouped(items);
    let k = lowercase(r[i].name);
    let eps = r[i].episodes;
    assert(series_well_formed(r[i]));
    if eps.contains(e) {
        let p = choose|p: int| 0 <= p < eps.len() && eps[p] == e;
        assert(given(items, r[i].episodes[p], lowercase(r[i].name)));
        let m = choose|m: int| #[trigger] given_as(items, m, e, k);
        assert(items.contains(items[m]));
        assert forall|x: (Seq<char>, EpisodeView)|
            #[trigger] items.contains(x) && lowercase(x.0) == k && same_slot(x.1, e) implies !text_less(
            e.visited,
            x.1.visited,
        ) by {
            let m2 = choose|m2: int| 0 <= m2 < items.len() && items[m2] == x;
            assert(series_cover(r, items[m2]));
            let (i2, j2) = choose|i2: int, j2: int| #[trigger] series_holds_copy(r, i2, j2, items[m2]);
            if i2 != i {
                assert(lowercase(r[i2].name) != lowercase(r[i].name));
            }
            if j2 < p {
                assert(slot_less(eps[j2], eps[p]));
            } else if j2 > p {
                assert(slot_less(eps[p], eps[j2]));
            }
        }
    }
    if newest_given(items, k, e) {
        let x = choose|x: (Seq<char>, EpisodeView)| #[trigger] items.contains(x) && lowercase(x.0) == k && x.1 == e;
        let m = choose|m: int| 0 <= m < items.len() && items[m] == x;
        assert(series_cover(r, items[m]));
        let (i2, j2) = choose|i2: int, j2: int| #[trigger] series_holds_copy(r, i2, j2, items[m]);
        if i2 != i {
            assert(lowercase(r[i2].name) != lowercase(r[i].name));
        }
        let e2 = eps[j2];
        assert(given(items, r[i].episodes[j2], lowercase(r[i].name)));
        let m3 = choose|m3: int| #[trigger] given_as(items, m3, e2, k);
        let y = items[m3];
        assert(items.contains(y));
        assert(!text_less(e.visited, y.1.visited));
        lemma_text_less_total(e.visited, e2.visited);
        assert(e == e2);
        assert(eps.contains(e2));
    }
}

/// Series `s` appears in `r` under the same name up to case, with the same
/// episodes and the same last watched episode.
pub open spec fn appears_in(r: Seq<SeriesView>, s: SeriesView) -> bool {
    exists|j: int|
        0 <= j < r.len() && lowercase((#[trigger] r[j]).name) == lowercase(s.name) && r[j].episodes == s.episodes
            && r[j].last_watched == s.last_watched
}

/// Two lists of series hold the same series, up to the case of their names
/// and their order.
pub open spec fn same_series(r1: Seq<SeriesView>, r2: Seq<SeriesView>) -> bool {
    &&& forall|i: int| 0 <= i < r1.len() ==> #[trigger] appears_in(r2, r1[i])
    &&& forall|j: int| 0 <= j < r2.len() ==> #[trigger] appears_in(r1, r2[j])
}

/// Grouping two runs of items with the same contents gives the same series,
/// up to the case of their names and their order.
proof fn lemma_included(items1: Seq<(Seq<char>, EpisodeView)>, items2: Seq<(Seq<char>, EpisodeView)>, i: int)
    requires
        unique_copies(items1),
        forall|x: (Seq<char>, EpisodeView)| #![trigger items1.contains(x)] #![trigger items2.contains(x)]
            items1.contains(x) <==> items2.contains(x),
        0 <= i < finalize_view(group_items(items1)).len(),
    ensures
        appears_in(finalize_view(group_items(items2)), finalize_view(group_items(items1))[i]),
{
    let r1 = finalize_view(group_items(items1));
    let r2 = finalize_view(group_items(items2));
    lemma_well_grouped(items1);
    lemma_well_grouped(items2);
    lemma_grouping_normalized(items1);
    lemma_grouping_normalized(items2);
    assert(unique_copies(items2)) by {
        assert forall|x: (Seq<char>, EpisodeView), y: (Seq<char>, EpisodeView)|
            #[trigger] items2.contains(x) && #[trigger] items2.contains(y) && lowercase(x.0) == lowercase(y.0)
                && same_slot(x.1, y.1) && x.1.visited == y.1.visited implies x.1 == y.1 by {
            assert(items1.contains(x) && items1.contains(y));
        }
    }
    let k = lowercase(r1[i].name);
    let eps1 = r1[i].episodes;
    assert(series_well_formed(r1[i]));
    assert(given(items1, r1[i].episodes[0], lowercase(r1[i].name)));
    let m = choose|m: int| #[trigger] given_as(items1, m, eps1[0], k);
    let x = items1[m];
    assert(items1.contains(x));
    assert(items2.contains(x));
    let m2 = choose|m2: int| 0 <= m2 < items2.len() && items2[m2] == x;
    assert(series_cover(r2, items2[m2]));
    let (j, q) = choose|j: int, q: int| #[trigger] series_holds_copy(r2, j, q, items2[m2]);
    let eps2 = r2[j].episodes;
    assert(series_well_formed(r2[j]));
    assert forall|e: EpisodeView| #![trigger eps1.contains(e)] #![trigger eps2.contains(e)] eps1.contains(e) <==> eps2.contains(e) by {
        lemma_series_content(items1, i, e);
        lemma_series_content(items2, j, e);
        if newest_given(items1, k, e) {
            let w = choose|w: (Seq<char>, EpisodeView)| #[trigger] items1.contains(w) && lowercase(w.0) == k && w.1 == e;
            assert(items2.contains(w));
            assert(gives(items2, k, e));
        }
        if newest_given(items2, k, e) {
            let w = choose|w: (Seq<char>, EpisodeView)| #[trigger] items2.contains(w) && lowercase(w.0) == k && w.1 == e;
            assert(items1.contains(w));
            assert(gives(items1, k, e));
        }
    }
    lemma_ascending_unique(eps1, eps2);
    assert(r1[i].last_watched == eps1[latest_index(eps1)]);
    assert(r2[j].last_watched == eps2[latest_index(eps2)]);
}

/// No season and episode of a series (by name up to case) has the same visit
/// time in both lists.
pub open spec fn distinct_visits(a: Seq<SeriesView>, b: Seq<SeriesView>) -> bool {
    forall|i: int, j: int, p: int, q: int|
        0 <= i < a.len() && 0 <= j < b.len() && 0 <= p < a[i].episodes.len() && 0 <= q < b[j].episodes.len()
            && lowercase(a[i].name) == lowercase(b[j].name) && same_slot(
            #[trigger] a[i].episodes[p],
            #[trigger] b[j].episodes[q],
        ) ==> a[i].episodes[p].visited != b[j].episodes[q].visited
}

/// The episodes of two normalized lists without equal visit times of the same
/// episode are unique copies.
proof fn lemma_unique_copies(a: Seq<SeriesView>, b: Seq<SeriesView>)
    requires
        normalized(a),
        normalized(b),
        distinct_visits(a, b),
    ensures
        unique_copies(series_items(a + b)),
{
    let items = series_items(a + b);
    assert forall|x: (Seq<char>, EpisodeView), y: (Seq<char>, EpisodeView)|
        #[trigger] items.contains(x) && #[trigger] items.contains(y) && lowercase(x.0) == lowercase(y.0)
            && same_slot(x.1, y.1) && x.1.visited == y.1.visited implies x.1 == y.1 by {
        lemma_series_items_contains(a + b, x);
        lemma_series_items_contains(a + b, y);
        lemma_in_series_concat(a, b, x);
        lemma_in_series_concat(a, b, y);
        lemma_one_list_unique(a, x, y);
        lemma_one_list_unique(b, x, y);
        if in_series(a, x) && in_series(b, y) {
            let (i, p) = choose|i: int, p: int| #[trigger] item_at(a, i, p, x);
            let (j, q) = choose|j: int, q: int| #[trigger] item_at(b, j, q, y);
            assert(same_slot(a[i].episodes[p], b[j].episodes[q]));
        }
        if in_series(b, x) && in_series(a, y) {
            let (i, p) = choose|i: int, p: int| #[trigger] item_at(a, i, p, y);
            let (j, q) = choose|j: int, q: int| #[trigger] item_at(b, j, q, x);
            assert(same_slot(a[i].episodes[p], b[j].episodes[q]));
        }
    }
}

/// Within one normalized list, the same name up to case and the same season
/// and episode mean the same episode.
proof fn lemma_one_list_unique(ss: Seq<SeriesView>, x: (Seq<char>, EpisodeView), y: (Seq<char>, EpisodeView))
    requires
        normalized(ss),
    ensures
        in_series(ss, x) && in_series(ss, y) && lowercase(x.0) == lowercase(y.0) && same_slot(x.1, y.1) ==> x.1
            == y.1,
{
    if in_series(ss, x) && in_series(ss, y) && lowercase(x.0) == lowercase(y.0) && same_slot(x.1, y.1) {
        let (i, p) = choose|i: int, p: int| #[trigger] item_at(ss, i, p, x);
        let (j, q) = choose|j: int, q: int| #[trigger] item_at(ss, j, q, y);
        if i != j {
            assert(lowercase(ss[i].name) != lowercase(ss[j].name));
        }
        assert(series_well_formed(ss[i]));
        if p < q {
            assert(slot_less(ss[i].episodes[p], ss[i].episodes[q]));
        } else if q < p {
            assert(slot_less(ss[i].episodes[q], ss[i].episodes[p]));
        }
    }
}

/// Merging is commutative up to the case of series names and the order of
/// equally recent series: for grouping results `a` and `b` in which no
/// episode of a series has the same visit time in both, merging `a` with `b`
/// and `b` with `a` give the same series, each with the same episodes and
/// the same last watched episode.
pub proof fn lemma_merge_commutes(a: Seq<SeriesView>, b: Seq<SeriesView>)
    requires
        normalized(a),
        normalized(b),
        distinct_visits(a, b),
    ensures
        same_series(
            finalize_view(group_items(series_items(a + b))),
            finalize_view(group_items(series_items(b + a))),
        ),
{
    let i1 = series_items(a + b);
    let i2 = series_items(b + a);
    assert forall|x: (Seq<char>, EpisodeView)| #![trigger i1.contains(x)] #![trigger i2.contains(x)] i1.contains(x) <==> i2.contains(x) by {
        lemma_series_items_contains(a + b, x);
        lemma_series_items_contains(b + a, x);
        lemma_in_series_concat(a, b, x);
        lemma_in_series_concat(b, a, x);
    }
    lemma_unique_copies(a, b);
    assert(unique_copies(i2)) by {
        assert forall|x: (Seq<char>, EpisodeView), y: (Seq<char>, EpisodeView)|
            #[trigger] i2.contains(x) && #[trigger] i2.contains(y) && lowercase(x.0) == lowercase(y.0)
                && same_slot(x.1, y.1) && x.1.visited == y.1.visited implies x.1 == y.1 by {
            assert(i1.contains(x) && i1.contains(y));
        }
    }
    let r1 = finalize_view(group_items(i1));
    let r2 = finalize_view(group_items(i2));
    assert forall|i: int| 0 <= i < r1.len() implies #[trigger] appears_in(r2, r1[i]) by {
        lemma_included(i1, i2, i);
    }
    assert forall|j: int| 0 <= j < r2.len() implies #[trigger] appears_in(r1, r2[j]) by {
        lemma_included(i2, i1, j);
    }
}

} // verus!
