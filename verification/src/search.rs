//! The snapshot store, the query cache and the fuzzy query engine.

use crate::record::{views, TabInfo, TabInfoView};
use sublime_fuzzy::best_match;
use vstd::prelude::*;

verus! {

/// The most records that one search hands back.
pub const MAX_RESULTS: usize = 50;

/// The score that `sublime_fuzzy::best_match` gives to `query` in `title`
/// (matching without regard to case), or `None` where the query does not
/// match the title in full.
pub uninterp spec fn fuzzy_score(query: Seq<char>, title: Seq<char>) -> Option<isize>;

/// Calls `sublime_fuzzy::best_match` and takes the score of the match found.
///
/// Trusted, not proved: the score is a function of the two strings alone, and
/// an empty query or an empty title never matches. The matcher reserves a
/// table for the square of the query's length and adds up scores in plain
/// `isize` arithmetic; on a 64-bit machine neither overflows before the table
/// outgrows memory.
#[verifier::external_body]
fn best_match_score(query: &str, title: &str) -> (score: Option<isize>)
    ensures
        score == fuzzy_score(query@, title@),
        query@.len() == 0 || title@.len() == 0 ==> score is None,
{
    match best_match(query, title) {
        Some(found) => Some(found.score()),
        None => None,
    }
}

/// The score of each record's title against `query`: `None` for a record
/// without a title and for a title that the query does not match.
pub open spec fn title_scores(tabs: Seq<TabInfoView>, query: Seq<char>) -> Seq<Option<isize>> {
    Seq::new(
        tabs.len(),
        |i: int|
            match tabs[i].title {
                Some(t) => fuzzy_score(query, t),
                None => None,
            },
    )
}

/// Position `a` comes before position `b` in a ranking: its score is higher,
/// or the scores are equal and `a` is the earlier position.
pub open spec fn ranks_before(scores: Seq<Option<isize>>, a: int, b: int) -> bool {
    scores[a].unwrap() > scores[b].unwrap() || (scores[a].unwrap() == scores[b].unwrap() && a < b)
}

/// `order` lists exactly the positions of `scores` that hold a score, by
/// descending score, positions of equal score in ascending order.
pub open spec fn is_ranking(scores: Seq<Option<isize>>, order: Seq<usize>) -> bool {
    &&& forall|k: int|
        0 <= k < order.len() ==> (#[trigger] order[k]) < scores.len() && scores[order[k] as int] is Some
    &&& forall|i: int|
        0 <= i < scores.len() && (#[trigger] scores[i]) is Some ==> exists|k: int|
            0 <= k < order.len() && #[trigger] order[k] == i
    &&& forall|j: int, k: int|
        0 <= j < k < order.len() ==> ranks_before(
            scores,
            #[trigger] order[j] as int,
            #[trigger] order[k] as int,
        )
}

/// The score held at the position that `order` lists in place `k`.
fn listed_score(scores: &Vec<Option<isize>>, order: &Vec<usize>, k: usize) -> (score: isize)
    requires
        k < order.len(),
        order[k as int] < scores.len(),
        scores[order[k as int] as int] is Some,
    ensures
        score == scores[order[k as int] as int].unwrap(),
{
    match scores[order[k]] {
        Some(s) => s,
        None => 0,
    }
}

/// The place at which a new entry with score `score` enters `order`: behind
/// every entry that scores at least as much.
fn insertion_point(scores: &Vec<Option<isize>>, order: &Vec<usize>, score: isize) -> (at: usize)
    requires
        forall|k: int|
            0 <= k < order.len() ==> (#[trigger] order[k]) < scores.len() && scores[order[k] as int] is Some,
    ensures
        at <= order.len(),
        forall|k: int| at <= k < order.len() ==> scores[#[trigger] order[k] as int].unwrap() < score,
        at > 0 ==> scores[order[at - 1] as int].unwrap() >= score,
{
    let mut at: usize = order.len();
    while at > 0 && listed_score(scores, order, at - 1) < score
        invariant
            at <= order.len(),
            forall|k: int|
                0 <= k < order.len() ==> (#[trigger] order[k]) < scores.len() && scores[order[k] as int] is Some,
            forall|k: int| at <= k < order.len() ==> scores[#[trigger] order[k] as int].unwrap() < score,
        decreases at,
    {
        at = at - 1;
    }
    at
}

/// Entering a newly scored position behind the entries that score at least
/// as much keeps a ranking a ranking.
proof fn lemma_insert_keeps_ranking(scores: Seq<Option<isize>>, i: int, before: Seq<usize>, at: int)
    requires
        0 <= i < scores.len(),
        i <= usize::MAX,
        scores[i] is Some,
        is_ranking(scores.take(i), before),
        0 <= at <= before.len(),
        forall|k: int| at <= k < before.len() ==> scores[#[trigger] before[k] as int].unwrap() < scores[i].unwrap(),
        at > 0 ==> scores[before[at - 1] as int].unwrap() >= scores[i].unwrap(),
    ensures
        is_ranking(scores.take(i + 1), before.insert(at, i as usize)),
{
    let old_scores = scores.take(i);
    let seen = scores.take(i + 1);
    let after = before.insert(at, i as usize);
    assert(after[at] == i);
    assert forall|k: int| 0 <= k < after.len() implies (#[trigger] after[k]) < seen.len()
        && seen[after[k] as int] is Some by {
        if k < at {
            assert(after[k] == before[k]);
        } else if k > at {
            assert(after[k] == before[k - 1]);
        }
    }
    assert forall|p: int| 0 <= p < seen.len() && (#[trigger] seen[p]) is Some implies exists|k: int|
        0 <= k < after.len() && #[trigger] after[k] == p by {
        if p < i {
            assert(old_scores[p] is Some);
            let k0 = choose|k: int| 0 <= k < before.len() && #[trigger] before[k] == p;
            if k0 < at {
                assert(after[k0] == p);
            } else {
                assert(after[k0 + 1] == p);
            }
        } else {
            assert(after[at] == p);
        }
    }
    assert forall|j: int, k: int| 0 <= j < k < after.len() implies ranks_before(
        seen,
        #[trigger] after[j] as int,
        #[trigger] after[k] as int,
    ) by {
        if k == at {
            assert(after[j] == before[j]);
            assert(before[j] < i);
            if j < at - 1 {
                assert(ranks_before(old_scores, before[j] as int, before[at - 1] as int));
            }
        } else if j == at {
            assert(after[k] == before[k - 1]);
        } else {
            let bj = if j < at { j } else { j - 1 };
            let bk = if k < at { k } else { k - 1 };
            assert(after[j] == before[bj]);
            assert(after[k] == before[bk]);
            assert(ranks_before(old_scores, before[bj] as int, before[bk] as int));
        }
    }
}

/// Leaving out a position without a score keeps a ranking a ranking.
proof fn lemma_skip_keeps_ranking(scores: Seq<Option<isize>>, i: int, order: Seq<usize>)
    requires
        0 <= i < scores.len(),
        scores[i] is None,
        is_ranking(scores.take(i), order),
    ensures
        is_ranking(scores.take(i + 1), order),
{
    let old_scores = scores.take(i);
    let seen = scores.take(i + 1);
    assert forall|p: int| 0 <= p < seen.len() && (#[trigger] seen[p]) is Some implies exists|k: int|
        0 <= k < order.len() && #[trigger] order[k] == p by {
        assert(old_scores[p] is Some);
    }
    assert forall|j: int, k: int| 0 <= j < k < order.len() implies ranks_before(
        seen,
        #[trigger] order[j] as int,
        #[trigger] order[k] as int,
    ) by {
        assert(ranks_before(old_scores, order[j] as int, order[k] as int));
    }
}

/// Taking the last entry out of a ranking leaves a ranking of the scores
/// without the score at that entry's position.
proof fn lemma_drop_last_keeps_ranking(scores: Seq<Option<isize>>, order: Seq<usize>)
    requires
        is_ranking(scores, order),
        order.len() > 0,
    ensures
        is_ranking(scores.update(order.last() as int, None), order.drop_last()),
{
    let last = order.last() as int;
    let end = order.len() - 1;
    let rest = scores.update(last, None);
    let front = order.drop_last();
    assert(order[end] == last);
    assert forall|k: int| 0 <= k < front.len() implies (#[trigger] front[k]) < rest.len()
        && rest[front[k] as int] is Some by {
        assert(front[k] == order[k]);
        assert(ranks_before(scores, order[k] as int, order[end] as int));
    }
    assert forall|i: int| 0 <= i < rest.len() && (#[trigger] rest[i]) is Some implies exists|k: int|
        0 <= k < front.len() && #[trigger] front[k] == i by {
        assert(scores[i] is Some);
        let k = choose|k: int| 0 <= k < order.len() && #[trigger] order[k] == i;
        assert(front[k] == i);
    }
    assert forall|j: int, k: int| 0 <= j < k < front.len() implies ranks_before(
        rest,
        #[trigger] front[j] as int,
        #[trigger] front[k] as int,
    ) by {
        assert(front[j] == order[j]);
        assert(front[k] == order[k]);
        assert(ranks_before(scores, order[j] as int, order[k] as int));
        assert(ranks_before(scores, order[j] as int, order[end] as int));
        assert(ranks_before(scores, order[k] as int, order[end] as int));
    }
}

/// A sequence of scores has one ranking only: `is_ranking` fixes the order
/// entry by entry.
pub proof fn lemma_ranking_unique(scores: Seq<Option<isize>>, a: Seq<usize>, b: Seq<usize>)
    requires
        is_ranking(scores, a),
        is_ranking(scores, b),
    ensures
        a == b,
    decreases a.len(),
{
    if a.len() == 0 {
        if b.len() > 0 {
            assert(scores[b[0] as int] is Some);
        }
        assert(a =~= b);
    } else {
        let a_end = a.len() - 1;
        let last = a[a_end];
        assert(scores[last as int] is Some);
        let k = choose|k: int| 0 <= k < b.len() && #[trigger] b[k] == last as int;
        let b_end = b.len() - 1;
        assert(scores[b[b_end] as int] is Some);
        let j = choose|j: int| 0 <= j < a.len() && #[trigger] a[j] == b[b_end] as int;
        if k < b_end {
            assert(ranks_before(scores, b[k] as int, b[b_end] as int));
            if j < a_end {
                assert(ranks_before(scores, a[j] as int, a[a_end] as int));
            }
            assert(false);
        }
        lemma_drop_last_keeps_ranking(scores, a);
        lemma_drop_last_keeps_ranking(scores, b);
        lemma_ranking_unique(scores.update(last as int, None), a.drop_last(), b.drop_last());
        assert(a =~= a.drop_last().push(last));
        assert(b =~= b.drop_last().push(last));
    }
}

/// Ranks the positions that hold a score: by descending score, and positions
/// of equal score in ascending order.
pub fn rank_matches(scores: &Vec<Option<isize>>) -> (order: Vec<usize>)
    ensures
        is_ranking(scores@, order@),
        forall|other: Seq<usize>| #[trigger] is_ranking(scores@, other) ==> other == order@,
        order.len() <= scores.len(),
{
    let mut order: Vec<usize> = Vec::new();
    let mut i: usize = 0;
    while i < scores.len()
        invariant
            i <= scores.len(),
            order.len() <= i,
            is_ranking(scores@.take(i as int), order@),
        decreases scores.len() - i,
    {
        match scores[i] {
            Some(score) => {
                let at = insertion_point(scores, &order, score);
                proof {
                    lemma_insert_keeps_ranking(scores@, i as int, order@, at as int);
                }
                order.insert(at, i);
            },
            None => {
                proof {
                    lemma_skip_keeps_ranking(scores@, i as int, order@);
                }
            },
        }
        i = i + 1;
    }
    proof {
        assert(scores@.take(i as int) =~= scores@);
        assert forall|other: Seq<usize>| #[trigger] is_ranking(scores@, other) implies other == order@ by {
            lemma_ranking_unique(scores@, other, order@);
        }
    }
    order
}

/// The snapshot store together with the cache of the last query.
pub struct TabIndex {
    tabs: Vec<TabInfo>,
    last_query: String,
    last_results: Vec<usize>,
}

/// What a `TabIndex` holds: the snapshot, the last query, and the positions
/// in the snapshot that the last query matched, best first.
pub struct TabIndexView {
    pub tabs: Seq<TabInfoView>,
    pub last_query: Seq<char>,
    pub last_results: Seq<usize>,
}

impl View for TabIndex {
    type V = TabIndexView;

    closed spec fn view(&self) -> TabIndexView {
        TabIndexView {
            tabs: views(self.tabs@),
            last_query: self.last_query@,
            last_results: self.last_results@,
        }
    }
}

/// The state after `tabs` has been installed in `state`: the snapshot is
/// replaced, the query cache stays.
pub open spec fn installed(state: TabIndexView, tabs: Seq<TabInfoView>) -> TabIndexView {
    TabIndexView { tabs, last_query: state.last_query, last_results: state.last_results }
}

/// The records that a search hands back for a ranking: those at its first
/// `MAX_RESULTS` positions, in ranked order.
pub open spec fn top_ranked(tabs: Seq<TabInfoView>, order: Seq<usize>) -> Seq<TabInfoView> {
    Seq::new(
        if order.len() <= MAX_RESULTS { order.len() } else { MAX_RESULTS as nat },
        |k: int| tabs[order[k] as int],
    )
}

impl TabIndex {
    /// An index with an empty snapshot and an empty query cache.
    pub fn new() -> (index: TabIndex)
        ensures
            index@.tabs.len() == 0,
            index@.last_query.len() == 0,
            index@.last_results.len() == 0,
    {
        TabIndex { tabs: Vec::new(), last_query: String::new(), last_results: Vec::new() }
    }

    /// The current snapshot.
    pub fn snapshot(&self) -> (tabs: &Vec<TabInfo>)
        ensures
            views(tabs@) == self@.tabs,
    {
        &self.tabs
    }

    /// The query of the last search.
    pub fn last_query(&self) -> (query: &str)
        ensures
            query@ == self@.last_query,
    {
        self.last_query.as_str()
    }

    /// The positions that the last search matched, best first, not truncated.
    pub fn last_results(&self) -> (order: &Vec<usize>)
        ensures
            order@ == self@.last_results,
    {
        &self.last_results
    }
}

/// Replaces the snapshot of `index` by `tabs`; the query cache stays as it is.
pub fn initialize_tabs(index: &mut TabIndex, tabs: Vec<TabInfo>)
    ensures
        final(index)@ == installed(old(index)@, views(tabs@)),
{
    index.tabs = tabs;
}

/// Scores the title of each record against `query`.
fn score_titles(tabs: &Vec<TabInfo>, query: &str) -> (scores: Vec<Option<isize>>)
    ensures
        scores@ == title_scores(views(tabs@), query@),
        query@.len() == 0 ==> forall|i: int| 0 <= i < scores.len() ==> scores[i] is None,
{
    let mut scores: Vec<Option<isize>> = Vec::new();
    let mut i: usize = 0;
    while i < tabs.len()
        invariant
            i <= tabs.len(),
            scores.len() == i,
            forall|k: int| 0 <= k < i ==> scores[k] == title_scores(views(tabs@), query@)[k],
            query@.len() == 0 ==> forall|k: int| 0 <= k < i ==> scores[k] is None,
        decreases tabs.len() - i,
    {
        let score = match &tabs[i].title {
            Some(title) => best_match_score(query, title.as_str()),
            None => None,
        };
        scores.push(score);
        i = i + 1;
    }
    proof {
        assert(scores@ =~= title_scores(views(tabs@), query@));
    }
    scores
}

/// Copies of the records at the first `MAX_RESULTS` positions that `order`
/// lists, in the order of the list.
pub fn top_records(tabs: &Vec<TabInfo>, order: &Vec<usize>) -> (found: Vec<TabInfo>)
    requires
        forall|k: int| 0 <= k < order.len() ==> (#[trigger] order[k]) < tabs.len(),
    ensures
        views(found@) == top_ranked(views(tabs@), order@),
        found.len() == if order.len() <= MAX_RESULTS { order.len() } else { MAX_RESULTS },
{
    let mut found: Vec<TabInfo> = Vec::new();
    let mut k: usize = 0;
    while k < order.len() && k < MAX_RESULTS
        invariant
            k <= order.len(),
            k <= MAX_RESULTS,
            found.len() == k,
            forall|j: int| 0 <= j < order.len() ==> (#[trigger] order[j]) < tabs.len(),
            forall|j: int| 0 <= j < k ==> (#[trigger] found[j])@ == tabs[order[j] as int]@,
        decreases order.len() - k,
    {
        let at: usize = order[k];
        found.push(tabs[at].clone());
        k = k + 1;
    }
    proof {
        assert(views(found@) =~= top_ranked(views(tabs@), order@));
    }
    found
}

/// Searches the snapshot for `query`: the records whose title the query
/// matches, by descending score, records of equal score in snapshot order,
/// and of these the first `MAX_RESULTS`. The query and the full ranking are
/// kept in the cache. An empty query matches nothing.
pub fn fuzzy_search(index: &mut TabIndex, query: &str) -> (found: Vec<TabInfo>)
    ensures
        final(index)@.tabs == old(index)@.tabs,
        final(index)@.last_query == query@,
        is_ranking(title_scores(old(index)@.tabs, query@), final(index)@.last_results),
        views(found@) == top_ranked(old(index)@.tabs, final(index)@.last_results),
        found.len() <= MAX_RESULTS,
        found.len() <= old(index)@.tabs.len(),
        forall|k: int|
            0 <= k < found.len() ==> (#[trigger] found[k])@.title is Some && fuzzy_score(
                query@,
                found[k]@.title.unwrap(),
            ) is Some,
        forall|j: int, k: int|
            0 <= j < k < found.len() ==> fuzzy_score(query@, (#[trigger] found[j])@.title.unwrap()).unwrap()
                >= fuzzy_score(query@, (#[trigger] found[k])@.title.unwrap()).unwrap(),
        query@.len() == 0 ==> found.len() == 0 && final(index)@.last_results.len() == 0,
{
    let scores = score_titles(&index.tabs, query);
    let order = rank_matches(&scores);
    let found = top_records(&index.tabs, &order);
    proof {
        assert forall|j: int| 0 <= j < found.len() implies (#[trigger] found[j])@.title is Some
            && fuzzy_score(query@, found[j]@.title.unwrap()) == scores[order[j] as int]
            && scores[order[j] as int] is Some by {
            assert(order[j] < scores.len());
            assert(found[j]@ == views(found@)[j]);
        }
        assert forall|i: int, j: int| 0 <= i < j < found.len() implies fuzzy_score(
            query@,
            (#[trigger] found[i])@.title.unwrap(),
        ).unwrap() >= fuzzy_score(query@, (#[trigger] found[j])@.title.unwrap()).unwrap() by {
            assert(ranks_before(scores@, order[i] as int, order[j] as int));
        }
        if query@.len() == 0 && order.len() > 0 {
            assert(scores[order[0] as int] is Some);
        }
    }
    index.last_query = query.to_owned();
    index.last_results = order;
    found
}

/// Installing the same snapshot twice leaves the index as installing it once.
pub proof fn lemma_initialize_idempotent(state: TabIndexView, tabs: Seq<TabInfoView>)
    ensures
        installed(installed(state, tabs), tabs) == installed(state, tabs),
{
}

/// Every record that a search hands back is a record of the snapshot that
/// was installed, whatever the query: it stands in the snapshot at the
/// position that the ranking names.
pub proof fn lemma_results_from_snapshot(
    state: TabIndexView,
    tabs: Seq<TabInfoView>,
    query: Seq<char>,
    order: Seq<usize>,
)
    requires
        is_ranking(title_scores(installed(state, tabs).tabs, query), order),
    ensures
        forall|k: int|
            0 <= k < top_ranked(tabs, order).len() ==> tabs.contains(#[trigger] top_ranked(tabs, order)[k]),
{
    assert forall|k: int| 0 <= k < top_ranked(tabs, order).len() implies tabs.contains(
        #[trigger] top_ranked(tabs, order)[k],
    ) by {
        assert(order[k] < tabs.len());
        assert(tabs[order[k] as int] == top_ranked(tabs, order)[k]);
    }
}

} // verus!
