//! The tab collector: the records of the host's tabs, each joined with the
//! title of its group.

use crate::field::{
    below_zero, extract_f64, extract_string, extract_u32, extracted_number, extracted_text,
    extracted_u32, FieldValue,
};
use crate::record::{text_view, views, TabInfo, TabInfoView};
use std::collections::HashMap;
use vstd::prelude::*;

verus! {

broadcast use vstd::std_specs::hash::group_hash_axioms;

/// The fields of one element of the host's tab list, as they were read.
pub struct RawTab {
    pub id: FieldValue,
    pub title: FieldValue,
    pub url: FieldValue,
    pub last_accessed: FieldValue,
    pub group_id: FieldValue,
}

/// What the host's tab listing resolved to.
pub enum TabsReply {
    /// A value that is no array.
    NotArray,
    /// An array, element by element in the host's order.
    Array(Vec<RawTab>),
}

/// How the host answered the lookup of one group.
pub enum GroupReply {
    /// The lookup was rejected.
    Rejected,
    /// The lookup gave a group object; this is its `title` field.
    Resolved(FieldValue),
}

/// The lookup of one group and its answer.
pub struct GroupLookup {
    pub id: u32,
    pub reply: GroupReply,
}

/// Why a collection failed.
#[derive(Debug, PartialEq, Eq, Structural)]
pub enum CollectError {
    /// The tab listing gave a value that is no array.
    Shape,
}

impl CollectError {
    /// The error in words.
    pub fn message(&self) -> (text: String)
        ensures
            text@ == "Expected an array from get_all_tabs"@,
    {
        match self {
            CollectError::Shape => "Expected an array from get_all_tabs".to_owned(),
        }
    }
}

/// The title that a lookup resolved to, if it resolved to one.
pub open spec fn resolved_title(reply: GroupReply) -> Option<String> {
    match reply {
        GroupReply::Resolved(value) => extracted_text(value),
        GroupReply::Rejected => None,
    }
}

/// The group titles that a sequence of lookups gives: each group whose lookup
/// resolved to a title, with that title; of two lookups of one group the
/// later one counts.
pub open spec fn group_titles(lookups: Seq<GroupLookup>) -> Map<u32, Seq<char>>
    decreases lookups.len(),
{
    if lookups.len() == 0 {
        Map::empty()
    } else {
        let earlier = group_titles(lookups.drop_last());
        match resolved_title(lookups.last().reply) {
            Some(title) => earlier.insert(lookups.last().id, title@),
            None => earlier,
        }
    }
}

/// `held` maps the same groups as `titles`, each to a string of the same
/// characters.
pub open spec fn holds_titles(held: Map<u32, String>, titles: Map<u32, Seq<char>>) -> bool {
    &&& forall|g: u32| held.contains_key(g) <==> titles.contains_key(g)
    &&& forall|g: u32| held.contains_key(g) ==> (#[trigger] held[g])@ == titles[g]
}

/// The title joined to a record of group `group_id`.
pub open spec fn joined_title(group_id: Option<u32>, titles: Map<u32, Seq<char>>) -> Option<Seq<char>> {
    match group_id {
        Some(g) => if titles.contains_key(g) {
            Some(titles[g])
        } else {
            None
        },
        None => None,
    }
}

/// The record of one tab: its fields as extracted, and the title of its
/// group where the tab has a group and `titles` knows it.
pub open spec fn enriched(raw: RawTab, titles: Map<u32, Seq<char>>) -> TabInfoView {
    TabInfoView {
        id: extracted_u32(raw.id),
        title: text_view(extracted_text(raw.title)),
        url: text_view(extracted_text(raw.url)),
        last_accessed: extracted_number(raw.last_accessed),
        group_id: extracted_u32(raw.group_id),
        group_title: joined_title(extracted_u32(raw.group_id), titles),
    }
}

/// The records of a tab list, in the order of the list.
pub open spec fn collected(tabs: Seq<RawTab>, titles: Map<u32, Seq<char>>) -> Seq<TabInfoView> {
    Seq::new(tabs.len(), |i: int| enriched(tabs[i], titles))
}

/// Some tab of the list belongs to group `g`.
pub open spec fn names_group(tabs: Seq<RawTab>, g: u32) -> bool {
    exists|i: int| 0 <= i < tabs.len() && extracted_u32(#[trigger] tabs[i].group_id) == Some(g)
}

/// The list names group `g` before it first names group `h`.
pub open spec fn first_named_before(tabs: Seq<RawTab>, g: u32, h: u32) -> bool {
    exists|a: int|
        0 <= a < tabs.len() && extracted_u32(#[trigger] tabs[a].group_id) == Some(g) && forall|b: int|
            0 <= b <= a ==> extracted_u32(#[trigger] tabs[b].group_id) != Some(h)
}

/// Whether `ids` holds `g`.
fn holds_id(ids: &Vec<u32>, g: u32) -> (held: bool)
    ensures
        held == ids@.contains(g),
{
    let mut k: usize = 0;
    while k < ids.len()
        invariant
            k <= ids.len(),
            forall|j: int| 0 <= j < k ==> ids[j] != g,
        decreases ids.len() - k,
    {
        if ids[k] == g {
            return true;
        }
        k = k + 1;
    }
    false
}

/// The groups that the tabs of a list belong to, each once, in the order in
/// which the list first names them.
pub fn requested_group_ids(tabs: &Vec<RawTab>) -> (ids: Vec<u32>)
    ensures
        ids@.no_duplicates(),
        forall|g: u32| ids@.contains(g) <==> names_group(tabs@, g),
        forall|j: int, k: int|
            0 <= j < k < ids.len() ==> first_named_before(tabs@, #[trigger] ids[j], #[trigger] ids[k]),
{
    let mut ids: Vec<u32> = Vec::new();
    let mut i: usize = 0;
    while i < tabs.len()
        invariant
            i <= tabs.len(),
            ids@.no_duplicates(),
            forall|g: u32| ids@.contains(g) <==> names_group(tabs@.take(i as int), g),
            forall|j: int, k: int|
                0 <= j < k < ids.len() ==> first_named_before(tabs@, #[trigger] ids[j], #[trigger] ids[k]),
        decreases tabs.len() - i,
    {
        let ghost before = ids@;
        let ghost seen = tabs@.take(i as int);
        let ghost next = tabs@.take(i as int + 1);
        let group_id = extract_u32(&tabs[i].group_id);
        let mut added: bool = false;
        if let Some(g) = group_id {
            if !holds_id(&ids, g) {
                ids.push(g);
                added = true;
            }
        }
        proof {
            assert(next[i as int] == tabs[i as int]);
            assert(ids@ == if added { before.push(group_id.unwrap()) } else { before });
            assert forall|g: u32| ids@.contains(g) <==> names_group(next, g) by {
                if ids@.contains(g) {
                    let k = choose|k: int| 0 <= k < ids@.len() && ids@[k] == g;
                    if k < before.len() {
                        assert(before[k] == g);
                        assert(before.contains(g));
                        assert(names_group(seen, g));
                        let w = choose|w: int|
                            0 <= w < seen.len() && extracted_u32(#[trigger] seen[w].group_id) == Some(g);
                        assert(next[w] == seen[w]);
                        assert(names_group(next, g));
                    } else {
                        assert(extracted_u32(next[i as int].group_id) == Some(g));
                        assert(names_group(next, g));
                    }
                }
                if names_group(next, g) {
                    let w = choose|w: int|
                        0 <= w < next.len() && extracted_u32(#[trigger] next[w].group_id) == Some(g);
                    if w < i {
                        assert(seen[w] == next[w]);
                        assert(names_group(seen, g));
                    }
                    if before.contains(g) {
                        let k = choose|k: int| 0 <= k < before.len() && before[k] == g;
                        assert(ids@[k] == g);
                    } else {
                        assert(ids@[before.len() as int] == g);
                    }
                    assert(ids@.contains(g));
                }
            }
            assert forall|j: int, k: int| 0 <= j < k < ids.len() implies first_named_before(
                tabs@,
                #[trigger] ids[j],
                #[trigger] ids[k],
            ) by {
                if k < before.len() {
                    assert(ids[j] == before[j] && ids[k] == before[k]);
                } else {
                    let g = ids[j];
                    let h = ids[k];
                    assert(before[j] == g);
                    assert(before.contains(g));
                    assert(names_group(seen, g));
                    let a = choose|a: int|
                        0 <= a < seen.len() && extracted_u32(#[trigger] seen[a].group_id) == Some(g);
                    assert(seen[a] == tabs[a]);
                    assert forall|b: int| 0 <= b <= a implies extracted_u32(
                        #[trigger] tabs[b].group_id,
                    ) != Some(h) by {
                        if extracted_u32(tabs[b].group_id) == Some(h) {
                            assert(seen[b] == tabs[b]);
                            assert(names_group(seen, h));
                            assert(before.contains(h));
                        }
                    }
                }
            }
        }
        i = i + 1;
    }
    proof {
        assert(tabs@.take(i as int) =~= tabs@);
    }
    ids
}

/// The groups to look up after the tab listing has answered: those that the
/// listed tabs belong to, and none where the listing gave no array.
pub fn groups_to_look_up(reply: &TabsReply) -> (ids: Vec<u32>)
    ensures
        ids@.no_duplicates(),
        match *reply {
            TabsReply::NotArray => ids.len() == 0,
            TabsReply::Array(tabs) => {
                &&& forall|g: u32| ids@.contains(g) <==> names_group(tabs@, g)
                &&& forall|j: int, k: int|
                    0 <= j < k < ids.len() ==> first_named_before(tabs@, #[trigger] ids[j], #[trigger] ids[k])
            },
        },
{
    match reply {
        TabsReply::NotArray => Vec::new(),
        TabsReply::Array(tabs) => requested_group_ids(tabs),
    }
}

/// The group titles that the lookups resolved to: a group whose lookup was
/// rejected, or gave no title, is left out.
pub fn fetch_group_titles(lookups: &Vec<GroupLookup>) -> (titles: HashMap<u32, String>)
    ensures
        holds_titles(titles@, group_titles(lookups@)),
{
    let mut titles: HashMap<u32, String> = HashMap::new();
    let mut i: usize = 0;
    while i < lookups.len()
        invariant
            i <= lookups.len(),
            holds_titles(titles@, group_titles(lookups@.take(i as int))),
        decreases lookups.len() - i,
    {
        proof {
            assert(lookups@.take(i as int + 1).drop_last() =~= lookups@.take(i as int));
        }
        match &lookups[i].reply {
            GroupReply::Resolved(value) => {
                if let Some(title) = extract_string(value) {
                    titles.insert(lookups[i].id, title);
                }
            },
            GroupReply::Rejected => {},
        }
        i = i + 1;
    }
    proof {
        assert(lookups@.take(i as int) =~= lookups@);
    }
    titles
}

/// The record of one tab, joined with the title of its group.
fn enrich(raw: &RawTab, titles: &HashMap<u32, String>) -> (tab: TabInfo)
    ensures
        forall|known: Map<u32, Seq<char>>| holds_titles(titles@, known) ==> tab@ == enriched(*raw, known),
{
    let group_id = extract_u32(&raw.group_id);
    let group_title = match group_id {
        Some(g) => match titles.get(&g) {
            Some(title) => Some(title.clone()),
            None => None,
        },
        None => None,
    };
    TabInfo {
        id: extract_u32(&raw.id),
        title: extract_string(&raw.title),
        url: extract_string(&raw.url),
        last_accessed: extract_f64(&raw.last_accessed),
        group_id,
        group_title,
    }
}

/// Collects the tabs that the host listed: one record for each element of
/// the list, in the order of the list, each with the title that the lookup
/// of its group resolved to. Fails where the listing gave no array.
pub fn collect_tabs(reply: &TabsReply, lookups: &Vec<GroupLookup>) -> (outcome: Result<
    Vec<TabInfo>,
    CollectError,
>)
    ensures
        match *reply {
            TabsReply::NotArray => outcome == Err::<Vec<TabInfo>, CollectError>(CollectError::Shape),
            TabsReply::Array(tabs) => {
                &&& outcome is Ok
                &&& views(outcome.unwrap()@) == collected(tabs@, group_titles(lookups@))
                &&& outcome.unwrap().len() == tabs.len()
                &&& forall|i: int|
                    0 <= i < tabs.len() ==> (#[trigger] outcome.unwrap()[i])@.well_formed()
                &&& forall|i: int|
                    0 <= i < tabs.len() && (#[trigger] outcome.unwrap()[i])@.group_title is Some ==> {
                        let tab = outcome.unwrap()[i]@;
                        &&& tab.group_id is Some
                        &&& group_titles(lookups@).contains_key(tab.group_id.unwrap())
                        &&& group_titles(lookups@)[tab.group_id.unwrap()] == tab.group_title.unwrap()
                    }
                &&& forall|i: int, bits: u64|
                    0 <= i < tabs.len() && (#[trigger] tabs[i]).group_id == FieldValue::Number(bits)
                        && #[trigger] below_zero(bits) ==> {
                        &&& outcome.unwrap()[i]@.group_id is None
                        &&& outcome.unwrap()[i]@.group_title is None
                    }
            },
        },
{
    match reply {
        TabsReply::NotArray => Err(CollectError::Shape),
        TabsReply::Array(tabs) => {
            let titles = fetch_group_titles(lookups);
            let ghost known = group_titles(lookups@);
            let mut records: Vec<TabInfo> = Vec::new();
            let mut i: usize = 0;
            while i < tabs.len()
                invariant
                    i <= tabs.len(),
                    records.len() == i,
                    holds_titles(titles@, known),
                    forall|k: int| 0 <= k < i ==> (#[trigger] records[k])@ == enriched(tabs[k], known),
                decreases tabs.len() - i,
            {
                records.push(enrich(&tabs[i], &titles));
                i = i + 1;
            }
            proof {
                assert(views(records@) =~= collected(tabs@, known));
            }
            Ok(records)
        },
    }
}

/// A group has a title only where some lookup of that group resolved to
/// that title.
pub proof fn lemma_title_was_resolved(lookups: Seq<GroupLookup>, g: u32)
    requires
        group_titles(lookups).contains_key(g),
    ensures
        exists|j: int|
            0 <= j < lookups.len() && (#[trigger] lookups[j]).id == g && resolved_title(lookups[j].reply) is Some
                && resolved_title(lookups[j].reply).unwrap()@ == group_titles(lookups)[g],
    decreases lookups.len(),
{
    if lookups.len() > 0 {
        let last = lookups.last();
        if last.id == g && resolved_title(last.reply) is Some {
            assert(lookups[lookups.len() - 1] == last);
        } else {
            let earlier = lookups.drop_last();
            lemma_title_was_resolved(earlier, g);
            let j = choose|j: int|
                0 <= j < earlier.len() && (#[trigger] earlier[j]).id == g && resolved_title(earlier[j].reply) is Some
                    && resolved_title(earlier[j].reply).unwrap()@ == group_titles(earlier)[g];
            assert(lookups[j] == earlier[j]);
        }
    }
}

} // verus!
