use sublime_fuzzy::best_match;
use tab_search::record::TabInfo;
use tab_search::search::{
    fuzzy_search, initialize_tabs, rank_matches, top_records, TabIndex, MAX_RESULTS,
};

fn titled(id: u32, title: &str) -> TabInfo {
    TabInfo {
        id: Some(id),
        title: Some(String::from(title)),
        url: Some(format!("https://example.org/{}", id)),
        last_accessed: Some(f64::from(id).to_bits()),
        group_id: None,
        group_title: None,
    }
}

fn untitled(id: u32) -> TabInfo {
    TabInfo { id: Some(id), title: None, url: None, last_accessed: None, group_id: None, group_title: None }
}

fn index_of(titles: &[&str]) -> TabIndex {
    let mut index = TabIndex::new();
    let tabs: Vec<TabInfo> = titles.iter().enumerate().map(|(i, t)| titled(i as u32, t)).collect();
    initialize_tabs(&mut index, tabs);
    index
}

fn score(query: &str, title: &str) -> Option<isize> {
    best_match(query, title).map(|m| m.score())
}

#[test]
fn fuzzy_ranking() {
    let mut index = index_of(&["Rust Book", "Reddit", "Amazon Music", "GitHub"]);
    let found = fuzzy_search(&mut index, "rb");
    assert!(!found.is_empty());
    assert_eq!(found[0].title.as_deref(), Some("Rust Book"));
    assert_eq!(found[0].id, Some(0));
    for record in found.iter() {
        let title = record.title.as_deref().unwrap();
        assert!(title == "Rust Book" || title == "Reddit");
        assert!(score("rb", title).is_some());
    }
    for pair in found.windows(2) {
        let first = score("rb", pair[0].title.as_deref().unwrap()).unwrap();
        let second = score("rb", pair[1].title.as_deref().unwrap()).unwrap();
        assert!(first >= second);
    }
    assert_eq!(index.last_query(), "rb");
    assert_eq!(index.last_results()[0], 0);
    assert_eq!(index.last_results().len(), found.len());
}

#[test]
fn ranking_follows_the_scores() {
    let titles = ["some_release", "a_release", "unrelated", "Release Notes", "rls"];
    let mut index = index_of(&titles);
    let found = fuzzy_search(&mut index, "release");
    let mut expected: Vec<(usize, isize)> = Vec::new();
    for (i, title) in titles.iter().enumerate() {
        if let Some(s) = score("release", title) {
            expected.push((i, s));
        }
    }
    expected.sort_by(|a, b| b.1.cmp(&a.1));
    let order: Vec<usize> = expected.iter().map(|e| e.0).collect();
    assert_eq!(order.len(), 3);
    assert_eq!(index.last_results(), &order);
    assert_eq!(found.len(), 3);
    for (k, record) in found.iter().enumerate() {
        assert_eq!(record.id, Some(order[k] as u32));
        assert_eq!(record.title.as_deref(), Some(titles[order[k]]));
    }
    assert_eq!(score("release", "a_release"), score("release", "some_release"));
    let first = order.iter().position(|&i| i == 0).unwrap();
    let second = order.iter().position(|&i| i == 1).unwrap();
    assert!(first < second);
}

#[test]
fn known_score_decides_the_rank() {
    assert_eq!(score("scc", "SoccerCartoonController"), Some(172));
    let mut index = index_of(&["success", "SoccerCartoonController", "scc"]);
    let found = fuzzy_search(&mut index, "scc");
    assert_eq!(found.len(), 3);
    let scores: Vec<isize> =
        found.iter().map(|r| score("scc", r.title.as_deref().unwrap()).unwrap()).collect();
    assert!(scores[0] >= scores[1] && scores[1] >= scores[2]);
    assert!(scores.contains(&172));
}

#[test]
fn empty_snapshot() {
    let mut index = TabIndex::new();
    initialize_tabs(&mut index, Vec::new());
    let found = fuzzy_search(&mut index, "anything");
    assert!(found.is_empty());
    assert_eq!(index.last_query(), "anything");
    assert!(index.last_results().is_empty());
}

#[test]
fn truncation() {
    let mut index = TabIndex::new();
    let tabs: Vec<TabInfo> = (0..120u32).map(|i| titled(i, &format!("Page number {}", i))).collect();
    initialize_tabs(&mut index, tabs);
    let found = fuzzy_search(&mut index, "page");
    assert_eq!(found.len(), 50);
    assert_eq!(found.len(), MAX_RESULTS);
    assert_eq!(index.last_results().len(), 120);
    let mut seen = index.last_results().clone();
    seen.sort();
    assert_eq!(seen, (0..120usize).collect::<Vec<usize>>());
    for (k, record) in found.iter().enumerate() {
        assert_eq!(record.id, Some(index.last_results()[k] as u32));
    }
}

#[test]
fn equal_scores_keep_snapshot_order() {
    let mut index = index_of(&["Inbox", "Other", "Inbox", "Inbox", "Other", "Inbox"]);
    let found = fuzzy_search(&mut index, "inbox");
    assert_eq!(index.last_results(), &vec![0, 2, 3, 5]);
    let ids: Vec<Option<u32>> = found.iter().map(|r| r.id).collect();
    assert_eq!(ids, vec![Some(0), Some(2), Some(3), Some(5)]);
}

#[test]
fn untitled_records_are_skipped() {
    let mut index = TabIndex::new();
    initialize_tabs(&mut index, vec![untitled(0), titled(1, "Mail"), untitled(2), titled(3, "Email")]);
    let found = fuzzy_search(&mut index, "mail");
    assert_eq!(found.len(), 2);
    for record in found.iter() {
        assert!(record.title.is_some());
    }
    let mut positions = index.last_results().clone();
    positions.sort();
    assert_eq!(positions, vec![1, 3]);
}

#[test]
fn empty_query_matches_nothing() {
    let mut index = index_of(&["Rust Book", "Reddit"]);
    let found = fuzzy_search(&mut index, "");
    assert!(found.is_empty());
    assert_eq!(index.last_query(), "");
    assert!(index.last_results().is_empty());
    assert_eq!(index.snapshot().len(), 2);
}

#[test]
fn query_longer_than_any_title_matches_nothing() {
    let mut index = index_of(&["ab", "abc"]);
    let found = fuzzy_search(&mut index, "abcdefgh");
    assert!(found.is_empty());
    assert_eq!(index.last_query(), "abcdefgh");
    assert!(index.last_results().is_empty());
}

#[test]
fn results_are_records_of_the_snapshot() {
    let mut index = index_of(&["Rust Book", "Ruby", "Crab", "Rabbit", "Tab Bar"]);
    let found = fuzzy_search(&mut index, "rb");
    assert!(found.len() <= MAX_RESULTS);
    assert!(found.len() <= index.snapshot().len());
    for (k, record) in found.iter().enumerate() {
        let at = index.last_results()[k];
        let source = &index.snapshot()[at];
        assert_eq!(record.id, source.id);
        assert_eq!(record.title, source.title);
        assert_eq!(record.url, source.url);
        assert_eq!(record.last_accessed, source.last_accessed);
        assert_eq!(record.group_id, source.group_id);
        assert_eq!(record.group_title, source.group_title);
    }
}

#[test]
fn search_leaves_the_snapshot_alone() {
    let mut index = index_of(&["Rust Book", "Reddit"]);
    fuzzy_search(&mut index, "r");
    fuzzy_search(&mut index, "book");
    assert_eq!(index.snapshot().len(), 2);
    assert_eq!(index.snapshot()[0].title.as_deref(), Some("Rust Book"));
    assert_eq!(index.snapshot()[1].title.as_deref(), Some("Reddit"));
    assert_eq!(index.last_query(), "book");
    assert_eq!(index.last_results(), &vec![0]);
}

#[test]
fn installing_twice_is_installing_once() {
    let tabs = || vec![titled(1, "Docs"), untitled(2), titled(3, "Mail")];
    let mut once = TabIndex::new();
    initialize_tabs(&mut once, tabs());
    let mut twice = TabIndex::new();
    initialize_tabs(&mut twice, tabs());
    initialize_tabs(&mut twice, tabs());
    assert_eq!(once.snapshot().len(), twice.snapshot().len());
    for (a, b) in once.snapshot().iter().zip(twice.snapshot().iter()) {
        assert_eq!(a.id, b.id);
        assert_eq!(a.title, b.title);
    }
    let first = fuzzy_search(&mut once, "m");
    let second = fuzzy_search(&mut twice, "m");
    assert_eq!(first.len(), second.len());
    assert_eq!(once.last_results(), twice.last_results());
}

#[test]
fn installing_replaces_the_snapshot_and_keeps_the_cache() {
    let mut index = index_of(&["Docs", "Mail"]);
    fuzzy_search(&mut index, "mail");
    initialize_tabs(&mut index, vec![titled(9, "News")]);
    assert_eq!(index.snapshot().len(), 1);
    assert_eq!(index.snapshot()[0].id, Some(9));
    assert_eq!(index.last_query(), "mail");
    assert_eq!(index.last_results(), &vec![1]);
}

#[test]
fn new_index_is_empty() {
    let index = TabIndex::new();
    assert!(index.snapshot().is_empty());
    assert_eq!(index.last_query(), "");
    assert!(index.last_results().is_empty());
}

#[test]
fn rank_matches_orders_by_score_then_position() {
    let scores = vec![Some(5), None, Some(9), Some(5), Some(-1), None, Some(9)];
    assert_eq!(rank_matches(&scores), vec![2, 6, 0, 3, 4]);
    assert_eq!(rank_matches(&vec![None, None]), Vec::<usize>::new());
    assert_eq!(rank_matches(&Vec::new()), Vec::<usize>::new());
    assert_eq!(rank_matches(&vec![Some(isize::MIN), Some(isize::MAX), Some(0)]), vec![1, 2, 0]);
    assert_eq!(rank_matches(&vec![Some(1), Some(2), Some(3), Some(4)]), vec![3, 2, 1, 0]);
    assert_eq!(rank_matches(&vec![Some(3), Some(3), Some(3)]), vec![0, 1, 2]);
}

#[test]
fn tab_info_clone_keeps_every_field() {
    let tab = TabInfo {
        id: Some(4),
        title: Some(String::from("Mail")),
        url: Some(String::from("b")),
        last_accessed: Some(20.0f64.to_bits()),
        group_id: Some(7),
        group_title: Some(String::from("Work")),
    };
    let copy = tab.clone();
    assert_eq!(copy.id, Some(4));
    assert_eq!(copy.title.as_deref(), Some("Mail"));
    assert_eq!(copy.url.as_deref(), Some("b"));
    assert_eq!(copy.last_accessed.map(f64::from_bits), Some(20.0));
    assert_eq!(copy.group_id, Some(7));
    assert_eq!(copy.group_title.as_deref(), Some("Work"));
}

#[test]
fn top_records_follow_the_order_and_stop_at_the_limit() {
    let tabs: Vec<TabInfo> = (0..60u32).map(|i| titled(i, "t")).collect();
    let few = top_records(&tabs, &vec![5, 0, 59]);
    let ids: Vec<Option<u32>> = few.iter().map(|r| r.id).collect();
    assert_eq!(ids, vec![Some(5), Some(0), Some(59)]);
    assert!(top_records(&tabs, &Vec::new()).is_empty());
    let order: Vec<usize> = (0..60usize).rev().collect();
    let many = top_records(&tabs, &order);
    assert_eq!(many.len(), 50);
    for (k, record) in many.iter().enumerate() {
        assert_eq!(record.id, Some(59 - k as u32));
    }
    let exactly: Vec<usize> = (0..50usize).collect();
    assert_eq!(top_records(&tabs, &exactly).len(), 50);
    let one_more: Vec<usize> = (0..51usize).collect();
    assert_eq!(top_records(&tabs, &one_more).len(), 50);
}
