use hn_reader::models::HackerNewsComment;
use hn_reader::models::HackerNewsItem;
use hn_reader::models::StoriesCache;
use hn_reader::tree::build_comments_tree;

fn node(id: &str, level: i32) -> HackerNewsComment {
    HackerNewsComment {
        id: id.to_string(),
        by: format!("by_{}", id),
        text: format!("text_{}", id),
        time_ago: "1 hour ago".to_string(),
        level,
        children: Vec::new(),
    }
}

fn flat(entries: &[(i32, &str)]) -> Vec<(i32, HackerNewsComment)> {
    entries.iter().map(|&(lv, id)| (lv, node(id, lv))).collect()
}

fn item(id: &str) -> HackerNewsItem {
    HackerNewsItem {
        id: id.to_string(),
        title: format!("title_{}", id),
        url: String::new(),
        domain: String::new(),
        by: "poster".to_string(),
        score: 1,
        time_ago: "now".to_string(),
        comments_count: 0,
        original_index: 0,
    }
}

#[test]
fn tree_example_two_roots() {
    let input = flat(&[(0, "a"), (1, "b"), (2, "c"), (1, "d"), (0, "e")]);
    let roots = build_comments_tree(&input);
    assert_eq!(roots.len(), 2);
    assert_eq!(roots[0].id, "a");
    assert_eq!(roots[0].children.len(), 2);
    assert_eq!(roots[0].children[0].id, "b");
    assert_eq!(roots[0].children[0].children.len(), 1);
    assert_eq!(roots[0].children[0].children[0].id, "c");
    assert_eq!(roots[0].children[1].id, "d");
    assert_eq!(roots[0].children[1].children.len(), 0);
    assert_eq!(roots[1].id, "e");
    assert_eq!(roots[1].children.len(), 0);
}

fn record_preorder(nodes: &[HackerNewsComment], depth: i32, out: &mut Vec<(i32, String)>) {
    for n in nodes {
        out.push((depth, n.id.clone()));
        record_preorder(&n.children, depth + 1, out);
    }
}

#[test]
fn tree_preorder_reproduces_well_formed_input() {
    let shape: Vec<(i32, &str)> = vec![
        (0, "a"),
        (1, "b"),
        (2, "c"),
        (3, "d"),
        (1, "e"),
        (0, "f"),
        (1, "g"),
        (0, "h"),
    ];
    let roots = build_comments_tree(&flat(&shape));
    let mut seen: Vec<(i32, String)> = Vec::new();
    record_preorder(&roots, 0, &mut seen);
    let expected: Vec<(i32, String)> = shape.iter().map(|&(lv, id)| (lv, id.to_string())).collect();
    assert_eq!(seen, expected);
}

#[test]
fn tree_fields_survive_rebuilding() {
    let roots = build_comments_tree(&flat(&[(0, "a"), (1, "b")]));
    assert_eq!(roots[0].by, "by_a");
    assert_eq!(roots[0].text, "text_a");
    assert_eq!(roots[0].time_ago, "1 hour ago");
    assert_eq!(roots[0].level, 0);
    assert_eq!(roots[0].children[0].by, "by_b");
    assert_eq!(roots[0].children[0].level, 1);
}

#[test]
fn tree_level_gap_node_is_dropped() {
    let roots = build_comments_tree(&flat(&[(0, "a"), (2, "x"), (1, "b")]));
    assert_eq!(roots.len(), 1);
    assert_eq!(roots[0].id, "a");
    assert_eq!(roots[0].children.len(), 1);
    assert_eq!(roots[0].children[0].id, "b");
    assert_eq!(roots[0].children[0].children.len(), 0);
}

#[test]
fn tree_leading_non_root_is_dropped() {
    let roots = build_comments_tree(&flat(&[(1, "q"), (0, "a")]));
    assert_eq!(roots.len(), 1);
    assert_eq!(roots[0].id, "a");
    assert_eq!(roots[0].children.len(), 0);
}

#[test]
fn tree_empty_input() {
    let roots = build_comments_tree(&flat(&[]));
    assert_eq!(roots.len(), 0);
}

#[test]
fn cache_listing_ttl_boundaries() {
    let mut c = StoriesCache::new(1000);
    assert!(!c.is_stories_cache_valid(1000, 300));
    c.update_stories(vec![item("1")], 1000);
    assert!(!c.is_stories_cache_valid(1000, 0));
    assert!(c.is_stories_cache_valid(1000, 300));
    assert!(c.is_stories_cache_valid(1299, 300));
    assert!(!c.is_stories_cache_valid(1300, 300));
    assert_eq!(c.stories.len(), 1);
    assert_eq!(c.stories[0].id, "1");
}

#[test]
fn cache_empty_snapshot_never_valid() {
    let mut c = StoriesCache::new(0);
    c.update_stories(Vec::new(), 50);
    assert!(!c.is_stories_cache_valid(50, 1000));
}

#[test]
fn cache_thread_upsert_and_ttl() {
    let mut c = StoriesCache::new(0);
    assert!(c.get_cached_comments("t1").is_none());
    assert!(!c.is_comments_cache_valid("t1", 10, 300));
    c.update_comments("t1".to_string(), vec![node("a", 0)], 10);
    assert!(!c.is_comments_cache_valid("t1", 10, 0));
    assert!(c.is_comments_cache_valid("t1", 10, 300));
    assert!(c.is_comments_cache_valid("t1", 309, 300));
    assert!(!c.is_comments_cache_valid("t1", 310, 300));
    assert!(!c.is_comments_cache_valid("t2", 10, 300));
    let got = c.get_cached_comments("t1").unwrap();
    assert_eq!(got.len(), 1);
    assert_eq!(got[0].id, "a");
    assert_eq!(c.comments_cache.len(), 1);
    c.update_comments("t2".to_string(), vec![node("b", 0), node("c", 0)], 20);
    assert_eq!(c.comments_cache.len(), 2);
    c.update_comments("t1".to_string(), vec![node("d", 0)], 30);
    assert_eq!(c.comments_cache.len(), 2);
    let got1 = c.get_cached_comments("t1").unwrap();
    assert_eq!(got1.len(), 1);
    assert_eq!(got1[0].id, "d");
    let got2 = c.get_cached_comments("t2").unwrap();
    assert_eq!(got2.len(), 2);
    assert!(c.is_comments_cache_valid("t1", 30, 1));
    assert!(c.is_comments_cache_valid("t2", 20, 1));
}
