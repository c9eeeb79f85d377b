use topiq::{SubscriptionId, TopicTrie};

fn sid(n: u64) -> SubscriptionId {
    SubscriptionId(n)
}

fn sorted(mut v: Vec<SubscriptionId>) -> Vec<SubscriptionId> {
    v.sort_by_key(|s| s.0);
    v
}

#[test]
fn exact_match() {
    let mut trie = TopicTrie::new();
    trie.insert("a.b.c", sid(1));
    assert_eq!(trie.matches("a.b.c"), vec![sid(1)]);
    assert!(trie.matches("a.b").is_empty());
    assert!(trie.matches("a.b.c.d").is_empty());
}

#[test]
fn single_token_wildcard() {
    let mut trie = TopicTrie::new();
    trie.insert("a.*.c", sid(1));
    assert_eq!(trie.matches("a.b.c"), vec![sid(1)]);
    assert_eq!(trie.matches("a.x.c"), vec![sid(1)]);
    assert!(trie.matches("a.b.d").is_empty());
    assert!(trie.matches("a.b.c.d").is_empty());
}

#[test]
fn suffix_wildcard() {
    let mut trie = TopicTrie::new();
    trie.insert("a.>", sid(1));
    assert_eq!(trie.matches("a.b"), vec![sid(1)]);
    assert_eq!(trie.matches("a.b.c"), vec![sid(1)]);
    assert_eq!(trie.matches("a.b.c.d"), vec![sid(1)]);
    assert!(trie.matches("a").is_empty()); // `>` matches ONE or more
    assert!(trie.matches("b.c").is_empty());
}

#[test]
fn root_suffix_wildcard() {
    let mut trie = TopicTrie::new();
    trie.insert(">", sid(1));
    assert_eq!(trie.matches("a"), vec![sid(1)]);
    assert_eq!(trie.matches("a.b"), vec![sid(1)]);
    assert_eq!(trie.matches("x.y.z"), vec![sid(1)]);
}

#[test]
fn multiple_subscriptions_same_pattern() {
    let mut trie = TopicTrie::new();
    trie.insert("a.b", sid(1));
    trie.insert("a.b", sid(2));
    assert_eq!(sorted(trie.matches("a.b")), vec![sid(1), sid(2)]);
}

#[test]
fn multiple_patterns_match_same_topic() {
    let mut trie = TopicTrie::new();
    trie.insert("a.b.c", sid(1));
    trie.insert("a.*.c", sid(2));
    trie.insert("a.>", sid(3));
    assert_eq!(sorted(trie.matches("a.b.c")), vec![sid(1), sid(2), sid(3)]);
}

#[test]
fn star_at_different_positions() {
    let mut trie = TopicTrie::new();
    trie.insert("*.b.c", sid(1));
    trie.insert("a.*.c", sid(2));
    trie.insert("a.b.*", sid(3));
    let result = sorted(trie.matches("a.b.c"));
    assert_eq!(result, vec![sid(1), sid(2), sid(3)]);
}

#[test]
fn no_match_returns_empty() {
    let mut trie = TopicTrie::new();
    trie.insert("a.b.c", sid(1));
    assert!(trie.matches("x.y.z").is_empty());
}

#[test]
fn remove_exact() {
    let mut trie = TopicTrie::new();
    trie.insert("a.b", sid(1));
    trie.insert("a.b", sid(2));
    assert!(trie.remove("a.b", sid(1)));
    assert_eq!(trie.matches("a.b"), vec![sid(2)]);
}

#[test]
fn remove_wildcard() {
    let mut trie = TopicTrie::new();
    trie.insert("a.>", sid(1));
    assert!(trie.remove("a.>", sid(1)));
    assert!(trie.matches("a.b").is_empty());
}

#[test]
fn remove_star() {
    let mut trie = TopicTrie::new();
    trie.insert("a.*.c", sid(1));
    assert!(trie.remove("a.*.c", sid(1)));
    assert!(trie.matches("a.b.c").is_empty());
}

#[test]
fn remove_nonexistent_returns_false() {
    let mut trie = TopicTrie::new();
    trie.insert("a.b", sid(1));
    assert!(!trie.remove("a.b", sid(99)));
    assert!(!trie.remove("x.y", sid(1)));
}

#[test]
fn empty_trie_matches_nothing() {
    let trie = TopicTrie::new();
    assert!(trie.matches("anything").is_empty());
}

#[test]
fn single_token_subject() {
    let mut trie = TopicTrie::new();
    trie.insert("hello", sid(1));
    assert_eq!(trie.matches("hello"), vec![sid(1)]);
    assert!(trie.matches("world").is_empty());
}

#[test]
fn star_only() {
    let mut trie = TopicTrie::new();
    trie.insert("*", sid(1));
    assert_eq!(trie.matches("anything"), vec![sid(1)]);
    assert!(trie.matches("a.b").is_empty()); // * matches exactly one token
}

#[test]
fn deep_nesting() {
    let mut trie = TopicTrie::new();
    trie.insert("a.b.c.d.e.f", sid(1));
    trie.insert("a.b.c.>", sid(2));
    let result = sorted(trie.matches("a.b.c.d.e.f"));
    assert_eq!(result, vec![sid(1), sid(2)]);
}

#[test]
fn insert_then_remove_restores_matches() {
    let mut trie = TopicTrie::new();
    trie.insert("a.*", sid(1));
    trie.insert("a.b", sid(7));
    trie.insert("a.>", sid(7));
    assert_eq!(sorted(trie.matches("a.b")), vec![sid(1), sid(7), sid(7)]);
    assert!(trie.remove("a.>", sid(7)));
    assert_eq!(sorted(trie.matches("a.b")), vec![sid(1), sid(7)]);
    assert!(!trie.remove("a.>", sid(7)));
    assert!(trie.remove("a.b", sid(7)));
    assert!(trie.remove("a.*", sid(1)));
    assert!(trie.matches("a.b").is_empty());
}

#[test]
fn tokens_after_gt_are_not_looked_at() {
    let mut trie = TopicTrie::new();
    trie.insert("a.>.x", sid(3));
    assert_eq!(trie.matches("a.q.r"), vec![sid(3)]);
    assert!(trie.remove("a.>.y", sid(3)));
    assert!(trie.matches("a.q").is_empty());
}

#[test]
fn wildcard_topic_tokens_only_meet_wildcard_patterns() {
    let mut trie = TopicTrie::new();
    trie.insert("a.b", sid(1));
    trie.insert("a.*", sid(2));
    assert_eq!(trie.matches("a.*"), vec![sid(2)]);
}

#[test]
fn duplicate_registration_counts_twice() {
    let mut trie = TopicTrie::new();
    trie.insert("x", sid(5));
    trie.insert("x", sid(5));
    assert_eq!(trie.matches("x"), vec![sid(5), sid(5)]);
    assert!(trie.remove("x", sid(5)));
    assert_eq!(trie.matches("x"), vec![sid(5)]);
}
