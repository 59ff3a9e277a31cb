use bpe_merge::chain::{DLLTokenRef, Sequence};
use bpe_merge::pairs::PairCounts;
use bpe_merge::token::{TokenRef, Vocabulary};

#[test]
fn registry_returns_the_same_token_for_the_same_value() {
    let mut vocab = Vocabulary::new();
    let a = vocab.get_or_create("a");
    let b = vocab.get_or_create("b");
    let again = vocab.get_or_create("a");
    assert_eq!(a, TokenRef(0));
    assert_eq!(b, TokenRef(1));
    assert_eq!(again, a);
    assert_eq!(vocab.len(), 2);
    assert_eq!(vocab.get(a).val, "a");
    assert_eq!(vocab.get(a).id, 0);
    assert!(vocab.get(a).occurrences.is_empty());
}

#[test]
fn create_always_makes_a_new_token() {
    let mut vocab = Vocabulary::new();
    let a = vocab.get_or_create("ab");
    let other = vocab.create("ab".to_string());
    assert_ne!(a, other);
    assert_eq!(other, TokenRef(1));
    assert_eq!(vocab.get(other).val, "ab");
    // the lookup still leads to the first
    assert_eq!(vocab.get_or_create("ab"), a);
    assert_eq!(vocab.len(), 2);
}

#[test]
fn occurrences_are_kept_in_the_order_of_registration() {
    let mut vocab = Vocabulary::new();
    let a = vocab.get_or_create("a");
    let b = vocab.get_or_create("b");
    vocab.register_occurrence(a, DLLTokenRef(4));
    vocab.register_occurrence(a, DLLTokenRef(9));
    assert_eq!(vocab.get(a).occurrences, vec![DLLTokenRef(4), DLLTokenRef(9)]);
    assert!(vocab.get(b).occurrences.is_empty());
}

#[test]
fn adjust_starts_at_zero_and_may_go_below() {
    let mut counts = PairCounts::new();
    assert_eq!(counts.get("a", "b"), None);
    assert_eq!(counts.count_of("a", "b"), 0);
    counts.adjust("a", "b", -1);
    assert_eq!(counts.get("a", "b"), Some(-1));
    counts.adjust("a", "b", -2);
    assert_eq!(counts.count_of("a", "b"), -3);
    counts.adjust("a", "b", 3);
    assert_eq!(counts.get("a", "b"), Some(0));
    counts.adjust("a", "c", 0);
    assert_eq!(counts.get("a", "c"), Some(0));
    assert_eq!(counts.get("b", "a"), None);
}

#[test]
fn pairs_are_kept_apart_by_both_values() {
    let mut counts = PairCounts::new();
    counts.adjust("a", "bc", 1);
    counts.adjust("ab", "c", 2);
    counts.adjust("", "abc", 4);
    assert_eq!(counts.count_of("a", "bc"), 1);
    assert_eq!(counts.count_of("ab", "c"), 2);
    assert_eq!(counts.count_of("", "abc"), 4);
    assert_eq!(counts.count_of("abc", ""), 0);
}

#[test]
fn append_links_the_chain() {
    let mut seq = Sequence::new();
    assert_eq!(seq.head(), None);
    assert_eq!(seq.tail(), None);
    let p0 = seq.append(TokenRef(5));
    let p1 = seq.append(TokenRef(6));
    let p2 = seq.append(TokenRef(5));
    assert_eq!((p0, p1, p2), (DLLTokenRef(0), DLLTokenRef(1), DLLTokenRef(2)));
    assert_eq!(seq.head(), Some(p0));
    assert_eq!(seq.tail(), Some(p2));
    assert_eq!(seq.len(), 3);
    assert_eq!(seq.get(p0).prev, None);
    assert_eq!(seq.get(p0).next, Some(p1));
    assert_eq!(seq.get(p1).prev, Some(p0));
    assert_eq!(seq.get(p1).next, Some(p2));
    assert_eq!(seq.get(p2).next, None);
    assert_eq!(seq.get(p1).token, TokenRef(6));
    assert_eq!(seq.get(p1).id, 1);
}

#[test]
fn splice_in_the_middle_rewires_both_sides() {
    let mut seq = Sequence::new();
    let p0 = seq.append(TokenRef(0));
    let p1 = seq.append(TokenRef(1));
    let p2 = seq.append(TokenRef(2));
    let p3 = seq.append(TokenRef(3));
    let m = seq.splice(p1, TokenRef(9));
    assert_eq!(m, DLLTokenRef(4));
    assert_eq!(seq.len(), 3);
    assert_eq!(seq.allocated(), 5);
    assert_eq!(seq.head(), Some(p0));
    assert_eq!(seq.tail(), Some(p3));
    assert_eq!(seq.get(p0).next, Some(m));
    assert_eq!(seq.get(m).prev, Some(p0));
    assert_eq!(seq.get(m).next, Some(p3));
    assert_eq!(seq.get(p3).prev, Some(m));
    assert_eq!(seq.get(m).token, TokenRef(9));
    assert_eq!(seq.get(p1).next, None);
    assert_eq!(seq.get(p1).prev, None);
    assert_eq!(seq.get(p2).next, None);
    assert_eq!(seq.get(p2).prev, None);
}

#[test]
fn splice_at_the_head_moves_the_head() {
    let mut seq = Sequence::new();
    let p0 = seq.append(TokenRef(0));
    let _p1 = seq.append(TokenRef(1));
    let p2 = seq.append(TokenRef(2));
    let m = seq.splice(p0, TokenRef(9));
    assert_eq!(seq.head(), Some(m));
    assert_eq!(seq.get(m).prev, None);
    assert_eq!(seq.get(m).next, Some(p2));
    assert_eq!(seq.get(p2).prev, Some(m));
    assert_eq!(seq.tail(), Some(p2));
}

#[test]
fn splice_of_the_whole_chain_leaves_one_position() {
    let mut seq = Sequence::new();
    let p0 = seq.append(TokenRef(0));
    let _p1 = seq.append(TokenRef(1));
    let m = seq.splice(p0, TokenRef(2));
    assert_eq!(seq.head(), Some(m));
    assert_eq!(seq.tail(), Some(m));
    assert_eq!(seq.len(), 1);
    assert_eq!(seq.get(m).prev, None);
    assert_eq!(seq.get(m).next, None);
}
