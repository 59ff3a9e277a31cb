use bpe_merge::chain::{DLLToken, DLLTokenRef, Sequence};
use bpe_merge::merge::{merge_at, merge_tokens, recount_around};
use bpe_merge::pairs::PairCounts;
use bpe_merge::scan::count_token_pairs;
use bpe_merge::token::{Token, TokenRef};
use bpe_merge::tokenizer::{init_tokens, live_tokens, tokenizer, vocabulary_index};
use std::collections::HashSet;

fn five() -> Sequence {
    let mut seq = Sequence::new();
    for t in [10usize, 11, 12, 13, 14] {
        seq.append(TokenRef(t));
    }
    seq
}

#[test]
fn iterate_runs_from_a_position_to_the_end() {
    let seq = five();
    let all = seq.iterate(DLLTokenRef(0));
    assert_eq!(all, (0..5).map(DLLTokenRef).collect::<Vec<_>>());
    let rest = seq.iterate(DLLTokenRef(3));
    assert_eq!(rest, vec![DLLTokenRef(3), DLLTokenRef(4)]);
    // it can be started again from the same place
    assert_eq!(seq.iterate(DLLTokenRef(3)), rest);
    assert_eq!(seq.iterate(DLLTokenRef(4)), vec![DLLTokenRef(4)]);
}

#[test]
fn iterate_from_a_replaced_position_gives_it_alone() {
    let mut seq = five();
    let m = seq.splice(DLLTokenRef(1), TokenRef(20));
    assert_eq!(seq.iterate(DLLTokenRef(1)), vec![DLLTokenRef(1)]);
    assert_eq!(seq.iterate(DLLTokenRef(2)), vec![DLLTokenRef(2)]);
    assert_eq!(
        seq.iterate(DLLTokenRef(0)),
        vec![DLLTokenRef(0), m, DLLTokenRef(3), DLLTokenRef(4)]
    );
}

#[test]
fn window_takes_up_to_the_limit() {
    let seq = five();
    let (first, next) = seq.window(DLLTokenRef(0), 2);
    assert_eq!(first, vec![DLLTokenRef(0), DLLTokenRef(1)]);
    assert_eq!(next, Some(DLLTokenRef(2)));
    let (tail, next) = seq.window(DLLTokenRef(3), 2);
    assert_eq!(tail, vec![DLLTokenRef(3), DLLTokenRef(4)]);
    assert_eq!(next, None);
    let (long, next) = seq.window(DLLTokenRef(1), 32);
    assert_eq!(long.len(), 4);
    assert_eq!(next, None);
    let (none, next) = seq.window(DLLTokenRef(1), 0);
    assert!(none.is_empty());
    assert_eq!(next, Some(DLLTokenRef(1)));
}

#[test]
fn targets_are_the_tokens_that_come_next() {
    let seq = five();
    assert_eq!(seq.targets(DLLTokenRef(0), 2), vec![TokenRef(11), TokenRef(12)]);
    assert_eq!(seq.targets(DLLTokenRef(3), 2), vec![TokenRef(14)]);
    assert_eq!(seq.targets(DLLTokenRef(4), 2), Vec::<TokenRef>::new());
    assert_eq!(seq.targets(DLLTokenRef(0), 0), Vec::<TokenRef>::new());
    assert_eq!(seq.targets(DLLTokenRef(0), 99).len(), 4);
}

#[test]
fn only_linked_positions_are_on_the_chain() {
    let mut seq = five();
    assert!(seq.is_on_chain(DLLTokenRef(0)));
    assert!(seq.is_on_chain(DLLTokenRef(4)));
    assert!(!seq.is_on_chain(DLLTokenRef(5)));
    let m = seq.splice(DLLTokenRef(0), TokenRef(20));
    assert!(!seq.is_on_chain(DLLTokenRef(0)));
    assert!(!seq.is_on_chain(DLLTokenRef(1)));
    assert!(seq.is_on_chain(m));
    assert!(seq.is_on_chain(DLLTokenRef(2)));
    let mut one = Sequence::new();
    assert!(!one.is_on_chain(DLLTokenRef(0)));
    let p = one.append(TokenRef(0));
    assert!(one.is_on_chain(p));
}

#[test]
fn live_tokens_lists_each_token_once_in_order() {
    let (vocab, seq) = init_tokens("banana".to_string());
    let live = live_tokens(&seq, &vocab);
    let spelled: Vec<&str> = live.iter().map(|t| vocab.get(*t).val.as_str()).collect();
    assert_eq!(spelled, vec!["b", "a", "n"]);
    assert_eq!(live, vec![TokenRef(0), TokenRef(1), TokenRef(2)]);
}

#[test]
fn live_tokens_leave_out_what_was_merged_away() {
    let (mut vocab, mut seq) = init_tokens("abab".to_string());
    let mut counts = PairCounts::new();
    let (a, b) = count_token_pairs(&seq, &vocab, &mut counts).unwrap();
    merge_tokens(a, b, &mut counts, &mut vocab, &mut seq);
    assert_eq!(vocab.len(), 3);
    assert_eq!(live_tokens(&seq, &vocab), vec![TokenRef(2)]);
}

#[test]
fn vocabulary_index_gives_each_token_its_place() {
    let tokens = vec![TokenRef(4), TokenRef(0), TokenRef(2)];
    let index = vocabulary_index(&tokens, 6);
    assert_eq!(index, vec![Some(1), None, Some(2), None, Some(0), None]);
    assert_eq!(vocabulary_index(&Vec::new(), 2), vec![None, None]);
    assert_eq!(vocabulary_index(&Vec::new(), 0), Vec::<Option<usize>>::new());
}

#[test]
fn vocabulary_index_of_a_run() {
    let out = tokenizer("abcabcab".to_string());
    let index = vocabulary_index(&out.tokens, out.vocab.len());
    assert_eq!(index.len(), out.vocab.len());
    for (i, t) in out.tokens.iter().enumerate() {
        assert_eq!(index[t.0], Some(i));
    }
    assert_eq!(index.iter().filter(|e| e.is_some()).count(), out.tokens.len());
}

#[test]
fn tokens_are_compared_and_hashed_by_identifier() {
    let plain = Token::new(3, "a".to_string());
    let mut busy = Token::new(3, "zzz".to_string());
    busy.occurrences.push(DLLTokenRef(8));
    let other = Token::new(4, "a".to_string());
    assert!(plain == busy);
    assert!(plain != other);
    let mut set = HashSet::new();
    assert!(set.insert(plain));
    assert!(!set.insert(busy));
    assert!(set.insert(other));
    assert_eq!(set.len(), 2);
}

#[test]
fn positions_are_compared_and_hashed_by_identifier() {
    let here = DLLToken::new(1, TokenRef(0), None);
    let moved = DLLToken::new(1, TokenRef(9), Some(DLLTokenRef(0)));
    let there = DLLToken::new(2, TokenRef(0), None);
    assert!(here == moved);
    assert!(here != there);
    let mut set = HashSet::new();
    assert!(set.insert(here));
    assert!(!set.insert(moved));
    assert!(set.insert(there));
    let mut handles = HashSet::new();
    assert!(handles.insert(TokenRef(1)));
    assert!(!handles.insert(TokenRef(1)));
    assert!(handles.insert(TokenRef(2)));
    let mut places = HashSet::new();
    assert!(places.insert(DLLTokenRef(1)));
    assert!(!places.insert(DLLTokenRef(1)));
}

#[test]
fn recount_moves_the_counts_around_one_replacement() {
    // x a b y  ->  x ab y
    let mut counts = PairCounts::new();
    counts.adjust("x", "a", 1);
    counts.adjust("a", "b", 1);
    counts.adjust("b", "y", 1);
    recount_around(&mut counts, Some("x"), "a", "b", "ab", Some("y"));
    assert_eq!(counts.count_of("x", "a"), 0);
    assert_eq!(counts.count_of("a", "b"), 0);
    assert_eq!(counts.count_of("b", "y"), 0);
    assert_eq!(counts.count_of("x", "ab"), 1);
    assert_eq!(counts.count_of("ab", "y"), 1);
}

#[test]
fn recount_without_neighbours_touches_the_pair_alone() {
    let mut counts = PairCounts::new();
    counts.adjust("a", "b", 1);
    recount_around(&mut counts, None, "a", "b", "ab", None);
    assert_eq!(counts.get("a", "b"), Some(0));
    assert_eq!(counts.get("ab", "ab"), None);
}

#[test]
fn recount_of_a_run_of_one_value_adds_up() {
    // a a a a: the pair at places 1 and 2 is replaced, both neighbours are `a`
    let mut counts = PairCounts::new();
    counts.adjust("a", "a", 3);
    recount_around(&mut counts, Some("a"), "a", "a", "aa", Some("a"));
    assert_eq!(counts.count_of("a", "a"), 0);
    assert_eq!(counts.count_of("a", "aa"), 1);
    assert_eq!(counts.count_of("aa", "a"), 1);
}

#[test]
fn recount_may_leave_a_count_below_zero() {
    let mut counts = PairCounts::new();
    recount_around(&mut counts, Some("x"), "a", "b", "ab", None);
    assert_eq!(counts.get("a", "b"), Some(-1));
    assert_eq!(counts.get("x", "a"), Some(-1));
    assert_eq!(counts.get("x", "ab"), Some(1));
}

#[test]
fn merge_at_replaces_one_pair() {
    let (mut vocab, mut seq) = init_tokens("xabab".to_string());
    let mut counts = PairCounts::new();
    count_token_pairs(&seq, &vocab, &mut counts);
    let m = vocab.create("ab".to_string());
    let r = merge_at(DLLTokenRef(1), m, &mut counts, &mut vocab, &mut seq);
    assert_eq!(r, DLLTokenRef(5));
    assert_eq!(
        seq.iterate(seq.head().unwrap()),
        vec![DLLTokenRef(0), r, DLLTokenRef(3), DLLTokenRef(4)]
    );
    assert_eq!(seq.get(r).token, m);
    assert_eq!(vocab.get(m).occurrences, vec![r]);
    assert_eq!(counts.count_of("a", "b"), 1);
    assert_eq!(counts.count_of("x", "a"), 0);
    assert_eq!(counts.count_of("x", "ab"), 1);
    assert_eq!(counts.count_of("b", "a"), 0);
    assert_eq!(counts.count_of("ab", "a"), 1);
}

#[test]
fn merge_works_on_a_tracker_that_is_off() {
    let (mut vocab, mut seq) = init_tokens("abab".to_string());
    let mut counts = PairCounts::new();
    counts.adjust("a", "b", -7);
    counts.adjust("q", "q", 2);
    let a = seq.get(DLLTokenRef(0)).token;
    let b = seq.get(DLLTokenRef(1)).token;
    merge_tokens(a, b, &mut counts, &mut vocab, &mut seq);
    // two pairs `ab` and one pair `ba` went, one pair of the merged token came
    assert_eq!(counts.count_of("a", "b"), -9);
    assert_eq!(counts.count_of("b", "a"), -1);
    assert_eq!(counts.count_of("ab", "ab"), 1);
    assert_eq!(counts.count_of("q", "q"), 2);
}
