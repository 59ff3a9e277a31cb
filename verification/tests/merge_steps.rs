use bpe_merge::chain::{DLLToken, DLLTokenRef, Sequence};
use bpe_merge::merge::merge_tokens;
use bpe_merge::pairs::PairCounts;
use bpe_merge::scan::{best_pair, count_token_pairs};
use bpe_merge::token::{Token, TokenRef, Vocabulary};
use bpe_merge::tokenizer::init_tokens;

fn words(vocab: &Vocabulary, seq: &Sequence) -> Vec<String> {
    let mut out = Vec::new();
    let mut next = seq.head();
    while let Some(p) = next {
        let node = seq.get(p);
        out.push(vocab.get(node.token).val.clone());
        next = node.next;
    }
    out
}

fn names(vocab: &Vocabulary, pair: Option<(TokenRef, TokenRef)>) -> Option<(String, String)> {
    pair.map(|(a, b)| (vocab.get(a).val.clone(), vocab.get(b).val.clone()))
}

fn pair(a: &str, b: &str) -> Option<(String, String)> {
    Some((a.to_string(), b.to_string()))
}

#[test]
fn aaab_step_by_step() {
    let (mut vocab, mut seq) = init_tokens("aaab".to_string());
    assert_eq!(words(&vocab, &seq), vec!["a", "a", "a", "b"]);
    let mut counts = PairCounts::new();
    let first = count_token_pairs(&seq, &vocab, &mut counts);
    assert_eq!(counts.get("a", "a"), Some(2));
    assert_eq!(counts.get("a", "b"), Some(1));
    assert_eq!(counts.get("b", "a"), None);
    assert_eq!(names(&vocab, first), pair("a", "a"));

    let (a, b) = first.unwrap();
    let head = merge_tokens(a, b, &mut counts, &mut vocab, &mut seq);
    assert_eq!(words(&vocab, &seq), vec!["aa", "a", "b"]);
    assert_eq!(head, seq.head());
    assert!(head.is_some());
    assert_eq!(counts.count_of("aa", "a"), 1);
    assert_eq!(counts.count_of("a", "b"), 1);
    assert_eq!(counts.count_of("a", "a"), 0);
    // the third `a` and the `b` are the positions they were
    let third = seq.get(seq.head().unwrap()).next.unwrap();
    assert_eq!(third, DLLTokenRef(2));
    assert_eq!(seq.get(third).next, Some(DLLTokenRef(3)));
    assert_eq!(seq.len(), 3);
    assert_eq!(seq.allocated(), 5);

    let second = best_pair(&seq, &vocab, &counts);
    assert_eq!(names(&vocab, second), pair("aa", "a"));
    let (a, b) = second.unwrap();
    merge_tokens(a, b, &mut counts, &mut vocab, &mut seq);
    assert_eq!(words(&vocab, &seq), vec!["aaa", "b"]);
    assert_eq!(counts.count_of("aaa", "b"), 1);
    assert_eq!(counts.count_of("aa", "a"), 0);
    assert_eq!(counts.count_of("a", "b"), 0);

    let third = best_pair(&seq, &vocab, &counts);
    assert_eq!(names(&vocab, third), pair("aaa", "b"));
    let (a, b) = third.unwrap();
    merge_tokens(a, b, &mut counts, &mut vocab, &mut seq);
    assert_eq!(words(&vocab, &seq), vec!["aaab"]);
    assert_eq!(best_pair(&seq, &vocab, &counts), None);
    assert_eq!(counts.count_of("aaa", "b"), 0);
}

#[test]
fn merge_takes_pairs_from_the_left() {
    let (mut vocab, mut seq) = init_tokens("aaaaa".to_string());
    let mut counts = PairCounts::new();
    let best = count_token_pairs(&seq, &vocab, &mut counts).unwrap();
    assert_eq!(counts.count_of("a", "a"), 4);
    merge_tokens(best.0, best.1, &mut counts, &mut vocab, &mut seq);
    assert_eq!(words(&vocab, &seq), vec!["aa", "aa", "a"]);
    assert_eq!(counts.count_of("a", "a"), 0);
    assert_eq!(counts.count_of("aa", "aa"), 1);
    assert_eq!(counts.count_of("aa", "a"), 1);
    assert_eq!(counts.count_of("a", "aa"), 0);
}

#[test]
fn merge_away_from_the_head_returns_no_head() {
    let (mut vocab, mut seq) = init_tokens("xabab".to_string());
    let mut counts = PairCounts::new();
    count_token_pairs(&seq, &vocab, &mut counts);
    let old_head = seq.head();
    let a = seq.get(DLLTokenRef(1)).token;
    let b = seq.get(DLLTokenRef(2)).token;
    let head = merge_tokens(a, b, &mut counts, &mut vocab, &mut seq);
    assert_eq!(head, None);
    assert_eq!(seq.head(), old_head);
    assert_eq!(words(&vocab, &seq), vec!["x", "ab", "ab"]);
    assert_eq!(counts.count_of("x", "a"), 0);
    assert_eq!(counts.count_of("x", "ab"), 1);
    assert_eq!(counts.count_of("ab", "ab"), 1);
    assert_eq!(counts.count_of("b", "a"), 0);
    assert_eq!(counts.count_of("a", "b"), 0);
    // the new token has the two new positions as occurrences, oldest first
    let merged = TokenRef(vocab.len() - 1);
    assert_eq!(vocab.get(merged).val, "ab");
    assert_eq!(vocab.get(merged).occurrences, vec![DLLTokenRef(5), DLLTokenRef(6)]);
    // the positions that were replaced have lost their links
    assert_eq!(seq.get(DLLTokenRef(1)).next, None);
    assert_eq!(seq.get(DLLTokenRef(1)).prev, None);
    assert_eq!(seq.get(DLLTokenRef(2)).next, None);
    assert_eq!(seq.tail(), Some(DLLTokenRef(6)));
}

#[test]
fn merge_of_an_absent_pair_changes_nothing_but_the_vocabulary() {
    let (mut vocab, mut seq) = init_tokens("abc".to_string());
    let mut counts = PairCounts::new();
    count_token_pairs(&seq, &vocab, &mut counts);
    let c = seq.get(DLLTokenRef(2)).token;
    let a = seq.get(DLLTokenRef(0)).token;
    let head = merge_tokens(c, a, &mut counts, &mut vocab, &mut seq);
    assert_eq!(head, None);
    assert_eq!(words(&vocab, &seq), vec!["a", "b", "c"]);
    assert_eq!(vocab.len(), 4);
    assert_eq!(vocab.get(TokenRef(3)).val, "ca");
    assert!(vocab.get(TokenRef(3)).occurrences.is_empty());
    assert_eq!(counts.count_of("a", "b"), 1);
    assert_eq!(counts.count_of("b", "c"), 1);
    assert_eq!(seq.allocated(), 3);
}

#[test]
fn scan_picks_the_pair_whose_count_leads_first() {
    // `ab` and `cd` both stand twice; `ab` is the first to reach two
    let (vocab, seq) = init_tokens("ababcdcd".to_string());
    let mut counts = PairCounts::new();
    let best = count_token_pairs(&seq, &vocab, &mut counts);
    assert_eq!(counts.count_of("a", "b"), 2);
    assert_eq!(counts.count_of("c", "d"), 2);
    assert_eq!(names(&vocab, best), pair("a", "b"));
    assert_eq!(names(&vocab, best_pair(&seq, &vocab, &counts)), pair("a", "b"));
}

#[test]
fn scan_goes_by_the_counts_as_they_grow() {
    // `ab` stands first, but `cd` reaches two before `ab` does
    let (vocab, seq) = init_tokens("abcdcdab".to_string());
    let mut counts = PairCounts::new();
    let best = count_token_pairs(&seq, &vocab, &mut counts);
    assert_eq!(counts.count_of("a", "b"), 2);
    assert_eq!(counts.count_of("c", "d"), 2);
    assert_eq!(names(&vocab, best), pair("c", "d"));
    // a scan on top of the finished counts picks the same pair
    assert_eq!(names(&vocab, best_pair(&seq, &vocab, &counts)), pair("c", "d"));
}

#[test]
fn pick_on_top_of_kept_counts_is_the_pick_of_a_fresh_scan() {
    // x pq pq pq x pq: `x pq` stands first and stands twice, as `pq pq` does,
    // but `pq pq` is the first to have been met twice
    let (mut vocab, mut seq) = init_tokens("xpqpqpqxpq".to_string());
    let mut kept = PairCounts::new();
    let first = count_token_pairs(&seq, &vocab, &mut kept);
    assert_eq!(names(&vocab, first), pair("p", "q"));
    let (p, q) = first.unwrap();
    merge_tokens(p, q, &mut kept, &mut vocab, &mut seq);
    assert_eq!(words(&vocab, &seq), vec!["x", "pq", "pq", "pq", "x", "pq"]);
    assert_eq!(kept.count_of("x", "pq"), 2);
    assert_eq!(kept.count_of("pq", "pq"), 2);
    assert_eq!(names(&vocab, best_pair(&seq, &vocab, &kept)), pair("pq", "pq"));
    let mut fresh = PairCounts::new();
    let again = count_token_pairs(&seq, &vocab, &mut fresh);
    assert_eq!(names(&vocab, again), pair("pq", "pq"));
    // the pick has left the kept counts as they were
    assert_eq!(kept.count_of("x", "pq"), 2);
    assert_eq!(kept.count_of("pq", "pq"), 2);
    assert_eq!(kept.count_of("pq", "x"), 1);
}

#[test]
fn pick_leaves_the_tracker_as_it_is() {
    let (vocab, seq) = init_tokens("abab".to_string());
    let mut counts = PairCounts::new();
    counts.adjust("b", "a", 5);
    // on top of the five, `ba` leads with six when it is met
    assert_eq!(names(&vocab, best_pair(&seq, &vocab, &counts)), pair("b", "a"));
    assert_eq!(counts.get("b", "a"), Some(5));
    assert_eq!(counts.get("a", "b"), None);
    let empty = PairCounts::new();
    assert_eq!(names(&vocab, best_pair(&seq, &vocab, &empty)), pair("a", "b"));
    assert_eq!(empty.get("a", "b"), None);
}

#[test]
fn all_pairs_once_picks_the_leftmost() {
    let (vocab, seq) = init_tokens("abc".to_string());
    let mut counts = PairCounts::new();
    let best = count_token_pairs(&seq, &vocab, &mut counts);
    assert_eq!(names(&vocab, best), pair("a", "b"));
    assert_eq!(names(&vocab, best_pair(&seq, &vocab, &counts)), pair("a", "b"));
}

#[test]
fn scan_adds_to_what_the_tracker_held() {
    let (vocab, seq) = init_tokens("abab".to_string());
    let mut counts = PairCounts::new();
    counts.adjust("b", "a", 5);
    let best = count_token_pairs(&seq, &vocab, &mut counts);
    assert_eq!(counts.count_of("a", "b"), 2);
    assert_eq!(counts.count_of("b", "a"), 6);
    assert_eq!(names(&vocab, best), pair("b", "a"));
}

#[test]
fn no_pair_is_picked_from_counts_that_are_not_positive() {
    let (vocab, seq) = init_tokens("ab".to_string());
    let mut counts = PairCounts::new();
    counts.adjust("a", "b", -1);
    assert_eq!(best_pair(&seq, &vocab, &counts), None);
    let best = count_token_pairs(&seq, &vocab, &mut counts);
    assert_eq!(best, None);
    assert_eq!(counts.count_of("a", "b"), 0);
}

#[test]
fn sequence_of_one_has_no_pair() {
    let (vocab, seq) = init_tokens("a".to_string());
    let mut counts = PairCounts::new();
    assert_eq!(count_token_pairs(&seq, &vocab, &mut counts), None);
    assert_eq!(best_pair(&seq, &vocab, &counts), None);
    assert_eq!(counts.get("a", "a"), None);
}

#[test]
fn kept_counts_are_the_counts_of_a_fresh_scan() {
    let text = "abracadabra abracadabra";
    let (mut vocab, mut seq) = init_tokens(text.to_string());
    let mut kept = PairCounts::new();
    let mut best = count_token_pairs(&seq, &vocab, &mut kept);
    let mut rounds = 0;
    while let Some((a, b)) = best {
        merge_tokens(a, b, &mut kept, &mut vocab, &mut seq);
        rounds += 1;
        let mut fresh = PairCounts::new();
        count_token_pairs(&seq, &vocab, &mut fresh);
        for x in 0..vocab.len() {
            for y in 0..vocab.len() {
                let left = vocab.get(TokenRef(x)).val.as_str();
                let right = vocab.get(TokenRef(y)).val.as_str();
                assert_eq!(kept.count_of(left, right), fresh.count_of(left, right));
            }
        }
        best = best_pair(&seq, &vocab, &kept);
        assert_eq!(best, best_pair(&seq, &vocab, &fresh));
        assert_eq!(words(&vocab, &seq).concat(), text);
    }
    assert!(rounds > 5);
    assert_eq!(seq.len(), 1);
}

#[test]
fn token_and_position_start_bare() {
    let t = Token::new(7, "xy".to_string());
    assert_eq!(t.id, 7);
    assert_eq!(t.val, "xy");
    assert!(t.occurrences.is_empty());
    let d = DLLToken::new(3, TokenRef(7), Some(DLLTokenRef(2)));
    assert_eq!(d.id, 3);
    assert_eq!(d.token, TokenRef(7));
    assert_eq!(d.next, None);
    assert_eq!(d.prev, Some(DLLTokenRef(2)));
}

#[test]
fn merge_leaves_entries_for_every_pair_it_touched() {
    let (mut vocab, mut seq) = init_tokens("abab".to_string());
    let mut counts = PairCounts::new();
    let (a, b) = count_token_pairs(&seq, &vocab, &mut counts).unwrap();
    assert_eq!(counts.get("a", "b"), Some(2));
    assert_eq!(counts.get("b", "a"), Some(1));
    assert_eq!(counts.get("ab", "a"), None);
    merge_tokens(a, b, &mut counts, &mut vocab, &mut seq);
    assert_eq!(counts.get("a", "b"), Some(0));
    assert_eq!(counts.get("b", "a"), Some(0));
    // the second `a` stood behind the first merged pair until it was merged itself
    assert_eq!(counts.get("ab", "a"), Some(0));
    assert_eq!(counts.get("ab", "ab"), Some(1));
    assert_eq!(counts.get("a", "ab"), None);
    assert_eq!(counts.get("ab", "b"), None);
}
