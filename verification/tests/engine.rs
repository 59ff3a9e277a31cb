use bpe_merge::chain::Sequence;
use bpe_merge::tokenizer::{init_tokens, tokenizer, StopReason, MAX_ITERATIONS};
use bpe_merge::token::Vocabulary;

fn spelled(vocab: &Vocabulary, seq: &Sequence) -> Vec<String> {
    let mut out = Vec::new();
    let mut next = seq.head();
    while let Some(p) = next {
        let node = seq.get(p);
        out.push(vocab.get(node.token).val.clone());
        next = node.next;
    }
    out
}

#[test]
fn single_character_ends_at_once() {
    let out = tokenizer("a".to_string());
    assert_eq!(out.iterations, 0);
    assert_eq!(out.reason, StopReason::Exhausted);
    assert_eq!(out.tokens.len(), 1);
    assert_eq!(out.vocab.len(), 1);
    assert_eq!(spelled(&out.vocab, &out.seq), vec!["a".to_string()]);
}

#[test]
fn empty_text_has_no_head() {
    let out = tokenizer(String::new());
    assert_eq!(out.reason, StopReason::EmptyInput);
    assert_eq!(out.iterations, 0);
    assert!(out.seq.head().is_none());
    assert_eq!(out.seq.len(), 0);
    assert_eq!(out.vocab.len(), 0);
    assert!(out.tokens.is_empty());
}

#[test]
fn first_cut_gives_one_token_per_distinct_character() {
    let (vocab, seq) = init_tokens("abca".to_string());
    assert_eq!(vocab.len(), 3);
    assert_eq!(seq.len(), 4);
    assert_eq!(seq.allocated(), 4);
    assert_eq!(spelled(&vocab, &seq), vec!["a", "b", "c", "a"]);
    let first = seq.get(seq.head().unwrap()).token;
    let last = seq.get(seq.tail().unwrap()).token;
    assert_eq!(first, last);
    assert_eq!(vocab.get(first).id, 0);
    assert_eq!(vocab.get(first).occurrences.len(), 2);
    assert_eq!(vocab.get(first).occurrences[0].0, 0);
    assert_eq!(vocab.get(first).occurrences[1].0, 3);
}

#[test]
fn first_cut_takes_characters_not_bytes() {
    let (vocab, seq) = init_tokens("héé".to_string());
    assert_eq!(vocab.len(), 2);
    assert_eq!(seq.len(), 3);
    assert_eq!(spelled(&vocab, &seq), vec!["h", "é", "é"]);
}

#[test]
fn aaab_collapses_to_one_token() {
    let out = tokenizer("aaab".to_string());
    assert_eq!(out.reason, StopReason::Exhausted);
    assert_eq!(out.iterations, 3);
    assert_eq!(spelled(&out.vocab, &out.seq), vec!["aaab".to_string()]);
    assert_eq!(out.tokens.len(), 1);
    assert_eq!(out.vocab.get(out.tokens[0]).val, "aaab");
    // two characters and three merged tokens
    assert_eq!(out.vocab.len(), 5);
    assert_eq!(out.vocab.get(bpe_merge::token::TokenRef(2)).val, "aa");
    assert_eq!(out.vocab.get(bpe_merge::token::TokenRef(3)).val, "aaa");
    assert_eq!(out.vocab.get(bpe_merge::token::TokenRef(4)).val, "aaab");
}

#[test]
fn run_spells_the_text_and_never_grows() {
    let text = "the cat sat on the mat, the rat sat on the cat";
    let out = tokenizer(text.to_string());
    let parts = spelled(&out.vocab, &out.seq);
    assert_eq!(parts.concat(), text);
    assert_eq!(parts.len(), out.seq.len());
    assert!(out.seq.len() + out.iterations <= text.chars().count());
    assert!(out.iterations <= MAX_ITERATIONS);
    assert_eq!(out.reason, StopReason::Exhausted);
    assert_eq!(out.seq.len(), 1);
}

#[test]
fn run_stops_at_the_ceiling() {
    let text: String = (0..700u32).map(|i| char::from_u32(0x4e00 + i).unwrap()).collect();
    let out = tokenizer(text.clone());
    assert_eq!(out.reason, StopReason::IterationLimit);
    assert_eq!(out.iterations, 500);
    assert_eq!(out.iterations, MAX_ITERATIONS);
    assert_eq!(out.seq.len(), 200);
    assert_eq!(spelled(&out.vocab, &out.seq).concat(), text);
    assert_eq!(out.vocab.len(), 1200);
}

#[test]
fn final_vocabulary_holds_each_live_token_once() {
    let text: String = "ab".repeat(300) + &(0..600u32).map(|i| char::from_u32(0x4e00 + i).unwrap()).collect::<String>();
    let out = tokenizer(text);
    assert_eq!(out.reason, StopReason::IterationLimit);
    let mut seen = std::collections::HashSet::new();
    for t in out.tokens.iter() {
        assert!(seen.insert(t.0));
    }
    let mut next = out.seq.head();
    let mut live = std::collections::HashSet::new();
    while let Some(p) = next {
        live.insert(out.seq.get(p).token.0);
        next = out.seq.get(p).next;
    }
    assert_eq!(seen, live);
}

#[test]
fn rescanning_run_picks_the_same_pairs() {
    for text in [
        "aaab",
        "abcdcdab",
        "abracadabra abracadabra",
        "the cat sat on the mat, the rat sat on the cat",
        "aaaaaaaaaaaaaaaaaaaaaaa",
        "x",
        "",
    ] {
        let kept = tokenizer(text.to_string());
        let fresh = bpe_merge::tokenizer::tokenizer_rescan(text.to_string());
        assert_eq!(kept.iterations, fresh.iterations);
        assert_eq!(kept.reason, fresh.reason);
        assert_eq!(kept.vocab.len(), fresh.vocab.len());
        // the merged tokens, in the order of the merges
        for t in 0..kept.vocab.len() {
            let handle = bpe_merge::token::TokenRef(t);
            assert_eq!(kept.vocab.get(handle).val, fresh.vocab.get(handle).val);
            assert_eq!(
                kept.vocab.get(handle).occurrences,
                fresh.vocab.get(handle).occurrences
            );
        }
        assert_eq!(spelled(&kept.vocab, &kept.seq), spelled(&fresh.vocab, &fresh.seq));
        assert_eq!(kept.tokens, fresh.tokens);
        assert_eq!(kept.seq.head(), fresh.seq.head());
        assert_eq!(kept.seq.allocated(), fresh.seq.allocated());
    }
}

#[test]
fn first_pick_goes_by_the_growing_counts() {
    // `cd` is the first pair to stand twice, so it is merged first
    let out = tokenizer("abcdcdab".to_string());
    assert_eq!(out.vocab.get(bpe_merge::token::TokenRef(4)).val, "cd");
    assert_eq!(out.vocab.get(bpe_merge::token::TokenRef(5)).val, "ab");
}

#[test]
fn later_picks_go_by_the_growing_counts_too() {
    // after `pq` is merged the sequence is x pq pq pq x pq: `pq pq` has been
    // met twice before `x pq` has, so it is merged next
    for out in [
        tokenizer("xpqpqpqxpq".to_string()),
        bpe_merge::tokenizer::tokenizer_rescan("xpqpqpqxpq".to_string()),
    ] {
        assert_eq!(out.vocab.get(bpe_merge::token::TokenRef(3)).val, "pq");
        assert_eq!(out.vocab.get(bpe_merge::token::TokenRef(4)).val, "pqpq");
        assert_eq!(out.reason, StopReason::Exhausted);
        assert_eq!(spelled(&out.vocab, &out.seq), vec!["xpqpqpqxpq".to_string()]);
    }
}

#[test]
fn types_and_steps_are_at_hand_from_the_engine_module() {
    let (mut vocab, mut seq) = init_tokens("abab".to_string());
    let mut counts = bpe_merge::pairs::PairCounts::new();
    let (a, b) = bpe_merge::tokenizer::count_token_pairs(&seq, &vocab, &mut counts).unwrap();
    assert_eq!(
        (a, b),
        (bpe_merge::tokenizer::TokenRef(0), bpe_merge::tokenizer::TokenRef(1))
    );
    let head = bpe_merge::tokenizer::merge_tokens(a, b, &mut counts, &mut vocab, &mut seq);
    assert_eq!(head, Some(bpe_merge::tokenizer::DLLTokenRef(4)));
    assert_eq!(spelled(&vocab, &seq), vec!["ab", "ab"]);
}
