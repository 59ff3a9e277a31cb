use bpe_merge::chain::Sequence;
use bpe_merge::token::{TokenRef, Vocabulary};
use bpe_merge::tokenizer::{tokenizer, tokenizer_rescan, StopReason, Tokenization};
use std::collections::HashMap;

fn spelled_out(vocab: &Vocabulary, seq: &Sequence) -> Vec<String> {
    let mut out = Vec::new();
    let mut next = seq.head();
    while let Some(p) = next {
        let node = seq.get(p);
        out.push(vocab.get(node.token).val.clone());
        next = node.next;
    }
    out
}

/// The run written out plainly on vectors: returns the value of every token
/// and the tokens of the final sequence.
fn plain_run(text: &str) -> (Vec<String>, Vec<usize>, usize) {
    let mut values: Vec<String> = Vec::new();
    let mut seq: Vec<usize> = Vec::new();
    for c in text.chars() {
        let v = c.to_string();
        let t = match values.iter().position(|x| *x == v) {
            Some(t) => t,
            None => {
                values.push(v);
                values.len() - 1
            }
        };
        seq.push(t);
    }
    let mut done = 0;
    while done < 500 && seq.len() >= 2 {
        // a scan into an empty map: the first strictly greater count wins
        let mut seen: HashMap<(String, String), i64> = HashMap::new();
        let mut best = 0;
        let mut top = 0;
        for (i, w) in seq.windows(2).enumerate() {
            let key = (values[w[0]].clone(), values[w[1]].clone());
            let count = seen.entry(key).or_insert(0);
            *count += 1;
            if *count > top {
                top = *count;
                best = i;
            }
        }
        let (a, b) = (seq[best], seq[best + 1]);
        let m = values.len();
        values.push(format!("{}{}", values[a], values[b]));
        let mut merged = Vec::new();
        let mut i = 0;
        while i < seq.len() {
            if i + 1 < seq.len() && seq[i] == a && seq[i + 1] == b {
                merged.push(m);
                i += 2;
            } else {
                merged.push(seq[i]);
                i += 1;
            }
        }
        seq = merged;
        done += 1;
    }
    (values, seq, done)
}

fn agree_on(text: &str) {
    agree(text, tokenizer(text.to_string()));
    agree(text, tokenizer_rescan(text.to_string()));
}

fn agree(text: &str, out: Tokenization) {
    let (values, seq, done) = plain_run(text);
    assert_eq!(out.iterations, done, "merges on {:?}", text);
    assert_eq!(out.vocab.len(), values.len());
    for (t, v) in values.iter().enumerate() {
        assert_eq!(out.vocab.get(TokenRef(t)).val, *v, "token {} on {:?}", t, text);
    }
    let live: Vec<String> = seq.iter().map(|t| values[*t].clone()).collect();
    assert_eq!(spelled_out(&out.vocab, &out.seq), live, "sequence on {:?}", text);
    let mut next = out.seq.head();
    for t in seq.iter() {
        let p = next.unwrap();
        assert_eq!(out.seq.get(p).token, TokenRef(*t));
        next = out.seq.get(p).next;
    }
    assert!(next.is_none());
    let expected = if text.is_empty() {
        StopReason::EmptyInput
    } else if seq.len() < 2 {
        StopReason::Exhausted
    } else {
        StopReason::IterationLimit
    };
    assert_eq!(out.reason, expected);
}

#[test]
fn agrees_with_the_plain_run_on_short_texts() {
    for text in [
        "", "a", "ab", "aa", "aaa", "aaaa", "aaab", "abab", "abba", "abcabc", "abcdcdab",
        "aabaab", "aaabaaaab", "mississippi", "banana bandana", "xyxyxyzxyzxyz", "xpqpqpqxpq",
    ] {
        agree_on(text);
    }
}

#[test]
fn agrees_with_the_plain_run_on_mixed_texts() {
    let mut state: u64 = 0x2545_f491_4f6c_dd1d;
    for round in 0..40 {
        let letters = 2 + round % 4;
        let length = 1 + (round * 7) % 90;
        let mut text = String::new();
        for _ in 0..length {
            state ^= state << 13;
            state ^= state >> 7;
            state ^= state << 17;
            text.push((b'a' + (state % letters as u64) as u8) as char);
        }
        agree_on(&text);
    }
}

#[test]
fn agrees_with_the_plain_run_past_the_ceiling() {
    let mut state: u64 = 88172645463325252;
    let mut text = String::new();
    for _ in 0..3000 {
        state ^= state << 13;
        state ^= state >> 7;
        state ^= state << 17;
        text.push(char::from_u32(0x3b1 + (state % 300) as u32).unwrap());
    }
    agree_on(&text);
    let out = tokenizer(text);
    assert_eq!(out.reason, StopReason::IterationLimit);
    assert_eq!(out.iterations, 500);
}
