//! The merge engine: the first cut of a text into one token per character,
//! and the loop that merges the best pair until none is left.
//!
//! The types and the two steps of the loop are at hand from here as well.

use crate::chain::Sequence;
use crate::laws::{law_first_cut, law_rescan_agrees};
use crate::merge::lemma_linked_after_create;
use crate::model::{
    distinct, has_pair, initial_tokens, initial_values, lemma_distinct, lemma_merge_seq_len,
    linked, merge_places, merge_seq, occurrence_ok, registered_at, text_of, values_of,
};
use crate::pairs::{lemma_pair_count_bound, pair_count, PairCounts};
use crate::scan::best_pair;
use crate::select::{first_max, lemma_first_max, pair_at, running_counts};
use crate::token::Vocabulary;
use vstd::prelude::*;
use vstd::string::*;

pub use crate::chain::{DLLToken, DLLTokenRef};
pub use crate::merge::merge_tokens;
pub use crate::scan::count_token_pairs;
pub use crate::token::{Token, TokenRef};

verus! {

/// The string that holds the one character `c`.
///
/// Trusted: the body calls `String::from(char)` of the standard library, which
/// allocates a string from a single character. The contract says that the
/// result consists of that character and nothing else.
#[verifier::external_body]
fn char_string(c: char) -> (s: String)
    ensures
        s@ == seq![c],
{
    String::from(c)
}

/// The vocabulary and the sequence still fit together after a new position
/// `p` for `t` was appended to the chain and registered with `t`.
proof fn lemma_linked_after_append(
    vocab0: Vocabulary,
    seq0: Sequence,
    vocab1: Vocabulary,
    seq1: Sequence,
    t: TokenRef,
    p: DLLTokenRef,
)
    requires
        seq0.wf(),
        seq1.wf(),
        linked(vocab0, seq0),
        seq1.ascending(),
        t.0 < vocab0@.len(),
        seq1@ == seq0@.push(p),
        p.0 == seq0.nodes().len(),
        seq1.nodes().len() == seq0.nodes().len() + 1,
        seq1.nodes()[p.0 as int].token == t,
        forall|q: int|
            0 <= q < seq0.nodes().len() ==> (#[trigger] seq1.nodes()[q]).token
                == seq0.nodes()[q].token,
        vocab1@.len() == vocab0@.len(),
        vocab1@[t.0 as int].occurrences@ == vocab0@[t.0 as int].occurrences@.push(p),
        forall|u: int| 0 <= u < vocab0@.len() && u != t.0 ==> #[trigger] vocab1@[u] == vocab0@[u],
    ensures
        linked(vocab1, seq1),
{
    let n = seq0@.len() as int;
    assert forall|y: int| 0 <= y < n implies (#[trigger] seq0@[y]).0 < seq0.nodes().len() by {
        assert(seq0.linked_at(y));
    }
    assert forall|q: int| 0 <= q < seq1.nodes().len() implies (#[trigger] seq1.nodes()[q]).token.0
        < vocab1@.len() by {
        if q < seq0.nodes().len() {
            assert(seq0.nodes()[q].token.0 < vocab0@.len());
        }
    }
    assert forall|u: int, j: int|
        0 <= u < vocab1@.len() && 0 <= j < vocab1@[u].occurrences@.len() implies #[trigger] occurrence_ok(
        vocab1,
        seq1,
        u,
        j,
    ) by {
        if u != t.0 {
            assert(vocab1@[u] == vocab0@[u]);
            assert(occurrence_ok(vocab0, seq0, u, j));
        } else if j < vocab0@[u].occurrences@.len() {
            assert(occurrence_ok(vocab0, seq0, u, j));
        }
    }
    assert forall|u: int, j: int, k: int|
        0 <= u < vocab1@.len() && 0 <= j < k < vocab1@[u].occurrences@.len() implies (
    #[trigger] vocab1@[u].occurrences@[j]).0 < (#[trigger] vocab1@[u].occurrences@[k]).0 by {
        if u != t.0 {
            assert(vocab1@[u] == vocab0@[u]);
            assert(vocab0@[u].occurrences@[j].0 < vocab0@[u].occurrences@[k].0);
        } else if k < vocab0@[u].occurrences@.len() {
            assert(vocab0@[u].occurrences@[j].0 < vocab0@[u].occurrences@[k].0);
        } else {
            assert(occurrence_ok(vocab0, seq0, u, j));
        }
    }
    assert forall|y: int| 0 <= y < seq1@.len() implies #[trigger] registered_at(
        vocab1,
        seq1,
        y,
    ) by {
        if y == n {
            let occ = vocab1@[t.0 as int].occurrences@;
            assert(occ[occ.len() - 1] == p);
        } else {
            assert(registered_at(vocab0, seq0, y));
            let u = seq0.node_at(y).token.0 as int;
            let occ0 = vocab0@[u].occurrences@;
            let j = choose|j: int| 0 <= j < occ0.len() && occ0[j] == seq0@[y];
            assert(seq0.nodes()[seq0@[y].0 as int].token.0 < vocab0@.len());
            if u != t.0 {
                assert(vocab1@[u] == vocab0@[u]);
            }
            assert(vocab1@[u].occurrences@[j] == seq1@[y]);
        }
    }
}

/// The fit of vocabulary and sequence depends on the tokens of the
/// vocabulary alone.
proof fn lemma_linked_same_tokens(vocab0: Vocabulary, vocab1: Vocabulary, seq: Sequence)
    requires
        linked(vocab0, seq),
        vocab1@ == vocab0@,
    ensures
        linked(vocab1, seq),
{
    assert forall|t: int, j: int|
        0 <= t < vocab1@.len() && 0 <= j < vocab1@[t].occurrences@.len() implies #[trigger] occurrence_ok(
        vocab1,
        seq,
        t,
        j,
    ) by {
        assert(occurrence_ok(vocab0, seq, t, j));
    }
    assert forall|y: int| 0 <= y < seq@.len() implies #[trigger] registered_at(vocab1, seq, y) by {
        assert(registered_at(vocab0, seq, y));
    }
}

/// What holds of the vocabulary and the sequence once the first `i`
/// characters of `text` are taken in.
pub open spec fn cut_upto(vocab: Vocabulary, seq: Sequence, text: Seq<char>, i: int) -> bool {
    let seen = distinct(text.take(i));
    &&& vocab.values() == initial_values(text.take(i))
    &&& forall|c: char| #[trigger]
        vocab.registered().contains_key(seq![c]) <==> seen.contains(c)
    &&& forall|t: int|
        0 <= t < seen.len() ==> (#[trigger] vocab.registered()[seq![seen[t]]]).0 == t
    &&& seq@.len() == i
    &&& seq.nodes().len() == i
    &&& forall|j: int| 0 <= j < i ==> (#[trigger] seq@[j]).0 == j
    &&& forall|j: int|
        0 <= j < i ==> vocab.values()[(#[trigger] seq.tokens()[j]).0 as int] == seq![text[j]]
}

/// Cuts the text into one token per character. Every character gets a new
/// position at the end of the chain; a character that has not stood in the
/// text before gets a new token, any other the token that it got the first
/// time. The position is registered with its token.
///
/// Returns the vocabulary and the sequence.
pub fn init_tokens(sequence: String) -> (out: (Vocabulary, Sequence))
    ensures
        out.0.wf(),
        out.1.wf(),
        linked(out.0, out.1),
        out.0.values() == initial_values(sequence@),
        out.1.tokens() == initial_tokens(sequence@),
        out.1.nodes().len() == sequence@.len(),
        out.1@ == Seq::new(sequence@.len(), |i: int| DLLTokenRef(i as usize)),
        forall|v: Seq<char>| #[trigger]
            out.0.registered().contains_key(v) <==> initial_values(sequence@).contains(v),
        forall|t: int|
            0 <= t < out.0@.len() ==> out.0.registered()[#[trigger] out.0.values()[t]].0 == t,
{
    let mut vocab = Vocabulary::new();
    let mut seq = Sequence::new();
    let ghost text = sequence@;
    proof {
        assert(text.take(0) =~= Seq::<char>::empty());
        assert(vocab.values() =~= initial_values(text.take(0)));
    }
    for c in it: sequence.as_str().chars()
        invariant
            it.seq() == text,
            vocab.wf(),
            seq.wf(),
            linked(vocab, seq),
            cut_upto(vocab, seq, text, it.index() as int),
            forall|v: Seq<char>| #[trigger]
                vocab.registered().contains_key(v) ==> v.len() == 1,
    {
        let ghost i = it.index() as int;
        let ghost seen = distinct(text.take(i));
        let ghost vocab0 = vocab;
        let ghost seq0 = seq;
        assert(text.take(i + 1).drop_last() =~= text.take(i));
        assert(text.take(i + 1).last() == c);
        let value = char_string(c);
        let token = vocab.get_or_create(value.as_str());
        let ghost vocab1 = vocab;
        proof {
            assert(distinct(text.take(i + 1)) == (if seen.contains(c) {
                seen
            } else {
                seen.push(c)
            }));
            if !seen.contains(c) {
                assert(!vocab0.registered().contains_key(seq![c]));
                lemma_linked_after_create(vocab0, vocab1, seq);
            } else {
                assert(vocab0.registered().contains_key(seq![c]));
                assert(vocab1@ == vocab0@);
                lemma_linked_same_tokens(vocab0, vocab1, seq);
            }
            assert(linked(vocab1, seq0));
        }
        let p = seq.append(token);
        vocab.register_occurrence(token, p);
        proof {
            lemma_linked_after_append(vocab1, seq0, vocab, seq, token, p);
            let seen1 = distinct(text.take(i + 1));
            lemma_distinct(text.take(i));
            assert(vocab1.values() =~= initial_values(text.take(i + 1))) by {
                let target = initial_values(text.take(i + 1));
                assert(vocab0.values() == initial_values(text.take(i)));
                assert(vocab0.values().len() == seen.len());
                assert(vocab0@.len() == seen.len());
                assert(target.len() == seen1.len());
                assert(vocab1.values().len() == target.len());
                assert forall|t: int| 0 <= t < target.len() implies vocab1.values()[t]
                    == target[t] by {
                    if t < seen.len() {
                        assert(vocab1@[t] == vocab0@[t]);
                        assert(vocab0.values()[t] == initial_values(text.take(i))[t]);
                        assert(seen1[t] == seen[t]);
                    } else {
                        assert(seen1[t] == c);
                    }
                }
            }
            assert(vocab.values() =~= vocab1.values());
            assert forall|d: char| #[trigger]
                vocab.registered().contains_key(seq![d]) <==> seen1.contains(d) by {
                assert(seq![d] == seq![c] <==> d == c) by {
                    if seq![d] == seq![c] {
                        assert(seq![d][0] == seq![c][0]);
                    }
                }
                if d != c {
                    assert(vocab0.registered().contains_key(seq![d]) <==> seen.contains(d));
                    if seen.contains(d) {
                        let j = choose|j: int| 0 <= j < seen.len() && seen[j] == d;
                        assert(seen1[j] == d);
                    }
                    if seen1.contains(d) {
                        let j = choose|j: int| 0 <= j < seen1.len() && seen1[j] == d;
                        assert(seen[j] == d);
                    }
                } else {
                    if seen.contains(c) {
                    } else {
                        assert(seen1[seen.len() as int] == c);
                    }
                }
            }
            assert forall|t: int| 0 <= t < seen1.len() implies (
            #[trigger] vocab.registered()[seq![seen1[t]]]).0 == t by {
                if t < seen.len() {
                    assert(seen1[t] == seen[t]);
                    assert(vocab0.registered()[seq![seen[t]]].0 == t);
                    if seq![seen[t]] == seq![c] {
                        assert(seq![seen[t]][0] == seq![c][0]);
                        assert(seen.contains(c));
                    }
                }
            }
            assert forall|j: int| 0 <= j < i + 1 implies (#[trigger] seq@[j]).0 == j by {
                if j < i {
                    assert(seq0@[j].0 == j);
                }
            }
            assert forall|j: int| 0 <= j < i + 1 implies vocab.values()[(
            #[trigger] seq.tokens()[j]).0 as int] == seq![text[j]] by {
                if j < i {
                    assert(seq0.linked_at(j));
                    assert(seq0.tokens()[j] == seq.tokens()[j]);
                    assert(seq0.nodes()[seq0@[j].0 as int].token.0 < vocab0@.len());
                    assert(vocab0.values()[seq0.tokens()[j].0 as int] == seq![text[j]]);
                }
            }
            assert forall|v: Seq<char>| #[trigger]
                vocab.registered().contains_key(v) implies v.len() == 1 by {
                if v != seq![c] {
                    assert(vocab0.registered().contains_key(v));
                }
            }
        }
    }
    proof {
        let n = text.len() as int;
        assert(text.take(n) =~= text);
        assert(cut_upto(vocab, seq, text, n));
        lemma_distinct(text);
        let seen = distinct(text);
        assert forall|j: int| 0 <= j < n implies seq.tokens()[j] == initial_tokens(text)[j] by {
            let t = seq.tokens()[j];
            assert(seq.linked_at(j));
            assert(seq.nodes()[seq@[j].0 as int].token.0 < vocab@.len());
            assert(vocab.values()[t.0 as int] == seq![text[j]]);
            assert(vocab.values() == initial_values(text));
            assert(vocab.values().len() == seen.len());
            assert(initial_values(text)[t.0 as int] == seq![seen[t.0 as int]]);
            assert(seq![seen[t.0 as int]][0] == seq![text[j]][0]);
            assert(seen[t.0 as int] == text[j]);
            assert(seen.contains(text[j]));
            let k = seen.index_of(text[j]);
            assert(seen[k] == text[j]);
            assert(k == t.0);
        }
        assert(seq.tokens() =~= initial_tokens(text));
        assert(seq@ =~= Seq::new(text.len(), |i: int| DLLTokenRef(i as usize)));
        assert forall|v: Seq<char>| #[trigger]
            vocab.registered().contains_key(v) <==> initial_values(text).contains(v) by {
            if vocab.registered().contains_key(v) {
                assert(v.len() == 1);
                assert(v =~= seq![v[0]]);
                assert(seen.contains(v[0]));
                let t = choose|t: int| 0 <= t < seen.len() && seen[t] == v[0];
                assert(initial_values(text)[t] == v);
            }
            if initial_values(text).contains(v) {
                let t = choose|t: int|
                    0 <= t < initial_values(text).len() && initial_values(text)[t] == v;
                assert(seen.contains(seen[t]));
            }
        }
        assert forall|t: int| 0 <= t < vocab@.len() implies vocab.registered()[
        #[trigger] vocab.values()[t]].0 == t by {
            assert(vocab.values()[t] == seq![seen[t]]);
        }
    }
    (vocab, seq)
}

/// The most merges that one run makes.
pub const MAX_ITERATIONS: usize = 500;

/// Why the merge loop ended.
#[derive(Clone, Copy, Debug, PartialEq, Eq, Structural)]
pub enum StopReason {
    /// The text was empty: there is no sequence.
    EmptyInput,
    /// No pair is left to merge.
    Exhausted,
    /// The ceiling of merges was reached with a pair still to merge.
    IterationLimit,
}

/// Where a run ends, as a mathematical value: the string value of every
/// token, the tokens of the sequence, the number of merges made, and why the
/// loop ended.
pub struct Outcome {
    pub values: Seq<Seq<char>>,
    pub tokens: Seq<TokenRef>,
    pub iterations: nat,
    pub reason: StopReason,
}

/// The place of the pair that is merged next: the pair that a scan of the
/// sequence into an empty tracker picks, which is the first to reach the
/// highest count as the scan meets the pairs. Every merge of a run goes by
/// this one rule.
pub open spec fn pick(values: Seq<Seq<char>>, tokens: Seq<TokenRef>) -> Option<int> {
    first_max(running_counts(values_of(values, tokens), Map::empty()))
}

/// The run from a state that `done` merges have led to: as long as a pair is
/// picked and the ceiling is not reached, the pair is merged into a token
/// with the next identifier.
pub open spec fn run(values: Seq<Seq<char>>, tokens: Seq<TokenRef>, done: nat) -> Outcome
    decreases MAX_ITERATIONS - done,
{
    match pick(values, tokens) {
        None => Outcome { values, tokens, iterations: done, reason: StopReason::Exhausted },
        Some(i) => if done >= MAX_ITERATIONS {
            Outcome { values, tokens, iterations: done, reason: StopReason::IterationLimit }
        } else {
            run(
                values.push(values[tokens[i].0 as int] + values[tokens[i + 1].0 as int]),
                merge_seq(tokens, tokens[i], tokens[i + 1], TokenRef(values.len() as usize)),
                done + 1,
            )
        },
    }
}

/// The positions on the chain and the size of the arena at the end of the
/// run from a state that `done` merges have led to, with `places` on the
/// chain and `allocated` positions in the arena.
pub open spec fn run_places(
    values: Seq<Seq<char>>,
    tokens: Seq<TokenRef>,
    places: Seq<DLLTokenRef>,
    allocated: nat,
    done: nat,
) -> (Seq<DLLTokenRef>, nat)
    decreases MAX_ITERATIONS - done,
{
    match pick(values, tokens) {
        None => (places, allocated),
        Some(i) => if done >= MAX_ITERATIONS {
            (places, allocated)
        } else {
            let merged = merge_seq(
                tokens,
                tokens[i],
                tokens[i + 1],
                TokenRef(values.len() as usize),
            );
            run_places(
                values.push(values[tokens[i].0 as int] + values[tokens[i + 1].0 as int]),
                merged,
                merge_places(places, tokens, tokens[i], tokens[i + 1], allocated),
                (allocated + tokens.len() - merged.len()) as nat,
                done + 1,
            )
        },
    }
}

/// The positions on the chain and the size of the arena where the run on
/// `text` ends. The first cut numbers the positions of the characters from
/// zero in the order of the text.
pub open spec fn places_of(text: Seq<char>) -> (Seq<DLLTokenRef>, nat) {
    if text.len() == 0 {
        (Seq::empty(), 0)
    } else {
        run_places(
            initial_values(text),
            initial_tokens(text),
            Seq::new(text.len(), |i: int| DLLTokenRef(i as usize)),
            text.len(),
            0,
        )
    }
}

/// Where the run on `text` ends.
pub open spec fn outcome_of(text: Seq<char>) -> Outcome {
    if text.len() == 0 {
        Outcome {
            values: Seq::empty(),
            tokens: Seq::empty(),
            iterations: 0,
            reason: StopReason::EmptyInput,
        }
    } else {
        run(initial_values(text), initial_tokens(text), 0)
    }
}

/// The tokens that stand on the chain, each once, in the order of first
/// appearance from the head.
pub fn live_tokens(seq: &Sequence, vocab: &Vocabulary) -> (tokens: Vec<TokenRef>)
    requires
        seq.wf(),
        linked(*vocab, *seq),
    ensures
        tokens@ == distinct(seq.tokens()),
{
    let ghost all = seq.tokens();
    let ghost n = seq@.len() as int;
    let mut tokens: Vec<TokenRef> = Vec::new();
    let mut marks: Vec<bool> = Vec::new();
    let mut t: usize = 0;
    while t < vocab.len()
        invariant
            t <= vocab@.len(),
            marks@.len() == t,
            forall|u: int| 0 <= u < t ==> !(#[trigger] marks@[u]),
        decreases vocab@.len() - t,
    {
        marks.push(false);
        t = t + 1;
    }
    let mut next = seq.head();
    let ghost mut i: int = 0;
    proof {
        assert(all.take(0) =~= Seq::<TokenRef>::empty());
    }
    while next.is_some()
        invariant
            seq.wf(),
            linked(*vocab, *seq),
            all == seq.tokens(),
            n == seq@.len(),
            0 <= i <= n,
            next == (if i < n {
                Some(seq@[i])
            } else {
                None
            }),
            marks@.len() == vocab@.len(),
            tokens@ == distinct(all.take(i)),
            forall|r: TokenRef|
                r.0 < marks@.len() ==> (marks@[r.0 as int] <==> #[trigger] tokens@.contains(r)),
        decreases n - i,
    {
        let p = next.unwrap();
        proof {
            assert(seq.linked_at(i));
            assert(seq.nodes()[p.0 as int].token.0 < vocab@.len());
            assert(all.take(i + 1).drop_last() =~= all.take(i));
            assert(all.take(i + 1).last() == all[i]);
        }
        let token = seq.get(p).token;
        let ghost before = tokens@;
        if !marks[token.0] {
            marks[token.0] = true;
            tokens.push(token);
            proof {
                assert forall|r: TokenRef| r.0 < marks@.len() implies (marks@[r.0 as int]
                    <==> #[trigger] tokens@.contains(r)) by {
                    if before.contains(r) {
                        let j = choose|j: int| 0 <= j < before.len() && before[j] == r;
                        assert(tokens@[j] == r);
                    }
                    if r == token {
                        assert(tokens@[before.len() as int] == r);
                    }
                    if tokens@.contains(r) && r != token {
                        let j = choose|j: int| 0 <= j < tokens@.len() && tokens@[j] == r;
                        assert(before[j] == r);
                    }
                }
            }
        }
        next = seq.get(p).next;
        proof {
            i = i + 1;
        }
    }
    proof {
        assert(all.take(n) =~= all);
    }
    tokens
}

/// For every token identifier below `size`, the place of that token in
/// `tokens`, or `None` for a token that is not in it.
pub fn vocabulary_index(tokens: &Vec<TokenRef>, size: usize) -> (index: Vec<Option<usize>>)
    requires
        tokens@.no_duplicates(),
        forall|i: int| 0 <= i < tokens@.len() ==> (#[trigger] tokens@[i]).0 < size,
    ensures
        index@.len() == size,
        forall|i: int| 0 <= i < tokens@.len() ==> index@[(#[trigger] tokens@[i]).0 as int] == Some(
            i as usize,
        ),
        forall|t: TokenRef|
            t.0 < size && !(#[trigger] tokens@.contains(t)) ==> index@[t.0 as int] == None::<
                usize,
            >,
{
    let mut index: Vec<Option<usize>> = Vec::new();
    let mut t: usize = 0;
    while t < size
        invariant
            t <= size,
            index@.len() == t,
            forall|u: int| 0 <= u < t ==> (#[trigger] index@[u]) == None::<usize>,
        decreases size - t,
    {
        index.push(None);
        t = t + 1;
    }
    let mut i: usize = 0;
    while i < tokens.len()
        invariant
            i <= tokens@.len(),
            index@.len() == size,
            tokens@.no_duplicates(),
            forall|j: int| 0 <= j < tokens@.len() ==> (#[trigger] tokens@[j]).0 < size,
            forall|j: int| 0 <= j < i ==> index@[(#[trigger] tokens@[j]).0 as int] == Some(
                j as usize,
            ),
            forall|r: TokenRef|
                r.0 < size && !(#[trigger] tokens@.take(i as int).contains(r)) ==> index@[r.0 as int]
                    == None::<usize>,
        decreases tokens@.len() - i,
    {
        let token = tokens[i];
        let ghost before = index@;
        index[token.0] = Some(i);
        proof {
            assert forall|j: int| 0 <= j < i + 1 implies index@[(#[trigger] tokens@[j]).0 as int]
                == Some(j as usize) by {
                if j < i {
                    assert(tokens@[j] != tokens@[i as int]);
                    assert(tokens@[j].0 != token.0);
                }
            }
            assert forall|r: TokenRef|
                r.0 < size && !(#[trigger] tokens@.take(i + 1).contains(r)) implies index@[r.0 as int]
                == None::<usize> by {
                assert(tokens@.take(i + 1)[i as int] == token);
                assert(r != token);
                if tokens@.take(i as int).contains(r) {
                    let k = choose|k: int|
                        0 <= k < tokens@.take(i as int).len() && tokens@.take(i as int)[k] == r;
                    assert(tokens@.take(i + 1)[k] == r);
                }
            }
        }
        i = i + 1;
    }
    proof {
        assert(tokens@.take(tokens@.len() as int) =~= tokens@);
    }
    index
}

/// What a run leaves behind.
pub struct Tokenization {
    /// Every token ever created, by identifier.
    pub vocab: Vocabulary,
    /// The arena of positions and the chain of the live ones.
    pub seq: Sequence,
    /// The pair counts of the final sequence.
    pub counts: PairCounts,
    /// The final vocabulary: the tokens that still stand in the sequence.
    pub tokens: Vec<TokenRef>,
    /// The number of merges made.
    pub iterations: usize,
    /// Why the loop ended.
    pub reason: StopReason,
}

/// Whether `out` is what the run on `text` leaves behind: a vocabulary, a
/// sequence and a tracker that fit together, at the stage where the run on
/// `text` ends, with the final vocabulary drawn from the sequence. Such a run
/// has made at most `MAX_ITERATIONS` merges, each of which took at least one
/// position away, and its sequence still spells out `text`.
pub open spec fn ends_run(out: Tokenization, text: Seq<char>) -> bool {
    &&& out.vocab.wf()
    &&& out.seq.wf()
    &&& out.counts.wf()
    &&& linked(out.vocab, out.seq)
    &&& out.counts.tracks(values_of(out.vocab.values(), out.seq.tokens()))
    &&& out.vocab.values() == outcome_of(text).values
    &&& out.seq.tokens() == outcome_of(text).tokens
    &&& out.iterations == outcome_of(text).iterations
    &&& out.reason == outcome_of(text).reason
    &&& out.seq@ == places_of(text).0
    &&& out.seq.nodes().len() == places_of(text).1
    &&& out.tokens@ == distinct(out.seq.tokens())
    &&& out.iterations <= MAX_ITERATIONS
    &&& out.seq@.len() + out.iterations <= text.len()
    &&& text_of(out.vocab.values(), out.seq.tokens()) == text
}

/// Builds the vocabulary of `sequence`: cuts it into one token per character,
/// scans it once to seed the tracker and to pick the first pair, and then
/// merges the picked pair and picks the next, until no pair is picked or
/// `MAX_ITERATIONS` merges are made. The tracker is kept up to date by the
/// adjustments that every merge makes and is never counted again; the next
/// pair is the one that a scan on top of it picks, found without changing it.
/// An empty text ends the run at once.
pub fn tokenizer(sequence: String) -> (out: Tokenization)
    ensures
        ends_run(out, sequence@),
{
    run_engine(sequence, false)
}

/// The same run with the tracker counted afresh after every merge, by a scan
/// of the whole sequence into an empty tracker, in place of the tracker that
/// the merge has adjusted; the next pair is the one that this scan picks. It
/// ends where `tokenizer` ends.
pub fn tokenizer_rescan(sequence: String) -> (out: Tokenization)
    ensures
        ends_run(out, sequence@),
{
    run_engine(sequence, true)
}

/// The run, with the tracker either kept by the merges or, with `rescan`,
/// counted afresh after each of them.
fn run_engine(sequence: String, rescan: bool) -> (out: Tokenization)
    ensures
        ends_run(out, sequence@),
{
    let ghost text = sequence@;
    let (mut vocab, mut seq) = init_tokens(sequence);
    let mut counts = PairCounts::new();
    if seq.head().is_none() {
        proof {
            assert(text.len() == 0);
            assert(vocab.values() =~= Seq::<Seq<char>>::empty());
            assert(seq.tokens() =~= Seq::<TokenRef>::empty());
            assert(values_of(vocab.values(), seq.tokens()) =~= Seq::<Seq<char>>::empty());
            assert(text =~= Seq::<char>::empty());
            assert(seq@ =~= Seq::<DLLTokenRef>::empty());
            assert forall|left: Seq<char>, right: Seq<char>| (#[trigger] counts.count(
                left,
                right,
            )) == pair_count(
                values_of(vocab.values(), seq.tokens()),
                left,
                right,
            ) by {}
        }
        return Tokenization {
            vocab,
            seq,
            counts,
            tokens: Vec::new(),
            iterations: 0,
            reason: StopReason::EmptyInput,
        };
    }
    proof {
        assert(text.len() > 0);
        seq.lemma_arena_bound();
        law_first_cut(text);
        let values = values_of(vocab.values(), seq.tokens());
        assert forall|left: Seq<char>, right: Seq<char>| (#[trigger] counts.count(left, right))
            + pair_count(values, left, right) <= i128::MAX by {
            lemma_pair_count_bound(values, left, right);
        }
    }
    let mut best = count_token_pairs(&seq, &vocab, &mut counts);
    let mut iterations: usize = 0;
    let mut reason = StopReason::Exhausted;
    let mut running = true;
    while running
        invariant
            vocab.wf(),
            seq.wf(),
            counts.wf(),
            linked(vocab, seq),
            counts.tracks(values_of(vocab.values(), seq.tokens())),
            iterations <= MAX_ITERATIONS,
            seq@.len() + iterations <= text.len(),
            text_of(vocab.values(), seq.tokens()) == text,
            running ==> best == pair_at(
                seq.tokens(),
                pick(vocab.values(), seq.tokens()),
            ),
            running ==> outcome_of(text) == run(vocab.values(), seq.tokens(), iterations as nat),
            running ==> places_of(text) == run_places(
                vocab.values(),
                seq.tokens(),
                seq@,
                seq.nodes().len(),
                iterations as nat,
            ),
            !running ==> places_of(text) == (seq@, seq.nodes().len()),
            !running ==> outcome_of(text) == (Outcome {
                values: vocab.values(),
                tokens: seq.tokens(),
                iterations: iterations as nat,
                reason,
            }),
        decreases
            MAX_ITERATIONS - iterations,
            (if running {
                1int
            } else {
                0int
            }),
    {
        match best {
            None => {
                reason = StopReason::Exhausted;
                running = false;
            },
            Some((token_a, token_b)) => {
                if iterations >= MAX_ITERATIONS {
                    reason = StopReason::IterationLimit;
                    running = false;
                } else {
                    let ghost i = pick(vocab.values(), seq.tokens())->0;
                    proof {
                        let values = values_of(vocab.values(), seq.tokens());
                        seq.lemma_arena_bound();
                        assert forall|left: Seq<char>, right: Seq<char>|
                            i128::MIN + (seq@.len() + 3) <= #[trigger] counts.count(left, right)
                                <= i128::MAX - (seq@.len() + 3) by {
                            lemma_pair_count_bound(values, left, right);
                        }
                        lemma_first_max(running_counts(values, Map::empty()));
                        assert(seq.linked_at(i));
                        assert(seq.linked_at(i + 1));
                        assert(seq.nodes()[seq@[i].0 as int].token.0 < vocab@.len());
                        assert(seq.nodes()[seq@[i + 1].0 as int].token.0 < vocab@.len());
                        assert(has_pair(seq.tokens(), token_a, token_b));
                        lemma_merge_seq_len(
                            seq.tokens(),
                            token_a,
                            token_b,
                            TokenRef(vocab@.len() as usize),
                        );
                    }
                    merge_tokens(token_a, token_b, &mut counts, &mut vocab, &mut seq);
                    iterations = iterations + 1;
                    if rescan {
                        counts = PairCounts::new();
                        proof {
                            let values = values_of(vocab.values(), seq.tokens());
                            seq.lemma_arena_bound();
                            assert forall|left: Seq<char>, right: Seq<char>|
                                (#[trigger] counts.count(left, right)) + pair_count(
                                    values,
                                    left,
                                    right,
                                ) <= i128::MAX by {
                                lemma_pair_count_bound(values, left, right);
                            }
                        }
                        best = count_token_pairs(&seq, &vocab, &mut counts);
                    } else {
                        proof {
                            let values = values_of(vocab.values(), seq.tokens());
                            seq.lemma_arena_bound();
                            assert forall|left: Seq<char>, right: Seq<char>|
                                (#[trigger] counts.count(left, right)) + pair_count(
                                    values,
                                    left,
                                    right,
                                ) <= i128::MAX by {
                                lemma_pair_count_bound(values, left, right);
                            }
                            law_rescan_agrees(counts, values);
                        }
                        best = best_pair(&seq, &vocab, &counts);
                    }
                }
            },
        }
    }
    let tokens = live_tokens(&seq, &vocab);
    Tokenization { vocab, seq, counts, tokens, iterations, reason }
}

} // verus!
