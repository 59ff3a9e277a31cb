//! What holds of every merge and of every run.

use crate::chain::{DLLTokenRef, Sequence};
use crate::model::{
    distinct, has_pair, initial_tokens, initial_values, lemma_distinct, lemma_merge_seq_len,
    linked, merge_seq, occurrence_ok, registered_at, text_of, values_of,
};
use crate::pairs::{
    lemma_pair_count_last, lemma_pair_count_prefix, lemma_pair_count_push,
    lemma_pair_count_witness, pair_count, PairCounts,
};
use crate::select::{first_max, is_first_max, lemma_first_max, running_counts};
use crate::token::{TokenRef, Vocabulary};
use crate::tokenizer::{outcome_of, pick, run, StopReason, MAX_ITERATIONS};
use vstd::prelude::*;
use vstd::seq_lib::lemma_flatten_concat;

verus! {

/// Whether every token of `tokens` is one of the first `n` tokens of the
/// vocabulary.
pub open spec fn all_below(tokens: Seq<TokenRef>, n: nat) -> bool {
    forall|i: int| 0 <= i < tokens.len() ==> (#[trigger] tokens[i]).0 < n
}

/// The occurrences of a token that are on the chain are the positions on the
/// chain that carry the token: where the vocabulary and the sequence fit
/// together, a live position is among the occurrences of `t` exactly if it
/// carries `t`.
pub proof fn law_occurrences_are_the_live_places(
    vocab: Vocabulary,
    seq: Sequence,
    t: TokenRef,
    p: DLLTokenRef,
)
    requires
        seq.wf(),
        linked(vocab, seq),
        t.0 < vocab@.len(),
        seq.is_live(p),
    ensures
        vocab@[t.0 as int].occurrences@.contains(p) <==> seq.nodes()[p.0 as int].token == t,
{
    let i = seq.lemma_place(p);
    assert(seq.nodes()[p.0 as int].token.0 < vocab@.len());
    if vocab@[t.0 as int].occurrences@.contains(p) {
        let occ = vocab@[t.0 as int].occurrences@;
        let j = choose|j: int| 0 <= j < occ.len() && occ[j] == p;
        assert(occurrence_ok(vocab, seq, t.0 as int, j));
    }
    if seq.nodes()[p.0 as int].token == t {
        assert(registered_at(vocab, seq, i));
    }
}

/// A merge never makes the sequence longer. It makes it shorter exactly
/// where the merged pair stands in it, and leaves it as it is where not.
pub proof fn law_merge_never_grows(s: Seq<TokenRef>, a: TokenRef, b: TokenRef, m: TokenRef)
    ensures
        merge_seq(s, a, b, m).len() <= s.len(),
        has_pair(s, a, b) <==> merge_seq(s, a, b, m).len() < s.len(),
        !has_pair(s, a, b) <==> merge_seq(s, a, b, m) == s,
{
    lemma_merge_seq_len(s, a, b, m);
}

/// The merged sequence starts with the merged token or with the token that
/// the sequence started with.
proof fn lemma_merge_first(s: Seq<TokenRef>, a: TokenRef, b: TokenRef, m: TokenRef)
    requires
        s.len() > 0,
    ensures
        merge_seq(s, a, b, m).len() > 0,
        merge_seq(s, a, b, m)[0] == (if s.len() >= 2 && s[0] == a && s[1] == b {
            m
        } else {
            s[0]
        }),
{
}

/// A merge leaves no occurrence of the merged pair: in the merged sequence
/// `a` is nowhere directly followed by `b`.
pub proof fn law_merge_leaves_no_pair(s: Seq<TokenRef>, a: TokenRef, b: TokenRef, m: TokenRef)
    requires
        m != a,
        m != b,
    ensures
        !has_pair(merge_seq(s, a, b, m), a, b),
    decreases s.len(),
{
    let out = merge_seq(s, a, b, m);
    if s.len() >= 2 {
        let k: int = if s[0] == a && s[1] == b {
            2
        } else {
            1
        };
        let rest = s.skip(k);
        let tail = merge_seq(rest, a, b, m);
        law_merge_leaves_no_pair(rest, a, b, m);
        if has_pair(out, a, b) {
            let i = choose|i: int| 0 <= i < out.len() - 1 && #[trigger] out[i] == a && out[i + 1] == b;
            if i == 0 {
                assert(k == 1);
                lemma_merge_first(rest, a, b, m);
                assert(out[1] == tail[0]);
                assert(rest[0] == s[1]);
                if rest.len() >= 2 && rest[0] == a && rest[1] == b {
                    assert(tail[0] == m);
                }
            } else {
                assert(tail[i - 1] == a && tail[i - 1 + 1] == b);
            }
        }
    }
}

/// The decrements of a merge cancel the count of the merged pair: where no
/// other token of the sequence has the value of `a` or of `b`, and neither
/// value is empty, the two values stand nowhere side by side after the merge,
/// so a tracker that holds the true counts holds zero for the pair.
pub proof fn law_merged_pair_is_used_up(
    values: Seq<Seq<char>>,
    tokens: Seq<TokenRef>,
    a: TokenRef,
    b: TokenRef,
)
    requires
        all_below(tokens, values.len()),
        a.0 < values.len(),
        b.0 < values.len(),
        values.len() <= usize::MAX,
        values[a.0 as int].len() > 0,
        values[b.0 as int].len() > 0,
        forall|i: int|
            0 <= i < tokens.len() && values[(#[trigger] tokens[i]).0 as int] == values[a.0 as int]
                ==> tokens[i] == a,
        forall|i: int|
            0 <= i < tokens.len() && values[(#[trigger] tokens[i]).0 as int] == values[b.0 as int]
                ==> tokens[i] == b,
    ensures
        pair_count(
            values_of(
                values.push(values[a.0 as int] + values[b.0 as int]),
                merge_seq(tokens, a, b, TokenRef(values.len() as usize)),
            ),
            values[a.0 as int],
            values[b.0 as int],
        ) == 0,
{
    let m = TokenRef(values.len() as usize);
    let grown = values.push(values[a.0 as int] + values[b.0 as int]);
    let merged = merge_seq(tokens, a, b, m);
    let vals = values_of(grown, merged);
    law_merge_leaves_no_pair(tokens, a, b, m);
    law_merge_tokens_from(tokens, a, b, m);
    if pair_count(vals, values[a.0 as int], values[b.0 as int]) > 0 {
        let i = lemma_pair_count_witness(vals, values[a.0 as int], values[b.0 as int]);
        assert forall|j: int|
            0 <= j < merged.len() && grown[merged[j].0 as int] == values[a.0 as int] implies merged[j]
            == a by {
            if merged[j] == m {
                assert(grown[m.0 as int].len() == values[a.0 as int].len() + values[b.0 as int].len());
            } else {
                assert(tokens.contains(merged[j]));
                let x = choose|x: int| 0 <= x < tokens.len() && tokens[x] == merged[j];
                assert(tokens[x].0 < values.len());
            }
        }
        assert forall|j: int|
            0 <= j < merged.len() && grown[merged[j].0 as int] == values[b.0 as int] implies merged[j]
            == b by {
            if merged[j] == m {
                assert(grown[m.0 as int].len() == values[a.0 as int].len() + values[b.0 as int].len());
            } else {
                assert(tokens.contains(merged[j]));
                let x = choose|x: int| 0 <= x < tokens.len() && tokens[x] == merged[j];
                assert(tokens[x].0 < values.len());
            }
        }
        assert(merged[i] == a && merged[i + 1] == b);
        assert(has_pair(merged, a, b));
    }
}

/// A merge of a non-empty sequence leaves a non-empty sequence, and every
/// token of the result is a token of the sequence or the merged token.
pub proof fn law_merge_tokens_from(s: Seq<TokenRef>, a: TokenRef, b: TokenRef, m: TokenRef)
    ensures
        s.len() > 0 ==> merge_seq(s, a, b, m).len() > 0,
        forall|i: int|
            0 <= i < merge_seq(s, a, b, m).len() ==> (#[trigger] merge_seq(s, a, b, m)[i]) == m
                || s.contains(merge_seq(s, a, b, m)[i]),
    decreases s.len(),
{
    let out = merge_seq(s, a, b, m);
    if s.len() < 2 {
        assert forall|i: int| 0 <= i < out.len() implies (#[trigger] out[i]) == m || s.contains(
            out[i],
        ) by {
            assert(s[i] == out[i]);
        }
    } else {
        let rest = if s[0] == a && s[1] == b {
            s.skip(2)
        } else {
            s.skip(1)
        };
        law_merge_tokens_from(rest, a, b, m);
        let tail = merge_seq(rest, a, b, m);
        assert forall|i: int| 0 <= i < out.len() implies (#[trigger] out[i]) == m || s.contains(
            out[i],
        ) by {
            if i == 0 {
                assert(out[0] == m || out[0] == s[0]);
            } else {
                assert(out[i] == tail[i - 1]);
                if tail[i - 1] != m {
                    assert(rest.contains(tail[i - 1]));
                    let j = choose|j: int| 0 <= j < rest.len() && rest[j] == tail[i - 1];
                    assert(s[j + (s.len() - rest.len())] == tail[i - 1]);
                }
            }
        }
    }
}

/// The text that a sequence spells out is the value of its first token
/// followed by the text of the rest.
proof fn lemma_text_unfold(values: Seq<Seq<char>>, tokens: Seq<TokenRef>, k: int)
    requires
        0 <= k <= tokens.len(),
    ensures
        text_of(values, tokens) == text_of(values, tokens.take(k)) + text_of(
            values,
            tokens.skip(k),
        ),
{
    let whole = values_of(values, tokens);
    let head = values_of(values, tokens.take(k));
    let tail = values_of(values, tokens.skip(k));
    assert(whole =~= head + tail);
    lemma_flatten_concat(head, tail);
}

/// A merge changes no character: the merged token has the values of the two
/// merged tokens joined as its value, and the text that the sequence spells
/// out after the merge is the text that it spelt out before.
pub proof fn law_merge_keeps_text(
    values: Seq<Seq<char>>,
    tokens: Seq<TokenRef>,
    a: TokenRef,
    b: TokenRef,
)
    requires
        all_below(tokens, values.len()),
        a.0 < values.len(),
        b.0 < values.len(),
        values.len() <= usize::MAX,
    ensures
        text_of(
            values.push(values[a.0 as int] + values[b.0 as int]),
            merge_seq(tokens, a, b, TokenRef(values.len() as usize)),
        ) == text_of(values, tokens),
    decreases tokens.len(),
{
    let m = TokenRef(values.len() as usize);
    let grown = values.push(values[a.0 as int] + values[b.0 as int]);
    let out = merge_seq(tokens, a, b, m);
    if tokens.len() < 2 {
        assert(values_of(grown, tokens) =~= values_of(values, tokens));
    } else {
        let k: int = if tokens[0] == a && tokens[1] == b {
            2
        } else {
            1
        };
        let rest = tokens.skip(k);
        assert(all_below(rest, values.len())) by {
            assert forall|i: int| 0 <= i < rest.len() implies (#[trigger] rest[i]).0
                < values.len() by {
                assert(rest[i] == tokens[i + k]);
            }
        }
        law_merge_keeps_text(values, rest, a, b);
        let tail = merge_seq(rest, a, b, m);
        let first = if k == 2 {
            m
        } else {
            tokens[0]
        };
        assert(out == seq![first] + tail);
        lemma_text_unfold(grown, out, 1);
        assert(out.take(1) =~= seq![first]);
        assert(out.skip(1) =~= tail);
        lemma_text_unfold(values, tokens, k);
        let front = values_of(values, tokens.take(k));
        let new_front = values_of(grown, seq![first]);
        assert(new_front.flatten() =~= grown[first.0 as int]) by {
            assert(new_front =~= seq![grown[first.0 as int]]);
            new_front.lemma_flatten_one_element();
        }
        if k == 2 {
            assert(front =~= seq![values[a.0 as int]] + seq![values[b.0 as int]]);
            lemma_flatten_concat(seq![values[a.0 as int]], seq![values[b.0 as int]]);
            seq![values[a.0 as int]].lemma_flatten_one_element();
            seq![values[b.0 as int]].lemma_flatten_one_element();
        } else {
            assert(front =~= seq![values[tokens[0].0 as int]]);
            front.lemma_flatten_one_element();
        }
    }
}

/// Of two pairs with the same count, the one that stands first is picked: the
/// place that `first_max` picks holds the highest count of the row, and no
/// place before it holds a count as high.
pub proof fn law_tie_goes_to_first(counts: Seq<int>, i: int, j: int)
    requires
        first_max(counts) == Some(i),
        0 <= j < counts.len(),
    ensures
        0 <= i < counts.len(),
        counts[i] > 0,
        counts[j] <= counts[i],
        counts[j] == counts[i] ==> i <= j,
{
    lemma_first_max(counts);
    assert(is_first_max(counts, i));
    if j < i {
        assert(counts[j] < counts[i]);
    }
}

/// The pair that a run merges next is, of the pairs that stand most often,
/// the one that is complete first. No pair stands more often in the sequence
/// than the picked one; the picked place is the last place of its pair; and
/// going by the number of times a pair has been met up to its place, no place
/// holds a higher number than the picked one, and none before it holds one as
/// high.
pub proof fn law_pick_goes_to_first(
    values: Seq<Seq<char>>,
    tokens: Seq<TokenRef>,
    i: int,
    j: int,
)
    requires
        pick(values, tokens) == Some(i),
        0 <= j < tokens.len() - 1,
    ensures
        0 <= i < tokens.len() - 1,
        ({
            let vals = values_of(values, tokens);
            &&& pair_count(vals, vals[j], vals[j + 1]) <= pair_count(vals, vals[i], vals[i + 1])
            &&& pair_count(vals.take(i + 2), vals[i], vals[i + 1]) == pair_count(
                vals,
                vals[i],
                vals[i + 1],
            )
            &&& pair_count(vals.take(j + 2), vals[j], vals[j + 1]) <= pair_count(
                vals.take(i + 2),
                vals[i],
                vals[i + 1],
            )
            &&& pair_count(vals.take(j + 2), vals[j], vals[j + 1]) == pair_count(
                vals.take(i + 2),
                vals[i],
                vals[i + 1],
            ) ==> i <= j
        }),
{
    let vals = values_of(values, tokens);
    law_pick(values, tokens);
    law_tie_goes_to_first(running_counts(vals, Map::empty()), i, j);
    lemma_leader_is_most_frequent(vals, i, j);
    lemma_leader_is_most_frequent(vals, i, i);
    lemma_pair_count_prefix(vals, i + 2, vals[i], vals[i + 1]);
}

/// The number of times that a scan into an empty tracker has met the pair at
/// place `j` when it stands there: at least one, and no more than the pair
/// stands in the whole.
proof fn lemma_met(values: Seq<Seq<char>>, j: int)
    requires
        0 <= j < values.len() - 1,
    ensures
        running_counts(values, Map::empty())[j] == pair_count(
            values.take(j + 2),
            values[j],
            values[j + 1],
        ),
        1 <= running_counts(values, Map::empty())[j] <= pair_count(
            values,
            values[j],
            values[j + 1],
        ),
{
    assert(values.take(j + 2) =~= values.take(j + 1).push(values[j + 1]));
    assert(values.take(j + 1).last() == values[j]);
    lemma_pair_count_push(values.take(j + 1), values[j + 1], values[j], values[j + 1]);
    lemma_pair_count_prefix(values, j + 2, values[j], values[j + 1]);
}

/// The pair that leads a scan into an empty tracker stands at least as often
/// in the sequence as any other: the number of times that any pair stands in
/// the whole is a number that the scan meets at the last place of that pair,
/// and the leader has met the highest.
proof fn lemma_leader_is_most_frequent(values: Seq<Seq<char>>, i: int, j: int)
    requires
        first_max(running_counts(values, Map::empty())) == Some(i),
        0 <= j < values.len() - 1,
    ensures
        0 <= i < values.len() - 1,
        pair_count(values, values[j], values[j + 1]) <= running_counts(values, Map::empty())[i],
{
    let row = running_counts(values, Map::empty());
    lemma_first_max(row);
    assert(is_first_max(row, i));
    lemma_met(values, j);
    let l = lemma_pair_count_last(values, values[j], values[j + 1]);
    lemma_met(values, l);
    if l < i {
        assert(row[l] < row[i]);
    } else {
        assert(row[l] <= row[i]);
    }
}

/// The pick is determined: a place whose count is greater than zero, greater
/// than every count before it and not less than any after it is the place
/// that `first_max` picks, and there is no other such place.
pub proof fn law_pick_is_determined(counts: Seq<int>, i: int)
    requires
        is_first_max(counts, i),
    ensures
        first_max(counts) == Some(i),
{
    lemma_first_max(counts);
    match first_max(counts) {
        Some(k) => {
            if k < i {
                assert(counts[k] < counts[i]);
                assert(counts[i] <= counts[k]);
            } else if i < k {
                assert(counts[i] < counts[k]);
                assert(counts[k] <= counts[i]);
            }
        },
        None => {
            assert(counts[i] <= 0);
        },
    }
}

/// Counting afresh and keeping count agree: a scan on top of a tracker that
/// holds, for every pair, the number of times it stands in the sequence picks
/// the pair that a scan into an empty tracker picks. So a run that keeps its
/// tracker by the adjustments of the merges and a run that counts afresh
/// after every merge pick the same pairs.
pub proof fn law_rescan_agrees(kept: PairCounts, values: Seq<Seq<char>>)
    requires
        kept.tracks(values),
    ensures
        first_max(running_counts(values, kept@)) == first_max(
            running_counts(values, Map::empty()),
        ),
{
    let fresh = running_counts(values, Map::empty());
    let onto = running_counts(values, kept@);
    lemma_first_max(fresh);
    assert forall|j: int| 0 <= j < onto.len() implies #[trigger] onto[j] == pair_count(
        values,
        values[j],
        values[j + 1],
    ) + fresh[j] by {
        assert(kept.count(values[j], values[j + 1]) == pair_count(
            values,
            values[j],
            values[j + 1],
        ));
    }
    match first_max(fresh) {
        Some(i) => {
            assert(is_first_max(fresh, i));
            lemma_leader_is_most_frequent(values, i, i);
            lemma_met(values, i);
            assert forall|j: int| 0 <= j < i implies onto[j] < onto[i] by {
                lemma_leader_is_most_frequent(values, i, j);
                assert(fresh[j] < fresh[i]);
            }
            assert forall|j: int| i <= j < onto.len() implies onto[j] <= onto[i] by {
                lemma_leader_is_most_frequent(values, i, j);
                assert(fresh[j] <= fresh[i]);
            }
            assert(is_first_max(onto, i));
            law_pick_is_determined(onto, i);
        },
        None => {
            if values.len() >= 2 {
                lemma_met(values, 0);
                assert(fresh[0] <= 0);
            }
            assert(onto.len() == 0);
        },
    }
}

/// A pair is picked exactly where the sequence has at least two tokens, and
/// the picked place is the place of a pair.
pub proof fn law_pick(values: Seq<Seq<char>>, tokens: Seq<TokenRef>)
    ensures
        match pick(values, tokens) {
            Some(i) => 0 <= i < tokens.len() - 1,
            None => tokens.len() < 2,
        },
{
    let vals = values_of(values, tokens);
    let row = running_counts(vals, Map::empty());
    lemma_first_max(row);
    if tokens.len() >= 2 {
        lemma_met(vals, 0);
    }
}

/// Every run ends after at most `MAX_ITERATIONS` merges, every merge takes at
/// least one position away, and the text that the sequence spells out is the
/// same at the end as at the start. A run that ends because no pair is left
/// ends with at most one position.
pub proof fn law_run(values: Seq<Seq<char>>, tokens: Seq<TokenRef>, done: nat)
    requires
        done <= MAX_ITERATIONS,
        all_below(tokens, values.len()),
        values.len() + MAX_ITERATIONS - done <= usize::MAX,
    ensures
        done <= run(values, tokens, done).iterations <= MAX_ITERATIONS,
        run(values, tokens, done).tokens.len() + run(values, tokens, done).iterations
            <= tokens.len() + done,
        tokens.len() > 0 ==> run(values, tokens, done).tokens.len() > 0,
        text_of(run(values, tokens, done).values, run(values, tokens, done).tokens) == text_of(
            values,
            tokens,
        ),
        all_below(run(values, tokens, done).tokens, run(values, tokens, done).values.len()),
        run(values, tokens, done).values.len() == values.len() + run(
            values,
            tokens,
            done,
        ).iterations - done,
        run(values, tokens, done).reason == StopReason::Exhausted <==> run(
            values,
            tokens,
            done,
        ).tokens.len() < 2,
        run(values, tokens, done).reason == StopReason::IterationLimit <==> run(
            values,
            tokens,
            done,
        ).tokens.len() >= 2,
    decreases MAX_ITERATIONS - done,
{
    law_pick(values, tokens);
    match pick(values, tokens) {
        None => {},
        Some(i) => {
            if done < MAX_ITERATIONS {
                let a = tokens[i];
                let b = tokens[i + 1];
                let m = TokenRef(values.len() as usize);
                let grown = values.push(values[a.0 as int] + values[b.0 as int]);
                let merged = merge_seq(tokens, a, b, m);
                assert(has_pair(tokens, a, b));
                lemma_merge_seq_len(tokens, a, b, m);
                law_merge_tokens_from(tokens, a, b, m);
                law_merge_keeps_text(values, tokens, a, b);
                assert(all_below(merged, grown.len())) by {
                    assert forall|j: int| 0 <= j < merged.len() implies (#[trigger] merged[j]).0
                        < grown.len() by {
                        if merged[j] != m {
                            assert(tokens.contains(merged[j]));
                            let x = choose|x: int| 0 <= x < tokens.len() && tokens[x] == merged[j];
                            assert(tokens[x].0 < values.len());
                        }
                    }
                }
                law_run(grown, merged, done + 1);
            }
        },
    }
}

/// The first cut spells out the text: the tokens of the characters, one
/// character each, in the order of the text.
pub proof fn law_first_cut(text: Seq<char>)
    requires
        text.len() <= usize::MAX,
    ensures
        initial_tokens(text).len() == text.len(),
        all_below(initial_tokens(text), initial_values(text).len()),
        values_of(initial_values(text), initial_tokens(text)) == Seq::new(
            text.len(),
            |i: int| seq![text[i]],
        ),
        text_of(initial_values(text), initial_tokens(text)) == text,
        initial_values(text).len() <= text.len(),
{
    lemma_distinct(text);
    let seen = distinct(text);
    let vals = values_of(initial_values(text), initial_tokens(text));
    let singles = Seq::new(text.len(), |i: int| seq![text[i]]);
    assert forall|i: int| 0 <= i < text.len() implies (#[trigger] initial_tokens(text)[i]).0
        < initial_values(text).len() && vals[i] == singles[i] by {
        assert(text.contains(text[i]));
        assert(seen.contains(text[i]));
        let k = seen.index_of(text[i]);
        assert(0 <= k < seen.len() && seen[k] == text[i]);
    }
    assert(vals =~= singles);
    lemma_singles_spell(text);
}

/// Characters taken one by one spell out the text.
proof fn lemma_singles_spell(text: Seq<char>)
    ensures
        Seq::new(text.len(), |i: int| seq![text[i]]).flatten() == text,
    decreases text.len(),
{
    let singles = Seq::new(text.len(), |i: int| seq![text[i]]);
    if text.len() == 0 {
        assert(singles.flatten() =~= text);
    } else {
        let head = text.drop_last();
        let before = Seq::new(head.len(), |i: int| seq![head[i]]);
        lemma_singles_spell(head);
        assert(singles =~= before.push(seq![text.last()]));
        before.lemma_flatten_push(seq![text.last()]);
        assert(head + seq![text.last()] =~= text);
    }
}

/// Every run on a text ends after at most `MAX_ITERATIONS` merges and fewer
/// merges than the text has characters, never has more positions than the
/// text has characters, and spells out the text at its end.
pub proof fn law_outcome(text: Seq<char>)
    requires
        text.len() + MAX_ITERATIONS <= usize::MAX,
    ensures
        outcome_of(text).iterations <= MAX_ITERATIONS,
        outcome_of(text).tokens.len() + outcome_of(text).iterations <= text.len(),
        text.len() > 0 ==> outcome_of(text).tokens.len() > 0,
        text_of(outcome_of(text).values, outcome_of(text).tokens) == text,
        outcome_of(text).reason == StopReason::EmptyInput <==> text.len() == 0,
        outcome_of(text).reason == StopReason::Exhausted <==> outcome_of(text).tokens.len() == 1,
        outcome_of(text).reason == StopReason::IterationLimit <==> outcome_of(text).tokens.len()
            >= 2,
        text.len() == 1 ==> outcome_of(text).iterations == 0 && outcome_of(text).values.len()
            == 1,
{
    if text.len() == 0 {
        assert(values_of(Seq::<Seq<char>>::empty(), Seq::<TokenRef>::empty()) =~= Seq::<
            Seq<char>,
        >::empty());
        assert(text =~= Seq::<char>::empty());
    } else {
        law_first_cut(text);
        law_run(initial_values(text), initial_tokens(text), 0);
        if text.len() == 1 {
            law_pick(initial_values(text), initial_tokens(text));
            lemma_distinct(text);
            assert(text.contains(text[0]));
            assert(distinct(text).contains(text[0]));
        }
    }
}

} // verus!
