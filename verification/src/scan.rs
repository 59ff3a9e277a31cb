//! Walking the sequence to count its pairs and to pick the pair to merge.

use crate::chain::Sequence;
use crate::model::{linked, values_of};
use crate::pairs::{
    lemma_pair_count_bound, lemma_pair_count_prefix, lemma_pair_count_push, pair_count,
    PairCounts,
};
use crate::select::{first_max, pair_at, running_counts};
use crate::token::{TokenRef, Vocabulary};
use vstd::prelude::*;
use vstd::string::*;

verus! {

/// Every count of `counts` can take the pairs of `values` on top without
/// leaving the range of the counter.
pub open spec fn has_room(counts: PairCounts, values: Seq<Seq<char>>) -> bool {
    forall|left: Seq<char>, right: Seq<char>|
        (#[trigger] counts.count(left, right)) + pair_count(values, left, right) <= i128::MAX
}

/// Walks the sequence once from the head. Every pair of neighbours adds one to
/// its count in `counts`, on top of what `counts` held. A pair takes the lead
/// when its count, as just raised, is greater than zero and greater than the
/// count that the leader had when it took the lead; a later pair that only
/// equals the leader does not replace it. The pair that leads at the end is
/// returned: the first to reach the highest count met. Returns `None` where
/// no count met is greater than zero, as for a sequence of fewer than two
/// positions.
pub fn count_token_pairs(seq: &Sequence, vocab: &Vocabulary, counts: &mut PairCounts) -> (best:
    Option<(TokenRef, TokenRef)>)
    requires
        seq.wf(),
        vocab.wf(),
        old(counts).wf(),
        linked(*vocab, *seq),
        has_room(*old(counts), values_of(vocab.values(), seq.tokens())),
    ensures
        final(counts).wf(),
        forall|left: Seq<char>, right: Seq<char>|
            (#[trigger] final(counts).count(left, right))
                == old(counts).count(left, right) + pair_count(
                values_of(vocab.values(), seq.tokens()),
                left,
                right,
            ),
        forall|k: (Seq<char>, Seq<char>)| #[trigger]
            final(counts)@.contains_key(k) <==> old(counts)@.contains_key(k) || pair_count(
                values_of(vocab.values(), seq.tokens()),
                k.0,
                k.1,
            ) > 0,
        best == pair_at(
            seq.tokens(),
            first_max(running_counts(values_of(vocab.values(), seq.tokens()), old(counts)@)),
        ),
{
    let ghost values = values_of(vocab.values(), seq.tokens());
    let ghost tokens = seq.tokens();
    let ghost seen = running_counts(values, old(counts)@);
    let ghost n = seq@.len() as int;
    let head = match seq.head() {
        Some(h) => h,
        None => {
            proof {
                assert(seen.len() == 0);
                assert forall|left: Seq<char>, right: Seq<char>|
                    (#[trigger] counts.count(left, right))
                        == old(counts).count(left, right) + pair_count(
                        values,
                        left,
                        right,
                    ) by {}
            }
            return None;
        },
    };
    assert(seq.linked_at(0));
    let mut left = head;
    let mut next = seq.get(head).next;
    let mut best: Option<(TokenRef, TokenRef)> = None;
    let mut max: i128 = 0;
    let ghost mut i: int = 0;
    let ghost mut lead: Option<int> = None;
    proof {
        assert(seen.take(0) =~= Seq::<int>::empty());
    }
    while next.is_some()
        invariant
            seq.wf(),
            vocab.wf(),
            counts.wf(),
            linked(*vocab, *seq),
            has_room(*old(counts), values),
            values == values_of(vocab.values(), seq.tokens()),
            tokens == seq.tokens(),
            seen == running_counts(values, old(counts)@),
            n == seq@.len(),
            0 <= i < n,
            left == seq@[i],
            next == seq.node_at(i).next,
            forall|left: Seq<char>, right: Seq<char>|
                (#[trigger] counts.count(left, right))
                    == old(counts).count(left, right) + pair_count(
                    values.take(i + 1),
                    left,
                    right,
                ),
            forall|k: (Seq<char>, Seq<char>)| #[trigger]
                counts@.contains_key(k) <==> old(counts)@.contains_key(k) || pair_count(
                    values.take(i + 1),
                    k.0,
                    k.1,
                ) > 0,
            lead == first_max(seen.take(i)),
            best == pair_at(tokens, lead),
            max == (match lead {
                Some(j) => seen[j],
                None => 0,
            }),
            match lead {
                Some(j) => 0 <= j < i,
                None => true,
            },
        decreases n - i,
    {
        let right = next.unwrap();
        proof {
            assert(seq.linked_at(i));
            assert(seq.linked_at(i + 1));
            assert(seq.nodes()[left.0 as int].token.0 < vocab@.len());
            assert(seq.nodes()[right.0 as int].token.0 < vocab@.len());
        }
        let left_token = seq.get(left).token;
        let right_token = seq.get(right).token;
        let left_value = vocab.get(left_token).val.as_str();
        let right_value = vocab.get(right_token).val.as_str();
        proof {
            assert(values[i] == left_value@);
            assert(values[i + 1] == right_value@);
            assert(values.take(i + 2) =~= values.take(i + 1).push(values[i + 1]));
            assert(values.take(i + 1).last() == values[i]);
            lemma_pair_count_push(values.take(i + 1), values[i + 1], values[i], values[i + 1]);
            lemma_pair_count_prefix(values, i + 2, values[i], values[i + 1]);
            assert(old(counts).count(values[i], values[i + 1]) + pair_count(
                values,
                values[i],
                values[i + 1],
            ) <= i128::MAX);
        }
        let ghost earlier = *counts;
        proof {
            earlier.lemma_count_range(values[i], values[i + 1]);
        }
        counts.adjust(left_value, right_value, 1);
        let met = counts.count_of(left_value, right_value);
        proof {
            assert forall|l: Seq<char>, r: Seq<char>|
                (#[trigger] counts.count(l, r)) == old(counts).count(l, r) + pair_count(
                    values.take(i + 2),
                    l,
                    r,
                ) by {
                lemma_pair_count_push(values.take(i + 1), values[i + 1], l, r);
                assert(earlier.count(l, r) == old(counts).count(l, r) + pair_count(
                    values.take(i + 1),
                    l,
                    r,
                ));
            }
            assert forall|k: (Seq<char>, Seq<char>)| #[trigger]
                counts@.contains_key(k) <==> old(counts)@.contains_key(k) || pair_count(
                    values.take(i + 2),
                    k.0,
                    k.1,
                ) > 0 by {
                lemma_pair_count_push(values.take(i + 1), values[i + 1], k.0, k.1);
                assert(earlier@.contains_key(k) <==> old(counts)@.contains_key(k) || pair_count(
                    values.take(i + 1),
                    k.0,
                    k.1,
                ) > 0);
            }
            assert(met == seen[i]);
            assert(seen.take(i + 1).drop_last() =~= seen.take(i));
            assert(seen.take(i + 1).last() == seen[i]);
            match lead {
                Some(j) => {
                    assert(seen.take(i + 1)[j] == seen[j]);
                },
                None => {},
            }
        }
        if met > max {
            best = Some((left_token, right_token));
            max = met;
            proof {
                lead = Some(i);
            }
        }
        left = right;
        next = seq.get(right).next;
        proof {
            i = i + 1;
        }
    }
    proof {
        assert(seq.linked_at(i));
        assert(i == n - 1);
        assert(values.take(i + 1) =~= values);
        assert(seen.take(i) =~= seen);
    }
    best
}

/// Picks the pair that a scan on top of `counts` would pick, and leaves
/// `counts` as it is: the walk keeps the number of times it has met each pair
/// in a tracker of its own and adds to it what `counts` holds for the pair.
/// The pair takes the lead and is returned as in `count_token_pairs`.
pub fn best_pair(seq: &Sequence, vocab: &Vocabulary, counts: &PairCounts) -> (best: Option<
    (TokenRef, TokenRef),
>)
    requires
        seq.wf(),
        vocab.wf(),
        counts.wf(),
        linked(*vocab, *seq),
        has_room(*counts, values_of(vocab.values(), seq.tokens())),
    ensures
        best == pair_at(
            seq.tokens(),
            first_max(running_counts(values_of(vocab.values(), seq.tokens()), counts@)),
        ),
{
    let ghost values = values_of(vocab.values(), seq.tokens());
    let ghost tokens = seq.tokens();
    let ghost seen = running_counts(values, counts@);
    let ghost n = seq@.len() as int;
    let head = match seq.head() {
        Some(h) => h,
        None => {
            assert(seen.len() == 0);
            return None;
        },
    };
    assert(seq.linked_at(0));
    let mut met_so_far = PairCounts::new();
    let mut left = head;
    let mut next = seq.get(head).next;
    let mut best: Option<(TokenRef, TokenRef)> = None;
    let mut max: i128 = 0;
    let ghost mut i: int = 0;
    let ghost mut lead: Option<int> = None;
    proof {
        assert(seen.take(0) =~= Seq::<int>::empty());
        seq.lemma_arena_bound();
    }
    while next.is_some()
        invariant
            seq.wf(),
            vocab.wf(),
            counts.wf(),
            met_so_far.wf(),
            linked(*vocab, *seq),
            has_room(*counts, values),
            values == values_of(vocab.values(), seq.tokens()),
            tokens == seq.tokens(),
            seen == running_counts(values, counts@),
            n == seq@.len(),
            n <= usize::MAX,
            0 <= i < n,
            left == seq@[i],
            next == seq.node_at(i).next,
            forall|left: Seq<char>, right: Seq<char>|
                (#[trigger] met_so_far.count(left, right)) == pair_count(
                    values.take(i + 1),
                    left,
                    right,
                ),
            lead == first_max(seen.take(i)),
            best == pair_at(tokens, lead),
            max == (match lead {
                Some(j) => seen[j],
                None => 0,
            }),
            match lead {
                Some(j) => 0 <= j < i,
                None => true,
            },
        decreases n - i,
    {
        let right = next.unwrap();
        proof {
            assert(seq.linked_at(i));
            assert(seq.linked_at(i + 1));
            assert(seq.nodes()[left.0 as int].token.0 < vocab@.len());
            assert(seq.nodes()[right.0 as int].token.0 < vocab@.len());
        }
        let left_token = seq.get(left).token;
        let right_token = seq.get(right).token;
        let left_value = vocab.get(left_token).val.as_str();
        let right_value = vocab.get(right_token).val.as_str();
        proof {
            assert(values[i] == left_value@);
            assert(values[i + 1] == right_value@);
            assert(values.take(i + 2) =~= values.take(i + 1).push(values[i + 1]));
            assert(values.take(i + 1).last() == values[i]);
            lemma_pair_count_push(values.take(i + 1), values[i + 1], values[i], values[i + 1]);
            lemma_pair_count_prefix(values, i + 2, values[i], values[i + 1]);
            lemma_pair_count_bound(values, values[i], values[i + 1]);
            counts.lemma_count_range(values[i], values[i + 1]);
            assert(counts.count(values[i], values[i + 1]) + pair_count(
                values,
                values[i],
                values[i + 1],
            ) <= i128::MAX);
        }
        let ghost earlier = met_so_far;
        met_so_far.adjust(left_value, right_value, 1);
        let met = counts.count_of(left_value, right_value) + met_so_far.count_of(
            left_value,
            right_value,
        );
        proof {
            assert forall|l: Seq<char>, r: Seq<char>|
                (#[trigger] met_so_far.count(l, r)) == pair_count(values.take(i + 2), l, r) by {
                lemma_pair_count_push(values.take(i + 1), values[i + 1], l, r);
                assert(earlier.count(l, r) == pair_count(values.take(i + 1), l, r));
            }
            assert(met == seen[i]);
            assert(seen.take(i + 1).drop_last() =~= seen.take(i));
            assert(seen.take(i + 1).last() == seen[i]);
            match lead {
                Some(j) => {
                    assert(seen.take(i + 1)[j] == seen[j]);
                },
                None => {},
            }
        }
        if met > max {
            best = Some((left_token, right_token));
            max = met;
            proof {
                lead = Some(i);
            }
        }
        left = right;
        next = seq.get(right).next;
        proof {
            i = i + 1;
        }
    }
    proof {
        assert(seq.linked_at(i));
        assert(i == n - 1);
        assert(seen.take(i) =~= seen);
    }
    best
}

} // verus!
