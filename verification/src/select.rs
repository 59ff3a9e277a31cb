//! The choice of the pair to merge: the first strict maximum of a row of
//! counts, one count for each pair of neighbours in the sequence.

use crate::pairs::{count_in, pair_count};
use crate::token::TokenRef;
use vstd::prelude::*;

verus! {

/// The place of the first strict maximum of `s` above zero: going through `s`
/// from the left, a value takes the lead only if it is greater than the leader
/// so far, and the first leader must be greater than zero. `None` where no
/// value is greater than zero.
pub open spec fn first_max(s: Seq<int>) -> Option<int>
    decreases s.len(),
{
    if s.len() == 0 {
        None
    } else {
        let before = first_max(s.drop_last());
        let top = match before {
            Some(i) => s[i],
            None => 0,
        };
        if s.last() > top {
            Some(s.len() - 1)
        } else {
            before
        }
    }
}

/// Whether `i` is the place of a value of `s` that is greater than zero,
/// greater than every value before it and not less than any value after it.
pub open spec fn is_first_max(s: Seq<int>, i: int) -> bool {
    &&& 0 <= i < s.len()
    &&& s[i] > 0
    &&& forall|j: int| 0 <= j < i ==> s[j] < s[i]
    &&& forall|j: int| i <= j < s.len() ==> s[j] <= s[i]
}

/// `first_max` finds the place that `is_first_max` describes, or finds that
/// nothing is greater than zero.
pub proof fn lemma_first_max(s: Seq<int>)
    ensures
        match first_max(s) {
            Some(i) => is_first_max(s, i),
            None => forall|j: int| 0 <= j < s.len() ==> s[j] <= 0,
        },
    decreases s.len(),
{
    if s.len() > 0 {
        let head = s.drop_last();
        lemma_first_max(head);
        match first_max(head) {
            Some(i) => {
                assert(is_first_max(head, i));
                assert forall|j: int| 0 <= j < head.len() implies head[j] == s[j] by {}
                if s.last() > s[i] {
                    assert forall|j: int| 0 <= j < s.len() - 1 implies s[j] < s.last() by {
                        assert(head[j] <= head[i]);
                    }
                } else {
                    assert forall|j: int| i <= j < s.len() implies s[j] <= s[i] by {
                        if j < s.len() - 1 {
                            assert(head[j] <= head[i]);
                        }
                    }
                    assert forall|j: int| 0 <= j < i implies s[j] < s[i] by {
                        assert(head[j] < head[i]);
                    }
                }
            },
            None => {
                assert forall|j: int| 0 <= j < s.len() - 1 implies s[j] <= 0 by {
                    assert(head[j] <= 0);
                }
            },
        }
    }
}

/// The number of pairs of neighbours in a sequence of `n` elements.
pub open spec fn pairs_in(n: nat) -> nat {
    if n == 0 {
        0
    } else {
        (n - 1) as nat
    }
}

/// The counts that a scan on top of `base` meets, pair by pair: for the pair
/// at places `i` and `i + 1`, what `base` holds for it and the number of
/// times the scan has met it up to there.
pub open spec fn running_counts(
    values: Seq<Seq<char>>,
    base: Map<(Seq<char>, Seq<char>), int>,
) -> Seq<int> {
    Seq::new(
        pairs_in(values.len()),
        |i: int|
            count_in(base, values[i], values[i + 1]) + pair_count(
                values.take(i + 2),
                values[i],
                values[i + 1],
            ),
    )
}

/// The tokens at places `i` and `i + 1`.
pub open spec fn pair_at(tokens: Seq<TokenRef>, i: Option<int>) -> Option<(TokenRef, TokenRef)> {
    match i {
        Some(i) => Some((tokens[i], tokens[i + 1])),
        None => None,
    }
}

} // verus!
