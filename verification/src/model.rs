//! The mathematical model of a merge: what becomes of a sequence of tokens,
//! and how the vocabulary and the sequence refer to each other.

use crate::chain::{DLLTokenRef, Sequence};
use crate::token::{TokenRef, Vocabulary};
use vstd::prelude::*;

verus! {

/// The sequence `s` with every pair `a`, `b` replaced by `m`, taken from the
/// left: a token that a replaced pair has used up cannot start or end another.
pub open spec fn merge_seq(s: Seq<TokenRef>, a: TokenRef, b: TokenRef, m: TokenRef) -> Seq<
    TokenRef,
>
    decreases s.len(),
{
    if s.len() < 2 {
        s
    } else if s[0] == a && s[1] == b {
        seq![m] + merge_seq(s.skip(2), a, b, m)
    } else {
        seq![s[0]] + merge_seq(s.skip(1), a, b, m)
    }
}

/// The positions of the chain `s` with tokens `t` after the merge: a position
/// that is not replaced stays, and the replaced pairs give way, from the left,
/// to the new positions `fresh`, `fresh + 1` and so on.
pub open spec fn merge_places(
    s: Seq<DLLTokenRef>,
    t: Seq<TokenRef>,
    a: TokenRef,
    b: TokenRef,
    fresh: nat,
) -> Seq<DLLTokenRef>
    decreases s.len(),
{
    if s.len() < 2 {
        s
    } else if t[0] == a && t[1] == b {
        seq![DLLTokenRef(fresh as usize)] + merge_places(s.skip(2), t.skip(2), a, b, fresh + 1)
    } else {
        seq![s[0]] + merge_places(s.skip(1), t.skip(1), a, b, fresh)
    }
}

/// Where no `a` stands before place `z`, the merge leaves the first `z`
/// positions as they are.
pub proof fn lemma_merge_places_skip_prefix(
    s: Seq<DLLTokenRef>,
    t: Seq<TokenRef>,
    z: int,
    a: TokenRef,
    b: TokenRef,
    fresh: nat,
)
    requires
        s.len() == t.len(),
        0 <= z <= s.len(),
        forall|x: int| 0 <= x < z ==> t[x] != a,
    ensures
        merge_places(s, t, a, b, fresh) == s.take(z) + merge_places(
            s.skip(z),
            t.skip(z),
            a,
            b,
            fresh,
        ),
    decreases z,
{
    if z == 0 {
        assert(s.skip(0) =~= s);
        assert(t.skip(0) =~= t);
        assert(s.take(0) + merge_places(s, t, a, b, fresh) =~= merge_places(s, t, a, b, fresh));
    } else if s.len() < 2 {
        assert(s.skip(1).len() == 0);
        assert(s.take(1) + merge_places(s.skip(1), t.skip(1), a, b, fresh) =~= s);
    } else {
        assert(t[0] != a);
        let rest = s.skip(1);
        let rest_t = t.skip(1);
        assert forall|x: int| 0 <= x < z - 1 implies rest_t[x] != a by {
            assert(rest_t[x] == t[x + 1]);
        }
        lemma_merge_places_skip_prefix(rest, rest_t, z - 1, a, b, fresh);
        assert(rest.skip(z - 1) =~= s.skip(z));
        assert(rest_t.skip(z - 1) =~= t.skip(z));
        assert(seq![s[0]] + rest.take(z - 1) =~= s.take(z));
        assert(seq![s[0]] + (rest.take(z - 1) + merge_places(s.skip(z), t.skip(z), a, b, fresh))
            =~= s.take(z) + merge_places(s.skip(z), t.skip(z), a, b, fresh));
    }
}

/// A first position that does not start the pair stays.
pub proof fn lemma_merge_places_keep(
    s: Seq<DLLTokenRef>,
    t: Seq<TokenRef>,
    a: TokenRef,
    b: TokenRef,
    fresh: nat,
)
    requires
        s.len() == t.len(),
        s.len() >= 1,
        !(s.len() >= 2 && t[0] == a && t[1] == b),
    ensures
        merge_places(s, t, a, b, fresh) == seq![s[0]] + merge_places(
            s.skip(1),
            t.skip(1),
            a,
            b,
            fresh,
        ),
{
    if s.len() < 2 {
        assert(s.skip(1).len() == 0);
        assert(seq![s[0]] + merge_places(s.skip(1), t.skip(1), a, b, fresh) =~= s);
    }
}

/// A chain without `a` is left as it is.
pub proof fn lemma_merge_places_absent(
    s: Seq<DLLTokenRef>,
    t: Seq<TokenRef>,
    a: TokenRef,
    b: TokenRef,
    fresh: nat,
)
    requires
        s.len() == t.len(),
        forall|x: int| 0 <= x < t.len() ==> t[x] != a,
    ensures
        merge_places(s, t, a, b, fresh) == s,
{
    lemma_merge_places_skip_prefix(s, t, s.len() as int, a, b, fresh);
    assert(s.skip(s.len() as int).len() == 0);
    assert(s.take(s.len() as int) + merge_places(
        s.skip(s.len() as int),
        t.skip(s.len() as int),
        a,
        b,
        fresh,
    ) =~= s);
}

/// The string values of the tokens `tokens`, looked up in `values` by
/// identifier.
pub open spec fn values_of(values: Seq<Seq<char>>, tokens: Seq<TokenRef>) -> Seq<Seq<char>> {
    Seq::new(tokens.len(), |i: int| values[tokens[i].0 as int])
}

/// The text that the tokens `tokens` spell out.
pub open spec fn text_of(values: Seq<Seq<char>>, tokens: Seq<TokenRef>) -> Seq<char> {
    values_of(values, tokens).flatten()
}

/// Whether `a` directly followed by `b` stands somewhere in `s`.
pub open spec fn has_pair(s: Seq<TokenRef>, a: TokenRef, b: TokenRef) -> bool {
    exists|i: int| 0 <= i < s.len() - 1 && #[trigger] s[i] == a && s[i + 1] == b
}

/// Where no `a` stands before place `z`, the merge leaves the first `z` tokens
/// as they are.
pub proof fn lemma_merge_seq_skip_prefix(
    s: Seq<TokenRef>,
    z: int,
    a: TokenRef,
    b: TokenRef,
    m: TokenRef,
)
    requires
        0 <= z <= s.len(),
        forall|x: int| 0 <= x < z ==> s[x] != a,
    ensures
        merge_seq(s, a, b, m) == s.take(z) + merge_seq(s.skip(z), a, b, m),
    decreases z,
{
    if z == 0 {
        assert(s.skip(0) =~= s);
        assert(s.take(0) + merge_seq(s, a, b, m) =~= merge_seq(s, a, b, m));
    } else if s.len() < 2 {
        assert(s.skip(1).len() == 0);
        assert(s.take(1) + merge_seq(s.skip(1), a, b, m) =~= s);
    } else {
        assert(s[0] != a);
        let rest = s.skip(1);
        assert forall|x: int| 0 <= x < z - 1 implies rest[x] != a by {
            assert(rest[x] == s[x + 1]);
        }
        lemma_merge_seq_skip_prefix(rest, z - 1, a, b, m);
        assert(rest.skip(z - 1) =~= s.skip(z));
        assert(seq![s[0]] + rest.take(z - 1) =~= s.take(z));
        assert(seq![s[0]] + (rest.take(z - 1) + merge_seq(s.skip(z), a, b, m)) =~= s.take(z)
            + merge_seq(s.skip(z), a, b, m));
    }
}

/// A first token that does not start the pair stays.
pub proof fn lemma_merge_seq_keep(s: Seq<TokenRef>, a: TokenRef, b: TokenRef, m: TokenRef)
    requires
        s.len() >= 1,
        !(s.len() >= 2 && s[0] == a && s[1] == b),
    ensures
        merge_seq(s, a, b, m) == seq![s[0]] + merge_seq(s.skip(1), a, b, m),
{
    if s.len() < 2 {
        assert(s.skip(1).len() == 0);
        assert(seq![s[0]] + merge_seq(s.skip(1), a, b, m) =~= s);
    }
}

/// A sequence without `a` is left as it is.
pub proof fn lemma_merge_seq_absent(s: Seq<TokenRef>, a: TokenRef, b: TokenRef, m: TokenRef)
    requires
        forall|x: int| 0 <= x < s.len() ==> s[x] != a,
    ensures
        merge_seq(s, a, b, m) == s,
{
    lemma_merge_seq_skip_prefix(s, s.len() as int, a, b, m);
    assert(s.skip(s.len() as int).len() == 0);
    assert(s.take(s.len() as int) + merge_seq(s.skip(s.len() as int), a, b, m) =~= s);
}

/// A merge never makes the sequence longer, and makes it shorter where the
/// pair stands in it.
pub proof fn lemma_merge_seq_len(s: Seq<TokenRef>, a: TokenRef, b: TokenRef, m: TokenRef)
    ensures
        merge_seq(s, a, b, m).len() <= s.len(),
        has_pair(s, a, b) ==> merge_seq(s, a, b, m).len() < s.len(),
        !has_pair(s, a, b) ==> merge_seq(s, a, b, m) == s,
    decreases s.len(),
{
    if s.len() < 2 {
    } else if s[0] == a && s[1] == b {
        lemma_merge_seq_len(s.skip(2), a, b, m);
    } else {
        let rest = s.skip(1);
        lemma_merge_seq_len(rest, a, b, m);
        if has_pair(s, a, b) {
            let i = choose|i: int| 0 <= i < s.len() - 1 && #[trigger] s[i] == a && s[i + 1] == b;
            assert(i >= 1);
            assert(rest[i - 1] == a && rest[i - 1 + 1] == b);
        } else {
            if has_pair(rest, a, b) {
                let i = choose|i: int|
                    0 <= i < rest.len() - 1 && #[trigger] rest[i] == a && rest[i + 1] == b;
                assert(s[i + 1] == a && s[i + 1 + 1] == b);
            }
            assert(seq![s[0]] + rest =~= s);
        }
    }
}

/// The elements of `s` without repetition, each at the place of its first
/// appearance.
pub open spec fn distinct<T>(s: Seq<T>) -> Seq<T>
    decreases s.len(),
{
    if s.len() == 0 {
        Seq::empty()
    } else {
        let before = distinct(s.drop_last());
        if before.contains(s.last()) {
            before
        } else {
            before.push(s.last())
        }
    }
}

/// `distinct(s)` holds every element of `s`, and each once.
pub proof fn lemma_distinct<T>(s: Seq<T>)
    ensures
        distinct(s).no_duplicates(),
        distinct(s).len() <= s.len(),
        forall|x: T| #[trigger] distinct(s).contains(x) <==> s.contains(x),
    decreases s.len(),
{
    if s.len() > 0 {
        let head = s.drop_last();
        let before = distinct(head);
        lemma_distinct(head);
        assert forall|x: T| #[trigger] distinct(s).contains(x) <==> s.contains(x) by {
            if s.contains(x) {
                let i = choose|i: int| 0 <= i < s.len() && s[i] == x;
                if i < s.len() - 1 {
                    assert(head[i] == x);
                    assert(before.contains(x));
                    let j = choose|j: int| 0 <= j < before.len() && before[j] == x;
                    assert(distinct(s)[j] == x);
                } else if before.contains(x) {
                } else {
                    assert(before.push(x)[before.len() as int] == x);
                }
            }
            if distinct(s).contains(x) {
                let j = choose|j: int| 0 <= j < distinct(s).len() && distinct(s)[j] == x;
                if j < before.len() {
                    assert(before[j] == x);
                    assert(before.contains(x));
                    assert(head.contains(x));
                    let i = choose|i: int| 0 <= i < head.len() && head[i] == x;
                    assert(s[i] == x);
                } else {
                    assert(s[s.len() - 1] == x);
                }
            }
        }
    }
}

/// The vocabulary that the text `text` starts with: one token for each
/// character that stands in it, numbered in the order of first appearance.
pub open spec fn initial_values(text: Seq<char>) -> Seq<Seq<char>> {
    Seq::new(distinct(text).len(), |t: int| seq![distinct(text)[t]])
}

/// The sequence that the text `text` starts with: for each character its
/// token.
pub open spec fn initial_tokens(text: Seq<char>) -> Seq<TokenRef> {
    Seq::new(text.len(), |i: int| TokenRef(distinct(text).index_of(text[i]) as usize))
}

/// The `j`-th occurrence registered for token `t` is a position of the arena
/// that carries `t`.
pub open spec fn occurrence_ok(vocab: Vocabulary, seq: Sequence, t: int, j: int) -> bool {
    let p = vocab@[t].occurrences@[j];
    &&& p.0 < seq.nodes().len()
    &&& seq.nodes()[p.0 as int].token.0 == t
}

/// The live position at place `i` is registered with its token.
pub open spec fn registered_at(vocab: Vocabulary, seq: Sequence, i: int) -> bool {
    vocab@[seq.node_at(i).token.0 as int].occurrences@.contains(seq@[i])
}

/// The vocabulary and the sequence fit together: every position carries a
/// token of the vocabulary; a token's occurrences are positions that carry
/// it, oldest first; every live position is among the occurrences of its
/// token; and the live occurrences of a token follow the chain.
pub open spec fn linked(vocab: Vocabulary, seq: Sequence) -> bool {
    &&& seq.ascending()
    &&& forall|p: int|
        0 <= p < seq.nodes().len() ==> (#[trigger] seq.nodes()[p]).token.0 < vocab@.len()
    &&& forall|t: int, j: int|
        0 <= t < vocab@.len() && 0 <= j < vocab@[t].occurrences@.len() ==> #[trigger] occurrence_ok(
            vocab,
            seq,
            t,
            j,
        )
    &&& forall|t: int, j: int, k: int|
        0 <= t < vocab@.len() && 0 <= j < k < vocab@[t].occurrences@.len() ==> (
        #[trigger] vocab@[t].occurrences@[j]).0 < (#[trigger] vocab@[t].occurrences@[k]).0
    &&& forall|i: int| 0 <= i < seq@.len() ==> #[trigger] registered_at(vocab, seq, i)
}

} // verus!
