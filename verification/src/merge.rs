//! The merge of one pair of tokens over the whole sequence.

use crate::chain::{DLLTokenRef, Sequence};
use crate::laws::{all_below, law_merge_keeps_text};
use crate::model::{
    linked, merge_places, merge_seq, occurrence_ok, registered_at, text_of, values_of,
};
use crate::pairs::{
    bumped, lemma_pair_count_bound, lemma_pair_count_concat, pair_count, PairCounts,
};
use crate::pass::{
    lemma_pass_dead, lemma_pass_done, lemma_pass_frame, lemma_pass_keep, lemma_pass_locate,
    lemma_pass_merge, lemma_pass_rest, lemma_pass_shape, lemma_pass_start, lemma_pass_values,
    pass_frame, pass_inv, starts_with_pair, values_tail,
};
use crate::token::{TokenRef, Vocabulary};
use vstd::prelude::*;
use vstd::string::*;

verus! {

/// One if the pair `(x, y)` is the pair `(left, right)`, zero if not.
pub open spec fn hit(x: Seq<char>, y: Seq<char>, left: Seq<char>, right: Seq<char>) -> int {
    if x == left && y == right {
        1
    } else {
        0
    }
}

/// By how much the count of the pair `(left, right)` changes when `a`
/// followed by `b` is replaced by `m`, with `before` standing to the left of
/// `a` and `after` to the right of `b`, where there is such a neighbour: the
/// pair itself and the two pairs across its borders go, the two pairs that
/// `m` forms with the neighbours come.
pub open spec fn splice_delta(
    before: Option<Seq<char>>,
    a: Seq<char>,
    b: Seq<char>,
    m: Seq<char>,
    after: Option<Seq<char>>,
    left: Seq<char>,
    right: Seq<char>,
) -> int {
    -hit(a, b, left, right) + (match before {
        Some(x) => hit(x, m, left, right) - hit(x, a, left, right),
        None => 0,
    }) + (match after {
        Some(y) => hit(m, y, left, right) - hit(b, y, left, right),
        None => 0,
    })
}

/// The entries of the tracker after one replacement of `a` followed by `b` by
/// `m`: the pair `(a, b)` loses one; with a left neighbour `before`,
/// `(before, a)` loses one and `(before, m)` gains one; with a right neighbour
/// `after`, `(b, after)` loses one and `(m, after)` gains one, in this order.
pub open spec fn recounted(
    entries: Map<(Seq<char>, Seq<char>), int>,
    before: Option<Seq<char>>,
    a: Seq<char>,
    b: Seq<char>,
    m: Seq<char>,
    after: Option<Seq<char>>,
) -> Map<(Seq<char>, Seq<char>), int> {
    let first = bumped(entries, a, b, -1);
    let second = match before {
        Some(x) => bumped(bumped(first, x, a, -1), x, m, 1),
        None => first,
    };
    match after {
        Some(y) => bumped(bumped(second, b, y, -1), m, y, 1),
        None => second,
    }
}

/// The value at place `i`, if the sequence has such a place.
pub open spec fn neighbour(values: Seq<Seq<char>>, i: int) -> Option<Seq<char>> {
    if 0 <= i < values.len() {
        Some(values[i])
    } else {
        None
    }
}

/// Replacing the values at places `i` and `i + 1` by `m` changes every pair
/// count by `splice_delta`.
pub proof fn lemma_counts_after_splice(
    values: Seq<Seq<char>>,
    i: int,
    m: Seq<char>,
    left: Seq<char>,
    right: Seq<char>,
)
    requires
        0 <= i < values.len() - 1,
    ensures
        pair_count(values.take(i) + seq![m] + values.skip(i + 2), left, right) == pair_count(
            values,
            left,
            right,
        ) + splice_delta(
            neighbour(values, i - 1),
            values[i],
            values[i + 1],
            m,
            neighbour(values, i + 2),
            left,
            right,
        ),
{
    let head = values.take(i);
    let tail = values.skip(i + 2);
    let pair = seq![values[i], values[i + 1]];
    let one = seq![m];
    assert(values =~= head + (pair + tail));
    assert(head + one + tail =~= head + (one + tail));
    lemma_pair_count_concat(head, pair + tail, left, right);
    lemma_pair_count_concat(pair, tail, left, right);
    lemma_pair_count_concat(head, one + tail, left, right);
    lemma_pair_count_concat(one, tail, left, right);
    assert(pair.drop_last() =~= seq![values[i]]);
    assert(pair_count(pair.drop_last(), left, right) == 0);
    assert(pair_count(pair, left, right) == hit(values[i], values[i + 1], left, right));
    assert(pair_count(one, left, right) == 0);
    if i > 0 {
        assert(head.last() == values[i - 1]);
    }
    if i + 2 < values.len() {
        assert(tail.first() == values[i + 2]);
    }
    assert((pair + tail).first() == values[i]);
    assert((one + tail).first() == m);
}

/// Every count of `counts` can rise or fall by `n` without leaving the range
/// of the counter.
pub open spec fn has_margin(counts: PairCounts, n: nat) -> bool {
    forall|left: Seq<char>, right: Seq<char>|
        i128::MIN + n <= #[trigger] counts.count(left, right) <= i128::MAX - n
}

/// The string that an optional string slice holds, if any.
pub open spec fn view_of(s: Option<&str>) -> Option<Seq<char>> {
    match s {
        Some(x) => Some(x@),
        None => None,
    }
}

/// Brings the tracker up to date with one replacement of `a` followed by `b`
/// by `m`: the pair `(a, b)` loses one; with a left neighbour `before`,
/// `(before, a)` loses one and `(before, m)` gains one; with a right neighbour
/// `after`, `(b, after)` loses one and `(m, after)` gains one.
pub fn recount_around(
    counts: &mut PairCounts,
    before: Option<&str>,
    a: &str,
    b: &str,
    m: &str,
    after: Option<&str>,
)
    requires
        old(counts).wf(),
        has_margin(*old(counts), 3),
    ensures
        final(counts).wf(),
        final(counts)@ == recounted(old(counts)@, view_of(before), a@, b@, m@, view_of(after)),
        forall|left: Seq<char>, right: Seq<char>|
            (#[trigger] final(counts).count(left, right)) == old(counts).count(left, right)
                + splice_delta(view_of(before), a@, b@, m@, view_of(after), left, right),
{
    counts.adjust(a, b, -1);
    let ghost c1 = *counts;
    assert forall|left: Seq<char>, right: Seq<char>|
        (#[trigger] c1.count(left, right))
            == old(counts).count(left, right) - hit(a@, b@, left, right) by {}
    match before {
        Some(x) => {
            assert(c1.count(x@, a@) >= old(counts).count(x@, a@) - 1);
            counts.adjust(x, a, -1);
            let ghost c2 = *counts;
            assert(c2.count(x@, m@) <= old(counts).count(x@, m@));
            counts.adjust(x, m, 1);
        },
        None => {},
    }
    let ghost c3 = *counts;
    assert forall|left: Seq<char>, right: Seq<char>|
        (#[trigger] c3.count(left, right)) == c1.count(left, right) + (match view_of(before) {
            Some(x) => hit(x, m@, left, right) - hit(x, a@, left, right),
            None => 0,
        }) by {}
    match after {
        Some(y) => {
            assert(c3.count(b@, y@) >= old(counts).count(b@, y@) - 2);
            counts.adjust(b, y, -1);
            let ghost c4 = *counts;
            assert(c4.count(m@, y@) <= old(counts).count(m@, y@) + 1);
            counts.adjust(m, y, 1);
        },
        None => {},
    }
    assert forall|left: Seq<char>, right: Seq<char>|
        (#[trigger] counts.count(left, right)) == c3.count(left, right) + (match view_of(after) {
            Some(y) => hit(m@, y, left, right) - hit(b@, y, left, right),
            None => 0,
        }) by {}
}

/// The vocabulary and the sequence still fit together after one replacement:
/// `seq1` is `seq0` with `left` and its successor replaced by the new position
/// `r` for `m`, and `vocab1` is `vocab0` with `r` registered for `m`. No
/// position behind the replaced pair may carry `m`.
pub proof fn lemma_linked_step(
    vocab0: Vocabulary,
    seq0: Sequence,
    vocab1: Vocabulary,
    seq1: Sequence,
    left: DLLTokenRef,
    m: TokenRef,
    r: DLLTokenRef,
)
    requires
        seq0.wf(),
        seq1.wf(),
        linked(vocab0, seq0),
        seq0.is_live(left),
        0 <= seq0.place(left) < seq0@.len() - 1,
        seq1@ == seq0@.take(seq0.place(left)) + seq![r] + seq0@.skip(seq0.place(left) + 2),
        r.0 == seq0.nodes().len(),
        seq1.nodes().len() == seq0.nodes().len() + 1,
        seq1.nodes()[r.0 as int].token == m,
        forall|q: int|
            0 <= q < seq0.nodes().len() ==> (#[trigger] seq1.nodes()[q]).token
                == seq0.nodes()[q].token,
        m.0 < vocab0@.len(),
        vocab1@.len() == vocab0@.len(),
        vocab1@[m.0 as int].occurrences@ == vocab0@[m.0 as int].occurrences@.push(r),
        forall|u: int| 0 <= u < vocab0@.len() && u != m.0 ==> #[trigger] vocab1@[u] == vocab0@[u],
        forall|y: int|
            seq0.place(left) + 1 < y < seq0@.len() ==> (#[trigger] seq0.node_at(y)).token != m,
    ensures
        linked(vocab1, seq1),
{
    let i = seq0.place(left);
    let n = seq0@.len() as int;
    assert forall|y: int| 0 <= y < n implies (#[trigger] seq0@[y]).0 < seq0.nodes().len() by {
        assert(seq0.linked_at(y));
    }
    assert forall|y: int| 0 <= y < n - 1 implies #[trigger] seq1@[y] == (if y < i {
        seq0@[y]
    } else if y == i {
        r
    } else {
        seq0@[y + 1]
    }) by {}
    assert forall|y: int| 0 <= y < n - 1 && y != i implies (#[trigger] seq1.node_at(y)).token
        == seq0.node_at(if y < i {
        y
    } else {
        y + 1
    }).token by {}
    assert forall|x: int, y: int|
        0 <= x < y < seq1@.len() && seq1.node_at(x).token == seq1.node_at(y).token implies (
    #[trigger] seq1@[x]).0 < (#[trigger] seq1@[y]).0 by {
        let u = if x < i {
            x
        } else {
            x + 1
        };
        let v = if y < i {
            y
        } else {
            y + 1
        };
        if x == i {
            assert(seq0.node_at(v).token != m);
        } else if y != i {
            assert(seq0.node_at(u).token == seq0.node_at(v).token);
            assert(seq0@[u].0 < seq0@[v].0);
        }
    }
    assert forall|p: int| 0 <= p < seq1.nodes().len() implies (#[trigger] seq1.nodes()[p]).token.0
        < vocab1@.len() by {
        if p < seq0.nodes().len() {
            assert(seq0.nodes()[p].token.0 < vocab0@.len());
        }
    }
    assert forall|t: int, j: int|
        0 <= t < vocab1@.len() && 0 <= j < vocab1@[t].occurrences@.len() implies #[trigger] occurrence_ok(
        vocab1,
        seq1,
        t,
        j,
    ) by {
        if t != m.0 {
            assert(vocab1@[t] == vocab0@[t]);
            assert(occurrence_ok(vocab0, seq0, t, j));
        } else if j < vocab0@[t].occurrences@.len() {
            assert(occurrence_ok(vocab0, seq0, t, j));
        }
    }
    assert forall|t: int, j: int, k: int|
        0 <= t < vocab1@.len() && 0 <= j < k < vocab1@[t].occurrences@.len() implies (
    #[trigger] vocab1@[t].occurrences@[j]).0 < (#[trigger] vocab1@[t].occurrences@[k]).0 by {
        if t != m.0 {
            assert(vocab1@[t] == vocab0@[t]);
            assert(vocab0@[t].occurrences@[j].0 < vocab0@[t].occurrences@[k].0);
        } else if k < vocab0@[t].occurrences@.len() {
            assert(vocab0@[t].occurrences@[j].0 < vocab0@[t].occurrences@[k].0);
        } else {
            assert(occurrence_ok(vocab0, seq0, t, j));
        }
    }
    assert forall|y: int| 0 <= y < seq1@.len() implies #[trigger] registered_at(
        vocab1,
        seq1,
        y,
    ) by {
        if y == i {
            let occ = vocab1@[m.0 as int].occurrences@;
            assert(occ[occ.len() - 1] == r);
        } else {
            let u = if y < i {
                y
            } else {
                y + 1
            };
            assert(registered_at(vocab0, seq0, u));
            let t = seq0.node_at(u).token.0 as int;
            let occ0 = vocab0@[t].occurrences@;
            let j = choose|j: int| 0 <= j < occ0.len() && occ0[j] == seq0@[u];
            assert(seq0.nodes()[seq0@[u].0 as int].token.0 < vocab0@.len());
            if t != m.0 {
                assert(vocab1@[t] == vocab0@[t]);
            }
            assert(vocab1@[t].occurrences@[j] == seq1@[y]);
        }
    }
}

/// The entries of the tracker after the merge of `a`, `b` over a sequence with
/// values `values` and tokens `tokens` that `before` stands in front of: every
/// replacement, from the left, recounts around the replaced pair, with the
/// merged value `m` as left neighbour where the pair before it was replaced
/// too.
pub open spec fn merge_entries(
    entries: Map<(Seq<char>, Seq<char>), int>,
    before: Option<Seq<char>>,
    values: Seq<Seq<char>>,
    tokens: Seq<TokenRef>,
    a: TokenRef,
    b: TokenRef,
    m: Seq<char>,
) -> Map<(Seq<char>, Seq<char>), int>
    decreases values.len(),
{
    if values.len() < 2 {
        entries
    } else if tokens[0] == a && tokens[1] == b {
        merge_entries(
            recounted(entries, before, values[0], values[1], m, neighbour(values, 2)),
            Some(m),
            values.skip(2),
            tokens.skip(2),
            a,
            b,
            m,
        )
    } else {
        merge_entries(entries, Some(values[0]), values.skip(1), tokens.skip(1), a, b, m)
    }
}

/// Where no `a` stands before place `z`, the merge leaves the entries alone up
/// to there.
pub proof fn lemma_merge_entries_skip(
    entries: Map<(Seq<char>, Seq<char>), int>,
    before: Option<Seq<char>>,
    values: Seq<Seq<char>>,
    tokens: Seq<TokenRef>,
    z: int,
    a: TokenRef,
    b: TokenRef,
    m: Seq<char>,
)
    requires
        values.len() == tokens.len(),
        0 <= z <= values.len(),
        forall|x: int| 0 <= x < z ==> tokens[x] != a,
    ensures
        merge_entries(entries, before, values, tokens, a, b, m) == merge_entries(
            entries,
            if z == 0 {
                before
            } else {
                Some(values[z - 1])
            },
            values.skip(z),
            tokens.skip(z),
            a,
            b,
            m,
        ),
    decreases z,
{
    if z == 0 {
        assert(values.skip(0) =~= values);
        assert(tokens.skip(0) =~= tokens);
    } else if values.len() < 2 {
        assert(values.skip(z).len() == 0);
    } else {
        assert(tokens[0] != a);
        let rest = values.skip(1);
        let rest_t = tokens.skip(1);
        assert forall|x: int| 0 <= x < z - 1 implies rest_t[x] != a by {
            assert(rest_t[x] == tokens[x + 1]);
        }
        lemma_merge_entries_skip(entries, Some(values[0]), rest, rest_t, z - 1, a, b, m);
        assert(rest.skip(z - 1) =~= values.skip(z));
        assert(rest_t.skip(z - 1) =~= tokens.skip(z));
        if z > 1 {
            assert(rest[z - 2] == values[z - 1]);
        }
    }
}

/// A first token that does not start the pair leaves the entries alone.
pub proof fn lemma_merge_entries_keep(
    entries: Map<(Seq<char>, Seq<char>), int>,
    before: Option<Seq<char>>,
    values: Seq<Seq<char>>,
    tokens: Seq<TokenRef>,
    a: TokenRef,
    b: TokenRef,
    m: Seq<char>,
)
    requires
        values.len() == tokens.len(),
        values.len() >= 1,
        !(values.len() >= 2 && tokens[0] == a && tokens[1] == b),
    ensures
        merge_entries(entries, before, values, tokens, a, b, m) == merge_entries(
            entries,
            Some(values[0]),
            values.skip(1),
            tokens.skip(1),
            a,
            b,
            m,
        ),
{
    if values.len() < 2 {
        assert(values.skip(1).len() == 0);
    }
}

/// How far the entries have come in a pass: what the merge makes of the
/// entries `e0` over the whole sequence as found is what it makes of the
/// entries `e` of now over the part of it from place `c` on, with the value
/// that now stands in front of that part as left neighbour.
pub open spec fn inv_entries(
    e0: Map<(Seq<char>, Seq<char>), int>,
    values0: Seq<Seq<char>>,
    t0: Seq<TokenRef>,
    a: TokenRef,
    b: TokenRef,
    m: Seq<char>,
    e: Map<(Seq<char>, Seq<char>), int>,
    values: Seq<Seq<char>>,
    c: int,
) -> bool {
    let pl = values.len() - (values0.len() - c);
    merge_entries(e0, None, values0, t0, a, b, m) == merge_entries(
        e,
        neighbour(values, pl - 1),
        values0.skip(c),
        t0.skip(c),
        a,
        b,
        m,
    )
}

/// The entries after a live occurrence was kept.
pub proof fn lemma_entries_keep(
    e0: Map<(Seq<char>, Seq<char>), int>,
    values0: Seq<Seq<char>>,
    t0: Seq<TokenRef>,
    a: TokenRef,
    b: TokenRef,
    m: Seq<char>,
    e: Map<(Seq<char>, Seq<char>), int>,
    values: Seq<Seq<char>>,
    c: int,
    z: int,
)
    requires
        values0.len() == t0.len(),
        0 <= c <= values0.len(),
        0 <= values.len() - (values0.len() - c),
        inv_entries(e0, values0, t0, a, b, m, e, values, c),
        values_tail(values0, values, c),
        0 <= z < values0.len() - c,
        t0[c + z] == a,
        forall|x: int| c <= x < c + z ==> t0[x] != a,
        !(c + z + 1 < values0.len() && t0[c + z + 1] == b),
    ensures
        inv_entries(e0, values0, t0, a, b, m, e, values, c + z + 1),
{
    let pl = values.len() - (values0.len() - c);
    let rest = values0.skip(c);
    let rest_t = t0.skip(c);
    assert forall|x: int| 0 <= x < z implies rest_t[x] != a by {
        assert(rest_t[x] == t0[c + x]);
    }
    lemma_merge_entries_skip(e, neighbour(values, pl - 1), rest, rest_t, z, a, b, m);
    assert(rest.skip(z) =~= values0.skip(c + z));
    assert(rest_t.skip(z) =~= t0.skip(c + z));
    let at = values0.skip(c + z);
    let at_t = t0.skip(c + z);
    assert(at_t[0] == a);
    if at.len() >= 2 {
        assert(at_t[1] == t0[c + z + 1]);
    }
    let front = if z == 0 {
        neighbour(values, pl - 1)
    } else {
        Some(rest[z - 1])
    };
    lemma_merge_entries_keep(e, front, at, at_t, a, b, m);
    assert(at.skip(1) =~= values0.skip(c + z + 1));
    assert(at_t.skip(1) =~= t0.skip(c + z + 1));
    assert(values[pl + z] == values0[c + z]);
}

/// The entries after a live occurrence and its successor were replaced.
pub proof fn lemma_entries_merge(
    e0: Map<(Seq<char>, Seq<char>), int>,
    values0: Seq<Seq<char>>,
    t0: Seq<TokenRef>,
    a: TokenRef,
    b: TokenRef,
    m: Seq<char>,
    e: Map<(Seq<char>, Seq<char>), int>,
    values: Seq<Seq<char>>,
    c: int,
    z: int,
    e2: Map<(Seq<char>, Seq<char>), int>,
    values2: Seq<Seq<char>>,
)
    requires
        values0.len() == t0.len(),
        0 <= c <= values0.len(),
        0 <= values.len() - (values0.len() - c),
        inv_entries(e0, values0, t0, a, b, m, e, values, c),
        values_tail(values0, values, c),
        0 <= z < values0.len() - c - 1,
        t0[c + z] == a,
        t0[c + z + 1] == b,
        forall|x: int| c <= x < c + z ==> t0[x] != a,
        e2 == recounted(
            e,
            neighbour(values, values.len() - (values0.len() - c) + z - 1),
            values[values.len() - (values0.len() - c) + z],
            values[values.len() - (values0.len() - c) + z + 1],
            m,
            neighbour(values, values.len() - (values0.len() - c) + z + 2),
        ),
        values2 == values.take(values.len() - (values0.len() - c) + z) + seq![m] + values.skip(
            values.len() - (values0.len() - c) + z + 2,
        ),
    ensures
        inv_entries(e0, values0, t0, a, b, m, e2, values2, c + z + 2),
{
    let pl = values.len() - (values0.len() - c);
    let i = pl + z;
    let rest = values0.skip(c);
    let rest_t = t0.skip(c);
    assert forall|x: int| 0 <= x < z implies rest_t[x] != a by {
        assert(rest_t[x] == t0[c + x]);
    }
    lemma_merge_entries_skip(e, neighbour(values, pl - 1), rest, rest_t, z, a, b, m);
    assert(rest.skip(z) =~= values0.skip(c + z));
    assert(rest_t.skip(z) =~= t0.skip(c + z));
    let at = values0.skip(c + z);
    let at_t = t0.skip(c + z);
    assert(at_t[0] == a && at_t[1] == b);
    assert(at.skip(2) =~= values0.skip(c + z + 2));
    assert(at_t.skip(2) =~= t0.skip(c + z + 2));
    assert(values[i] == values0[c + z]);
    assert(values[i + 1] == values0[c + z + 1]);
    if z > 0 {
        assert(values[i - 1] == values0[c + z - 1]);
        assert(rest[z - 1] == values0[c + z - 1]);
    }
    if i + 2 < values.len() {
        assert(values[i + 2] == values0[c + z + 2]);
    }
    assert(neighbour(values, i + 2) == neighbour(at, 2));
    assert(values2[i] == m);
    assert(values2.len() - (values0.len() - (c + z + 2)) - 1 == i);
}

/// When every occurrence is dealt with, the entries are what the merge makes
/// of the entries as found.
pub proof fn lemma_entries_done(
    e0: Map<(Seq<char>, Seq<char>), int>,
    values0: Seq<Seq<char>>,
    t0: Seq<TokenRef>,
    a: TokenRef,
    b: TokenRef,
    m: Seq<char>,
    e: Map<(Seq<char>, Seq<char>), int>,
    values: Seq<Seq<char>>,
    c: int,
)
    requires
        values0.len() == t0.len(),
        0 <= c <= values0.len(),
        inv_entries(e0, values0, t0, a, b, m, e, values, c),
        forall|x: int| c <= x < t0.len() ==> t0[x] != a,
    ensures
        e == merge_entries(e0, None, values0, t0, a, b, m),
{
    let pl = values.len() - (values0.len() - c);
    let rest = values0.skip(c);
    let rest_t = t0.skip(c);
    assert forall|x: int| 0 <= x < rest.len() implies rest_t[x] != a by {
        assert(rest_t[x] == t0[c + x]);
    }
    lemma_merge_entries_skip(
        e,
        neighbour(values, pl - 1),
        rest,
        rest_t,
        rest.len() as int,
        a,
        b,
        m,
    );
    assert(rest.skip(rest.len() as int).len() == 0);
}

/// Replaces the live position `left` and its successor by a new position for
/// the token `m`, registers the new position with `m`, and brings the tracker
/// up to date. Returns the new position.
pub fn merge_at(
    left: DLLTokenRef,
    m: TokenRef,
    counts: &mut PairCounts,
    vocab: &mut Vocabulary,
    seq: &mut Sequence,
) -> (r: DLLTokenRef)
    requires
        old(vocab).wf(),
        old(seq).wf(),
        old(counts).wf(),
        linked(*old(vocab), *old(seq)),
        left.0 < old(seq).nodes().len(),
        old(seq).nodes()[left.0 as int].next is Some,
        m.0 < old(vocab)@.len(),
        forall|y: int|
            old(seq).place(left) + 1 < y < old(seq)@.len() ==> (#[trigger] old(seq).node_at(
                y,
            )).token != m,
        has_margin(*old(counts), 3),
    ensures
        final(vocab).wf(),
        final(seq).wf(),
        final(counts).wf(),
        linked(*final(vocab), *final(seq)),
        old(seq).is_live(left),
        0 <= old(seq).place(left) < old(seq)@.len() - 1,
        r.0 == old(seq).nodes().len(),
        final(seq).nodes().len() == old(seq).nodes().len() + 1,
        forall|q: int|
            0 <= q < old(seq).nodes().len() ==> (#[trigger] final(seq).nodes()[q]).token == old(
                seq,
            ).nodes()[q].token,
        final(seq)@ == old(seq)@.take(old(seq).place(left)) + seq![r] + old(seq)@.skip(
            old(seq).place(left) + 2,
        ),
        final(seq).tokens() == old(seq).tokens().take(old(seq).place(left)) + seq![m] + old(
            seq,
        ).tokens().skip(old(seq).place(left) + 2),
        final(vocab)@.len() == old(vocab)@.len(),
        final(vocab).registered() == old(vocab).registered(),
        final(vocab).values() == old(vocab).values(),
        values_of(final(vocab).values(), final(seq).tokens()) == values_of(
            old(vocab).values(),
            old(seq).tokens(),
        ).take(old(seq).place(left)) + seq![old(vocab).values()[m.0 as int]] + values_of(
            old(vocab).values(),
            old(seq).tokens(),
        ).skip(old(seq).place(left) + 2),
        final(vocab)@[m.0 as int].occurrences@ == old(vocab)@[m.0 as int].occurrences@.push(r),
        forall|u: int|
            0 <= u < old(vocab)@.len() && u != m.0 ==> #[trigger] final(vocab)@[u] == old(
                vocab,
            )@[u],
        final(counts)@ == recounted(
            old(counts)@,
            neighbour(values_of(old(vocab).values(), old(seq).tokens()), old(seq).place(left) - 1),
            values_of(old(vocab).values(), old(seq).tokens())[old(seq).place(left)],
            values_of(old(vocab).values(), old(seq).tokens())[old(seq).place(left) + 1],
            old(vocab).values()[m.0 as int],
            neighbour(values_of(old(vocab).values(), old(seq).tokens()), old(seq).place(left) + 2),
        ),
        forall|left_value: Seq<char>, right_value: Seq<char>|
            (#[trigger] final(counts).count(left_value, right_value)) == old(counts).count(
                left_value,
                right_value,
            ) + pair_count(
                values_of(final(vocab).values(), final(seq).tokens()),
                left_value,
                right_value,
            ) - pair_count(
                values_of(old(vocab).values(), old(seq).tokens()),
                left_value,
                right_value,
            ),
{
    let ghost vocab0 = *vocab;
    let ghost seq0 = *seq;
    let ghost counts0 = *counts;
    let ghost values0 = values_of(vocab0.values(), seq0.tokens());
    proof {
        seq0.lemma_linked_is_live(left);
    }
    let ghost i = seq0.lemma_place(left);
    let node = *seq.get(left);
    let right = node.next.unwrap();
    proof {
        assert(seq0.linked_at(i));
        assert(seq0.linked_at(i + 1));
        if i > 0 {
            assert(seq0.linked_at(i - 1));
        }
        if i + 2 < seq0@.len() {
            assert(seq0.linked_at(i + 2));
        }
    }
    let after_right = seq.get(right).next;
    let token_a = node.token;
    let token_b = seq.get(right).token;
    let r = seq.splice(left, m);
    let before_value = match node.prev {
        Some(l) => Some(vocab.get(seq.get(l).token).val.as_str()),
        None => None,
    };
    let after_value = match after_right {
        Some(x) => Some(vocab.get(seq.get(x).token).val.as_str()),
        None => None,
    };
    recount_around(
        counts,
        before_value,
        vocab.get(token_a).val.as_str(),
        vocab.get(token_b).val.as_str(),
        vocab.get(m).val.as_str(),
        after_value,
    );
    vocab.register_occurrence(m, r);
    proof {
        lemma_linked_step(vocab0, seq0, *vocab, *seq, left, m, r);
        assert(vocab.values() =~= vocab0.values());
        let values1 = values_of(vocab.values(), seq.tokens());
        let m_value = vocab0@[m.0 as int].val@;
        assert(values1 =~= values0.take(i) + seq![m_value] + values0.skip(i + 2));
        assert(view_of(before_value) == neighbour(values0, i - 1));
        assert(view_of(after_value) == neighbour(values0, i + 2));
        assert(values0[i] == vocab0@[token_a.0 as int].val@);
        assert(values0[i + 1] == vocab0@[token_b.0 as int].val@);
        assert forall|left_value: Seq<char>, right_value: Seq<char>|
            (#[trigger] counts.count(left_value, right_value)) == counts0.count(
                left_value,
                right_value,
            ) + pair_count(values1, left_value, right_value) - pair_count(
                values0,
                left_value,
                right_value,
            ) by {
            lemma_counts_after_splice(values0, i, m_value, left_value, right_value);
        }
    }
    r
}

/// A new token without occurrences does not disturb the fit of vocabulary and
/// sequence.
pub proof fn lemma_linked_after_create(vocab0: Vocabulary, vocab1: Vocabulary, seq: Sequence)
    requires
        seq.wf(),
        linked(vocab0, seq),
        vocab1@.len() == vocab0@.len() + 1,
        vocab1@[vocab0@.len() as int].occurrences@.len() == 0,
        forall|u: int| 0 <= u < vocab0@.len() ==> #[trigger] vocab1@[u] == vocab0@[u],
    ensures
        linked(vocab1, seq),
{
    assert forall|p: int| 0 <= p < seq.nodes().len() implies (#[trigger] seq.nodes()[p]).token.0
        < vocab1@.len() by {}
    assert forall|t: int, j: int|
        0 <= t < vocab1@.len() && 0 <= j < vocab1@[t].occurrences@.len() implies #[trigger] occurrence_ok(
        vocab1,
        seq,
        t,
        j,
    ) by {
        assert(vocab1@[t] == vocab0@[t]);
        assert(occurrence_ok(vocab0, seq, t, j));
    }
    assert forall|t: int, j: int, k: int|
        0 <= t < vocab1@.len() && 0 <= j < k < vocab1@[t].occurrences@.len() implies (
    #[trigger] vocab1@[t].occurrences@[j]).0 < (#[trigger] vocab1@[t].occurrences@[k]).0 by {
        assert(vocab1@[t] == vocab0@[t]);
        assert(vocab0@[t].occurrences@[j].0 < vocab0@[t].occurrences@[k].0);
    }
    assert forall|y: int| 0 <= y < seq@.len() implies #[trigger] registered_at(vocab1, seq, y) by {
        assert(registered_at(vocab0, seq, y));
        assert(seq.linked_at(y));
        let t = seq.node_at(y).token.0 as int;
        assert(seq.nodes()[seq@[y].0 as int].token.0 < vocab0@.len());
        assert(vocab1@[t] == vocab0@[t]);
    }
}

/// A well-formed sequence that fits its vocabulary gives a pass its frame.
pub proof fn lemma_frame(vocab: Vocabulary, seq: Sequence, a: TokenRef, m: TokenRef)
    requires
        seq.wf(),
        linked(vocab, seq),
        a.0 < vocab@.len() <= m.0,
    ensures
        pass_frame(
            seq@,
            seq.tokens(),
            seq.nodes().len() as int,
            vocab@[a.0 as int].occurrences@,
            a,
            m,
        ),
{
    let s0 = seq@;
    let t0 = seq.tokens();
    let occs = vocab@[a.0 as int].occurrences@;
    assert forall|x: int| 0 <= x < s0.len() implies (#[trigger] s0[x]).0 < seq.nodes().len() by {
        assert(seq.linked_at(x));
    }
    assert forall|x: int| 0 <= x < s0.len() implies #[trigger] t0[x] != m by {
        assert(seq.linked_at(x));
        assert(seq.nodes()[s0[x].0 as int].token.0 < vocab@.len());
    }
    assert forall|j: int| 0 <= j < occs.len() implies (#[trigger] occs[j]).0
        < seq.nodes().len() by {
        assert(occurrence_ok(vocab, seq, a.0 as int, j));
    }
    assert forall|x: int| 0 <= x < s0.len() && #[trigger] t0[x] == a implies occs.contains(
        s0[x],
    ) by {
        assert(registered_at(vocab, seq, x));
    }
    assert forall|x: int, j: int|
        0 <= x < s0.len() && 0 <= j < occs.len() && #[trigger] s0[x] == #[trigger] occs[j] implies t0[x]
        == a by {
        assert(occurrence_ok(vocab, seq, a.0 as int, j));
    }
    assert forall|x: int, y: int| 0 <= x < y < s0.len() && t0[x] == t0[y] implies (
    #[trigger] s0[x]).0 < (#[trigger] s0[y]).0 by {
        assert(seq.node_at(x).token == seq.node_at(y).token);
    }
    lemma_pass_frame(s0, t0, seq.nodes().len() as int, occs, a, m);
}

/// Merges the pair `token_a`, `token_b`: creates a token whose value is the
/// two values joined, and replaces every occurrence of `token_a` directly
/// followed by `token_b` by a position for the new token, from the left. The
/// occurrences of `token_a` are copied before the chain is touched and taken
/// oldest first; one that an earlier replacement has used up is passed over.
/// The tracker is adjusted with every replacement.
///
/// Returns the new head of the chain where the old head was replaced.
pub fn merge_tokens(
    token_a: TokenRef,
    token_b: TokenRef,
    counts: &mut PairCounts,
    vocab: &mut Vocabulary,
    seq: &mut Sequence,
) -> (new_head: Option<DLLTokenRef>)
    requires
        old(vocab).wf(),
        old(seq).wf(),
        old(counts).wf(),
        linked(*old(vocab), *old(seq)),
        token_a.0 < old(vocab)@.len(),
        token_b.0 < old(vocab)@.len(),
        has_margin(*old(counts), old(seq)@.len() + 3),
    ensures
        final(vocab).wf(),
        final(seq).wf(),
        final(counts).wf(),
        linked(*final(vocab), *final(seq)),
        final(vocab)@.len() == old(vocab)@.len() + 1,
        final(vocab).values() == old(vocab).values().push(
            old(vocab)@[token_a.0 as int].val@ + old(vocab)@[token_b.0 as int].val@,
        ),
        final(vocab).registered() == old(vocab).registered(),
        forall|u: int|
            0 <= u < old(vocab)@.len() ==> #[trigger] final(vocab)@[u] == old(vocab)@[u],
        final(seq).tokens() == merge_seq(
            old(seq).tokens(),
            token_a,
            token_b,
            TokenRef(old(vocab)@.len() as usize),
        ),
        final(seq)@ == merge_places(
            old(seq)@,
            old(seq).tokens(),
            token_a,
            token_b,
            old(seq).nodes().len(),
        ),
        final(vocab)@[old(vocab)@.len() as int].occurrences@ == Seq::new(
            (old(seq)@.len() - final(seq)@.len()) as nat,
            |j: int| DLLTokenRef((old(seq).nodes().len() + j) as usize),
        ),
        final(seq)@.len() <= old(seq)@.len(),
        text_of(final(vocab).values(), final(seq).tokens()) == text_of(
            old(vocab).values(),
            old(seq).tokens(),
        ),
        final(seq).nodes().len() - old(seq).nodes().len() == old(seq)@.len() - final(seq)@.len(),
        forall|q: int|
            0 <= q < old(seq).nodes().len() ==> (#[trigger] final(seq).nodes()[q]).token == old(
                seq,
            ).nodes()[q].token,
        forall|left_value: Seq<char>, right_value: Seq<char>|
            (#[trigger] final(counts).count(left_value, right_value)) == old(counts).count(
                left_value,
                right_value,
            ) + pair_count(
                values_of(final(vocab).values(), final(seq).tokens()),
                left_value,
                right_value,
            ) - pair_count(
                values_of(old(vocab).values(), old(seq).tokens()),
                left_value,
                right_value,
            ),
        old(counts).tracks(values_of(old(vocab).values(), old(seq).tokens()))
            ==> final(counts).tracks(values_of(final(vocab).values(), final(seq).tokens())),
        final(counts)@ == merge_entries(
            old(counts)@,
            None,
            values_of(old(vocab).values(), old(seq).tokens()),
            old(seq).tokens(),
            token_a,
            token_b,
            old(vocab)@[token_a.0 as int].val@ + old(vocab)@[token_b.0 as int].val@,
        ),
        new_head == (if starts_with_pair(old(seq).tokens(), token_a, token_b) {
            final(seq).spec_head()
        } else {
            None
        }),
{
    let ghost vocab0 = *vocab;
    let ghost counts0 = *counts;
    let ghost s0 = seq@;
    let ghost t0 = seq.tokens();
    let ghost values0 = values_of(vocab.values(), seq.tokens());
    let ghost n0 = seq.nodes().len() as int;
    let ghost nodes0 = seq.nodes();
    let ghost m_text = vocab@[token_a.0 as int].val@ + vocab@[token_b.0 as int].val@;
    let a_value = vocab.get(token_a).val.clone();
    let b_value = vocab.get(token_b).val.clone();
    let m_value = a_value.concat(b_value.as_str());
    let m = vocab.create(m_value);
    let occs = vocab.get(token_a).occurrences.clone();
    let mut new_head: Option<DLLTokenRef> = None;
    let ghost mut c: int = 0;
    proof {
        lemma_linked_after_create(vocab0, *vocab, *seq);
        lemma_frame(vocab0, *seq, token_a, m);
        assert(occs@ =~= vocab0@[token_a.0 as int].occurrences@);
        lemma_pass_start(s0, t0, n0, occs@, token_a, token_b, m);
        assert(vocab@[m.0 as int].occurrences@ =~= Seq::new(
            0nat,
            |j: int| DLLTokenRef((n0 + j) as usize),
        ));
        assert(vocab.values() =~= vocab0.values().push(
            vocab0@[token_a.0 as int].val@ + vocab0@[token_b.0 as int].val@,
        ));
        assert forall|x: int| 0 <= x < t0.len() implies (#[trigger] t0[x]).0 < vocab0@.len() by {
            assert(seq.linked_at(x));
            assert(seq.nodes()[s0[x].0 as int].token.0 < vocab0@.len());
        }
        assert(values_of(vocab.values(), seq.tokens()) =~= values_of(vocab0.values(), t0));
        assert(values0.skip(0) =~= values0);
        assert(t0.skip(0) =~= t0);
    }
    let mut k: usize = 0;
    while k < occs.len()
        invariant
            k <= occs.len(),
            vocab.wf(),
            seq.wf(),
            counts.wf(),
            linked(*vocab, *seq),
            token_a.0 < vocab0@.len(),
            token_b.0 < vocab0@.len(),
            m.0 == vocab0@.len(),
            vocab@.len() == vocab0@.len() + 1,
            vocab.registered() == vocab0.registered(),
            vocab.values() == vocab0.values().push(
                vocab0@[token_a.0 as int].val@ + vocab0@[token_b.0 as int].val@,
            ),
            forall|u: int| 0 <= u < vocab0@.len() ==> #[trigger] vocab@[u] == vocab0@[u],
            n0 <= seq.nodes().len(),
            nodes0.len() == n0,
            s0.len() <= n0,
            seq.nodes().len() - n0 == s0.len() - seq@.len(),
            forall|q: int| 0 <= q < n0 ==> (#[trigger] seq.nodes()[q]).token == nodes0[q].token,
            pass_frame(s0, t0, n0, occs@, token_a, m),
            pass_inv(s0, t0, n0, occs@, token_a, token_b, m, k as int, c, seq@, seq.tokens()),
            vocab@[m.0 as int].occurrences@ == Seq::new(
                (seq.nodes().len() - n0) as nat,
                |j: int| DLLTokenRef((n0 + j) as usize),
            ),
            has_margin(counts0, s0.len() + 3),
            values0 == values_of(vocab0.values(), t0),
            all_below(t0, vocab0@.len()),
            m_text == vocab0@[token_a.0 as int].val@ + vocab0@[token_b.0 as int].val@,
            inv_entries(
                counts0@,
                values0,
                t0,
                token_a,
                token_b,
                m_text,
                counts@,
                values_of(vocab.values(), seq.tokens()),
                c,
            ),
            forall|left_value: Seq<char>, right_value: Seq<char>|
                (#[trigger] counts.count(left_value, right_value)) == counts0.count(
                    left_value,
                    right_value,
                ) + pair_count(
                    values_of(vocab.values(), seq.tokens()),
                    left_value,
                    right_value,
                ) - pair_count(values0, left_value, right_value),
            new_head == (if c > 0 && starts_with_pair(t0, token_a, token_b) {
                seq.spec_head()
            } else {
                None
            }),
        decreases occs.len() - k,
    {
        let p = occs[k];
        let ghost s = seq@;
        let ghost t = seq.tokens();
        let ghost values = values_of(vocab.values(), seq.tokens());
        let ghost entries = counts@;
        proof {
            lemma_pass_shape(s0, t0, n0, occs@, token_a, token_b, m, k as int, c, s, t);
        }
        let node = *seq.get(p);
        proof {
            lemma_pass_values(
                s0,
                t0,
                n0,
                occs@,
                token_a,
                token_b,
                m,
                k as int,
                c,
                s,
                t,
                vocab0.values(),
                vocab.values(),
            );
        }
        match node.next {
            None => {
                proof {
                    if seq.is_live(p) {
                        let i = seq.lemma_place(p);
                        let z = lemma_pass_locate(
                            s0,
                            t0,
                            n0,
                            occs@,
                            token_a,
                            token_b,
                            m,
                            k as int,
                            c,
                            s,
                            t,
                            i,
                        );
                        lemma_pass_keep(s0, t0, n0, occs@, token_a, token_b, m, k as int, c, s, t, z);
                        lemma_entries_keep(
                            counts0@,
                            values0,
                            t0,
                            token_a,
                            token_b,
                            m_text,
                            entries,
                            values,
                            c,
                            z,
                        );
                        c = c + z + 1;
                    } else {
                        lemma_pass_dead(s0, t0, n0, occs@, token_a, token_b, m, k as int, c, s, t);
                    }
                }
            },
            Some(q) => {
                proof {
                    seq.lemma_linked_is_live(p);
                }
                let ghost i = seq.lemma_place(p);
                let ghost z = lemma_pass_locate(
                    s0,
                    t0,
                    n0,
                    occs@,
                    token_a,
                    token_b,
                    m,
                    k as int,
                    c,
                    s,
                    t,
                    i,
                );
                proof {
                    assert(seq.linked_at(i + 1));
                    assert(t[i + 1] == seq.nodes()[q.0 as int].token);
                }
                if seq.get(q).token == token_b {
                    proof {
                        assert forall|y: int| i + 1 < y < seq@.len() implies (
                        #[trigger] seq.node_at(y)).token != m by {
                            assert(t[y] == seq.node_at(y).token);
                        }
                    }
                    let ghost seq1 = *seq;
                    proof {
                        let values1 = values_of(vocab.values(), seq.tokens());
                        assert(values1.len() <= s0.len());
                        assert forall|left_value: Seq<char>, right_value: Seq<char>|
                            i128::MIN + 3 <= #[trigger] counts.count(left_value, right_value)
                                <= i128::MAX - 3 by {
                            lemma_pair_count_bound(values1, left_value, right_value);
                            lemma_pair_count_bound(values0, left_value, right_value);
                            assert(i128::MIN + (s0.len() + 3) <= counts0.count(
                                left_value,
                                right_value,
                            ) <= i128::MAX - (s0.len() + 3));
                        }
                    }
                    let r = merge_at(p, m, counts, vocab, seq);
                    if node.prev.is_none() {
                        new_head = Some(r);
                    }
                    proof {
                        assert(!s.contains(r)) by {
                            if s.contains(r) {
                                let y = choose|y: int| 0 <= y < s.len() && s[y] == r;
                                assert(seq1.linked_at(y));
                            }
                        }
                        assert(vocab@[m.0 as int].occurrences@ =~= Seq::new(
                            (seq.nodes().len() - n0) as nat,
                            |j: int| DLLTokenRef((n0 + j) as usize),
                        ));
                        lemma_pass_merge(
                            s0,
                            t0,
                            n0,
                            occs@,
                            token_a,
                            token_b,
                            m,
                            k as int,
                            c,
                            s,
                            t,
                            z,
                            r,
                            seq@,
                            seq.tokens(),
                        );
                        lemma_entries_merge(
                            counts0@,
                            values0,
                            t0,
                            token_a,
                            token_b,
                            m_text,
                            entries,
                            values,
                            c,
                            z,
                            counts@,
                            values_of(vocab.values(), seq.tokens()),
                        );
                        c = c + z + 2;
                    }
                } else {
                    proof {
                        lemma_pass_keep(s0, t0, n0, occs@, token_a, token_b, m, k as int, c, s, t, z);
                        lemma_entries_keep(
                            counts0@,
                            values0,
                            t0,
                            token_a,
                            token_b,
                            m_text,
                            entries,
                            values,
                            c,
                            z,
                        );
                        c = c + z + 1;
                    }
                }
            },
        }
        k = k + 1;
    }
    proof {
        lemma_pass_shape(
            s0,
            t0,
            n0,
            occs@,
            token_a,
            token_b,
            m,
            k as int,
            c,
            seq@,
            seq.tokens(),
        );
        lemma_pass_done(s0, t0, n0, occs@, token_a, token_b, m, c, seq@, seq.tokens());
        lemma_pass_rest(s0, t0, n0, occs@, token_a, token_b, m, c, seq@, seq.tokens());
        lemma_entries_done(
            counts0@,
            values0,
            t0,
            token_a,
            token_b,
            m_text,
            counts@,
            values_of(vocab.values(), seq.tokens()),
            c,
        );
        law_merge_keeps_text(vocab0.values(), t0, token_a, token_b);
    }
    new_head
}

} // verus!
