//! The bookkeeping of one merge pass.
//!
//! A pass walks the occurrences of the left token, oldest first, while the
//! chain changes under it. What it has settled is a prefix of the chain; the
//! rest is the chain as the pass found it, from a cursor on. The lemmas here
//! move the cursor over one occurrence at a time.

use crate::chain::DLLTokenRef;
use crate::model::{
    lemma_merge_places_absent, lemma_merge_places_keep, lemma_merge_places_skip_prefix,
    lemma_merge_seq_absent, lemma_merge_seq_keep, lemma_merge_seq_skip_prefix, merge_places,
    merge_seq, values_of,
};
use crate::token::TokenRef;
use vstd::prelude::*;

verus! {

/// What holds of the sequence as the pass found it: `s0` its positions, `t0`
/// their tokens, `n0` the size of the arena, `occs` the occurrences of `a`.
pub closed spec fn pass_frame(
    s0: Seq<DLLTokenRef>,
    t0: Seq<TokenRef>,
    n0: int,
    occs: Seq<DLLTokenRef>,
    a: TokenRef,
    m: TokenRef,
) -> bool {
    &&& t0.len() == s0.len()
    &&& 0 <= n0
    &&& s0.no_duplicates()
    &&& forall|x: int| 0 <= x < s0.len() ==> (#[trigger] s0[x]).0 < n0
    &&& forall|x: int| 0 <= x < s0.len() ==> #[trigger] t0[x] != m
    &&& forall|j: int| 0 <= j < occs.len() ==> (#[trigger] occs[j]).0 < n0
    &&& forall|x: int| 0 <= x < s0.len() && #[trigger] t0[x] == a ==> occs.contains(s0[x])
    &&& forall|x: int, j: int|
        0 <= x < s0.len() && 0 <= j < occs.len() && #[trigger] s0[x] == #[trigger] occs[j]
            ==> t0[x] == a
    &&& forall|j: int, k: int|
        0 <= j < k < occs.len() ==> (#[trigger] occs[j]).0 < (#[trigger] occs[k]).0
    &&& forall|x: int, y: int|
        0 <= x < y < s0.len() && t0[x] == t0[y] ==> (#[trigger] s0[x]).0 < (#[trigger] s0[y]).0
}

/// A sequence of which all this holds gives a pass its frame.
pub proof fn lemma_pass_frame(
    s0: Seq<DLLTokenRef>,
    t0: Seq<TokenRef>,
    n0: int,
    occs: Seq<DLLTokenRef>,
    a: TokenRef,
    m: TokenRef,
)
    requires
        t0.len() == s0.len(),
        0 <= n0,
        s0.no_duplicates(),
        forall|x: int| 0 <= x < s0.len() ==> (#[trigger] s0[x]).0 < n0,
        forall|x: int| 0 <= x < s0.len() ==> #[trigger] t0[x] != m,
        forall|j: int| 0 <= j < occs.len() ==> (#[trigger] occs[j]).0 < n0,
        forall|x: int| 0 <= x < s0.len() && #[trigger] t0[x] == a ==> occs.contains(s0[x]),
        forall|x: int, j: int|
            0 <= x < s0.len() && 0 <= j < occs.len() && #[trigger] s0[x] == #[trigger] occs[j]
                ==> t0[x] == a,
        forall|j: int, k: int|
            0 <= j < k < occs.len() ==> (#[trigger] occs[j]).0 < (#[trigger] occs[k]).0,
        forall|x: int, y: int|
            0 <= x < y < s0.len() && t0[x] == t0[y] ==> (#[trigger] s0[x]).0 < (
            #[trigger] s0[y]).0,
    ensures
        pass_frame(s0, t0, n0, occs, a, m),
{
}

/// The untouched part: the current chain `s` with tokens `t` ends with the
/// chain as found, from place `c` of it on.
pub open spec fn inv_tail(
    s0: Seq<DLLTokenRef>,
    t0: Seq<TokenRef>,
    c: int,
    s: Seq<DLLTokenRef>,
    t: Seq<TokenRef>,
) -> bool {
    let pl = s.len() - (s0.len() - c);
    forall|y: int|
        pl <= y < s.len() ==> #[trigger] s[y] == s0[y - pl + c] && t[y] == t0[y - pl + c]
}

/// The settled part: the chain before the untouched part is the merge of
/// what was found before place `c`.
pub open spec fn inv_merged(
    s0: Seq<DLLTokenRef>,
    t0: Seq<TokenRef>,
    a: TokenRef,
    b: TokenRef,
    m: TokenRef,
    c: int,
    t: Seq<TokenRef>,
) -> bool {
    let pl = t.len() - (s0.len() - c);
    merge_seq(t0, a, b, m) == t.take(pl) + merge_seq(t0.skip(c), a, b, m)
}

/// The settled part by positions: the chain before the untouched part holds
/// the positions that the merge of what was found before place `c` leaves,
/// and as many new positions were made as places were lost.
pub open spec fn inv_places(
    s0: Seq<DLLTokenRef>,
    t0: Seq<TokenRef>,
    n0: int,
    a: TokenRef,
    b: TokenRef,
    c: int,
    s: Seq<DLLTokenRef>,
) -> bool {
    let pl = s.len() - (s0.len() - c);
    merge_places(s0, t0, a, b, n0 as nat) == s.take(pl) + merge_places(
        s0.skip(c),
        t0.skip(c),
        a,
        b,
        (n0 + c - pl) as nat,
    )
}

/// None of the first `k` occurrences stands in the untouched part.
pub open spec fn inv_behind(s0: Seq<DLLTokenRef>, occs: Seq<DLLTokenRef>, k: int, c: int) -> bool {
    forall|j: int, x: int|
        0 <= j < k && c <= x < s0.len() ==> #[trigger] s0[x] != #[trigger] occs[j]
}

/// Every `a` that was found before place `c` and is still on the chain is
/// among the first `k` occurrences.
pub open spec fn inv_seen(
    s0: Seq<DLLTokenRef>,
    t0: Seq<TokenRef>,
    occs: Seq<DLLTokenRef>,
    a: TokenRef,
    k: int,
    c: int,
    s: Seq<DLLTokenRef>,
) -> bool {
    forall|x: int|
        0 <= x < c && t0[x] == a && s.contains(#[trigger] s0[x]) ==> occs.take(k).contains(s0[x])
}

/// Every position of the settled part is new or was found before place
/// `c`.
pub open spec fn inv_origin(s0: Seq<DLLTokenRef>, n0: int, c: int, s: Seq<DLLTokenRef>) -> bool {
    let pl = s.len() - (s0.len() - c);
    forall|y: int| 0 <= y < pl ==> (#[trigger] s[y]).0 >= n0 || s0.take(c).contains(s[y])
}

/// How far the pass has come: the first `k` occurrences are dealt with, the
/// chain as found is untouched from its place `c` on and ends the current
/// chain `s` with tokens `t`, and the part of the current chain before it is
/// the merge of what was found before `c`.
pub closed spec fn pass_inv(
    s0: Seq<DLLTokenRef>,
    t0: Seq<TokenRef>,
    n0: int,
    occs: Seq<DLLTokenRef>,
    a: TokenRef,
    b: TokenRef,
    m: TokenRef,
    k: int,
    c: int,
    s: Seq<DLLTokenRef>,
    t: Seq<TokenRef>,
) -> bool {
    let pl = s.len() - (s0.len() - c);
    &&& 0 <= k <= occs.len()
    &&& 0 <= c <= s0.len()
    &&& 0 <= pl <= c
    &&& (pl == 0 <==> c == 0)
    &&& t.len() == s.len()
    &&& s.no_duplicates()
    &&& inv_tail(s0, t0, c, s, t)
    &&& inv_merged(s0, t0, a, b, m, c, t)
    &&& inv_places(s0, t0, n0, a, b, c, s)
    &&& inv_behind(s0, occs, k, c)
    &&& inv_seen(s0, t0, occs, a, k, c, s)
    &&& inv_origin(s0, n0, c, s)
}

/// Whether the sequence `t0` begins with the pair `a`, `b`.
pub open spec fn starts_with_pair(t0: Seq<TokenRef>, a: TokenRef, b: TokenRef) -> bool {
    t0.len() >= 2 && t0[0] == a && t0[1] == b
}

/// The values of the untouched part are the values as found.
pub open spec fn values_tail(values0: Seq<Seq<char>>, values: Seq<Seq<char>>, c: int) -> bool {
    let pl = values.len() - (values0.len() - c);
    forall|y: int| pl <= y < values.len() ==> #[trigger] values[y] == values0[y - pl + c]
}

/// The shape of a pass under way: the cursor lies in the chain as found, the
/// untouched part ends the current chain, and the settled part is empty
/// exactly as long as the cursor has not moved.
pub proof fn lemma_pass_shape(
    s0: Seq<DLLTokenRef>,
    t0: Seq<TokenRef>,
    n0: int,
    occs: Seq<DLLTokenRef>,
    a: TokenRef,
    b: TokenRef,
    m: TokenRef,
    k: int,
    c: int,
    s: Seq<DLLTokenRef>,
    t: Seq<TokenRef>,
)
    requires
        pass_frame(s0, t0, n0, occs, a, m),
        pass_inv(s0, t0, n0, occs, a, b, m, k, c, s, t),
    ensures
        0 <= k <= occs.len(),
        0 <= c <= s0.len(),
        t0.len() == s0.len(),
        t.len() == s.len(),
        0 <= s.len() - (s0.len() - c) <= c,
        (c == 0) == (s.len() - (s0.len() - c) == 0),
        c == 0 ==> s == s0,
        k < occs.len() ==> occs[k].0 < n0,
{
    if c == 0 {
        assert forall|y: int| 0 <= y < s.len() implies s[y] == s0[y] by {
            assert(s[y] == s0[y - 0 + 0]);
        }
        assert(s =~= s0);
    }
}

/// The values of the untouched part of the chain are the values as found:
/// the tokens there are the tokens as found, and the vocabulary has only
/// grown.
pub proof fn lemma_pass_values(
    s0: Seq<DLLTokenRef>,
    t0: Seq<TokenRef>,
    n0: int,
    occs: Seq<DLLTokenRef>,
    a: TokenRef,
    b: TokenRef,
    m: TokenRef,
    k: int,
    c: int,
    s: Seq<DLLTokenRef>,
    t: Seq<TokenRef>,
    values0: Seq<Seq<char>>,
    values1: Seq<Seq<char>>,
)
    requires
        pass_frame(s0, t0, n0, occs, a, m),
        pass_inv(s0, t0, n0, occs, a, b, m, k, c, s, t),
        forall|x: int| 0 <= x < t0.len() ==> (#[trigger] t0[x]).0 < values0.len(),
        values0.len() <= values1.len(),
        forall|u: int| 0 <= u < values0.len() ==> values1[u] == values0[u],
    ensures
        values_tail(values_of(values0, t0), values_of(values1, t), c),
{
    let pl = s.len() - (s0.len() - c);
    assert forall|y: int| pl <= y < t.len() implies #[trigger] values_of(values1, t)[y]
        == values_of(values0, t0)[y - pl + c] by {
        assert(s[y] == s0[y - pl + c]);
        assert(t0[y - pl + c].0 < values0.len());
    }
}

/// At the start of a pass nothing is settled.
pub proof fn lemma_pass_start(
    s0: Seq<DLLTokenRef>,
    t0: Seq<TokenRef>,
    n0: int,
    occs: Seq<DLLTokenRef>,
    a: TokenRef,
    b: TokenRef,
    m: TokenRef,
)
    requires
        pass_frame(s0, t0, n0, occs, a, m),
    ensures
        pass_inv(s0, t0, n0, occs, a, b, m, 0, 0, s0, t0),
{
    assert(t0.skip(0) =~= t0);
    assert(s0.skip(0) =~= s0);
    assert(t0.take(0) + merge_seq(t0, a, b, m) =~= merge_seq(t0, a, b, m));
    assert(s0.take(0) + merge_places(s0, t0, a, b, n0 as nat) =~= merge_places(
        s0,
        t0,
        a,
        b,
        n0 as nat,
    ));
}

/// A live occurrence that is next in turn stands in the untouched part, and
/// no other `a` stands between the cursor and it.
pub proof fn lemma_pass_locate(
    s0: Seq<DLLTokenRef>,
    t0: Seq<TokenRef>,
    n0: int,
    occs: Seq<DLLTokenRef>,
    a: TokenRef,
    b: TokenRef,
    m: TokenRef,
    k: int,
    c: int,
    s: Seq<DLLTokenRef>,
    t: Seq<TokenRef>,
    i: int,
) -> (z: int)
    requires
        pass_frame(s0, t0, n0, occs, a, m),
        pass_inv(s0, t0, n0, occs, a, b, m, k, c, s, t),
        k < occs.len(),
        0 <= i < s.len(),
        s[i] == occs[k],
    ensures
        0 <= z < s0.len() - c,
        i == s.len() - (s0.len() - c) + z,
        s0[c + z] == occs[k],
        t0[c + z] == a,
        t[i] == a,
        forall|x: int| c <= x < c + z ==> t0[x] != a,
        (i + 1 < s.len()) == (c + z + 1 < s0.len()),
        i + 1 < s.len() ==> s[i + 1] == s0[c + z + 1] && t[i + 1] == t0[c + z + 1],
        forall|y: int| i < y < s.len() ==> #[trigger] t[y] != m,
        c == 0 ==> i == z,
        c > 0 ==> i > 0,
{
    let pl = s.len() - (s0.len() - c);
    let p = occs[k];
    if i < pl {
        assert(s[i].0 >= n0 || s0.take(c).contains(s[i]));
        assert(s0.take(c).contains(p));
        let x = choose|x: int| 0 <= x < s0.take(c).len() && s0.take(c)[x] == p;
        assert(s0[x] == p);
        assert(t0[x] == a);
        assert(s.contains(s0[x]));
        assert(occs.take(k).contains(s0[x]));
        let j = choose|j: int| 0 <= j < occs.take(k).len() && occs.take(k)[j] == p;
        assert(occs[j] == p);
        assert(occs[j].0 < occs[k].0);
        assert(false);
    }
    let z = i - pl;
    assert(s[i] == s0[i - pl + c]);
    if i + 1 < s.len() {
        assert(s[i + 1] == s0[i + 1 - pl + c]);
    }
    assert forall|y: int| i < y < s.len() implies #[trigger] t[y] != m by {
        assert(s[y] == s0[y - pl + c]);
        assert(t0[y - pl + c] != m);
    }
    assert forall|x: int| c <= x < c + z implies t0[x] != a by {
        if t0[x] == a {
            assert(occs.contains(s0[x]));
            let j = choose|j: int| 0 <= j < occs.len() && occs[j] == s0[x];
            if j < k {
                assert(s0[x] != occs[j]);
            } else if j == k {
                assert(s0[x] == s0[c + z]);
            } else {
                assert(occs[k].0 < occs[j].0);
                assert(t0[x] == t0[c + z]);
                assert(s0[x].0 < s0[c + z].0);
            }
        }
    }
    z
}

/// An occurrence that is no longer on the chain is passed over.
pub proof fn lemma_pass_dead(
    s0: Seq<DLLTokenRef>,
    t0: Seq<TokenRef>,
    n0: int,
    occs: Seq<DLLTokenRef>,
    a: TokenRef,
    b: TokenRef,
    m: TokenRef,
    k: int,
    c: int,
    s: Seq<DLLTokenRef>,
    t: Seq<TokenRef>,
)
    requires
        pass_frame(s0, t0, n0, occs, a, m),
        pass_inv(s0, t0, n0, occs, a, b, m, k, c, s, t),
        k < occs.len(),
        !s.contains(occs[k]),
    ensures
        pass_inv(s0, t0, n0, occs, a, b, m, k + 1, c, s, t),
{
    let pl = s.len() - (s0.len() - c);
    assert forall|j: int, x: int| 0 <= j < k + 1 && c <= x < s0.len() implies #[trigger] s0[x]
        != #[trigger] occs[j] by {
        if j == k {
            assert(s[x - c + pl] == s0[x]);
        }
    }
    assert(inv_behind(s0, occs, k + 1, c));
    assert forall|x: int|
        0 <= x < c && t0[x] == a && s.contains(#[trigger] s0[x]) implies occs.take(k + 1).contains(
        s0[x],
    ) by {
        assert(occs.take(k).contains(s0[x]));
        let j = choose|j: int| 0 <= j < occs.take(k).len() && occs.take(k)[j] == s0[x];
        assert(occs.take(k + 1)[j] == s0[x]);
    }
    assert(inv_seen(s0, t0, occs, a, k + 1, c, s));
}

/// The positions of the settled part after a live occurrence was kept.
proof fn lemma_pass_keep_places(
    s0: Seq<DLLTokenRef>,
    t0: Seq<TokenRef>,
    n0: int,
    a: TokenRef,
    b: TokenRef,
    c: int,
    s: Seq<DLLTokenRef>,
    t: Seq<TokenRef>,
    z: int,
)
    requires
        t0.len() == s0.len(),
        0 <= n0,
        0 <= c <= s0.len(),
        0 <= s.len() - (s0.len() - c) <= c,
        inv_tail(s0, t0, c, s, t),
        inv_places(s0, t0, n0, a, b, c, s),
        0 <= z < s0.len() - c,
        t0[c + z] == a,
        forall|x: int| c <= x < c + z ==> t0[x] != a,
        !(c + z + 1 < s0.len() && t0[c + z + 1] == b),
    ensures
        inv_places(s0, t0, n0, a, b, c + z + 1, s),
{
    let pl = s.len() - (s0.len() - c);
    let c2 = c + z + 1;
    let pl2 = pl + z + 1;
    let made = (n0 + c - pl) as nat;
    let rest = t0.skip(c);
    let rest_s = s0.skip(c);
    assert forall|x: int| 0 <= x < z implies rest[x] != a by {
        assert(rest[x] == t0[c + x]);
    }
    lemma_merge_places_skip_prefix(rest_s, rest, z, a, b, made);
    assert(rest_s.skip(z) =~= s0.skip(c + z));
    assert(rest.skip(z) =~= t0.skip(c + z));
    let at_s = s0.skip(c + z);
    let at = t0.skip(c + z);
    assert(at[0] == a);
    if at.len() >= 2 {
        assert(at[1] == t0[c + z + 1]);
    }
    lemma_merge_places_keep(at_s, at, a, b, made);
    assert(at_s.skip(1) =~= s0.skip(c2));
    assert(at.skip(1) =~= t0.skip(c2));
    assert forall|y: int| 0 <= y < pl2 implies (s.take(pl) + rest_s.take(z) + seq![at_s[0]])[y]
        == s.take(pl2)[y] by {
        if y >= pl {
            assert(s[y] == s0[y - pl + c]);
        }
    }
    assert(s.take(pl) + rest_s.take(z) + seq![at_s[0]] =~= s.take(pl2));
    assert(s.take(pl) + (rest_s.take(z) + (seq![at_s[0]] + merge_places(
        s0.skip(c2),
        t0.skip(c2),
        a,
        b,
        made,
    ))) =~= s.take(pl2) + merge_places(s0.skip(c2), t0.skip(c2), a, b, made));
}

/// The positions of the settled part after a live occurrence and its
/// successor were replaced by `r`.
proof fn lemma_pass_merge_places(
    s0: Seq<DLLTokenRef>,
    t0: Seq<TokenRef>,
    n0: int,
    a: TokenRef,
    b: TokenRef,
    c: int,
    s: Seq<DLLTokenRef>,
    t: Seq<TokenRef>,
    z: int,
    r: DLLTokenRef,
    s2: Seq<DLLTokenRef>,
)
    requires
        t0.len() == s0.len(),
        0 <= n0,
        0 <= c <= s0.len(),
        0 <= s.len() - (s0.len() - c) <= c,
        inv_tail(s0, t0, c, s, t),
        inv_places(s0, t0, n0, a, b, c, s),
        0 <= z < s0.len() - c - 1,
        t0[c + z] == a,
        t0[c + z + 1] == b,
        forall|x: int| c <= x < c + z ==> t0[x] != a,
        r.0 == n0 + c - (s.len() - (s0.len() - c)),
        s2 == s.take(s.len() - (s0.len() - c) + z) + seq![r] + s.skip(
            s.len() - (s0.len() - c) + z + 2,
        ),
    ensures
        inv_places(s0, t0, n0, a, b, c + z + 2, s2),
{
    let pl = s.len() - (s0.len() - c);
    let i = pl + z;
    let c2 = c + z + 2;
    let pl2 = pl + z + 1;
    let made = (n0 + c - pl) as nat;
    let rest = t0.skip(c);
    let rest_s = s0.skip(c);
    assert forall|x: int| 0 <= x < z implies rest[x] != a by {
        assert(rest[x] == t0[c + x]);
    }
    lemma_merge_places_skip_prefix(rest_s, rest, z, a, b, made);
    assert(rest_s.skip(z) =~= s0.skip(c + z));
    assert(rest.skip(z) =~= t0.skip(c + z));
    let at_s = s0.skip(c + z);
    let at = t0.skip(c + z);
    assert(at[0] == a && at[1] == b);
    assert(at_s.skip(2) =~= s0.skip(c2));
    assert(at.skip(2) =~= t0.skip(c2));
    assert(DLLTokenRef(made as usize) == r);
    assert forall|y: int| 0 <= y < pl2 implies (s.take(pl) + rest_s.take(z) + seq![r])[y]
        == s2.take(pl2)[y] by {
        if pl <= y < i {
            assert(s[y] == s0[y - pl + c]);
        }
    }
    assert(s.take(pl) + rest_s.take(z) + seq![r] =~= s2.take(pl2));
    assert(s.take(pl) + (rest_s.take(z) + (seq![r] + merge_places(
        s0.skip(c2),
        t0.skip(c2),
        a,
        b,
        made + 1,
    ))) =~= s2.take(pl2) + merge_places(s0.skip(c2), t0.skip(c2), a, b, made + 1));
    assert((n0 + c2 - pl2) as nat == made + 1);
}

/// A live occurrence that is not followed by `b` stays, and the cursor moves
/// past it.
pub proof fn lemma_pass_keep(
    s0: Seq<DLLTokenRef>,
    t0: Seq<TokenRef>,
    n0: int,
    occs: Seq<DLLTokenRef>,
    a: TokenRef,
    b: TokenRef,
    m: TokenRef,
    k: int,
    c: int,
    s: Seq<DLLTokenRef>,
    t: Seq<TokenRef>,
    z: int,
)
    requires
        pass_frame(s0, t0, n0, occs, a, m),
        pass_inv(s0, t0, n0, occs, a, b, m, k, c, s, t),
        k < occs.len(),
        0 <= z < s0.len() - c,
        s0[c + z] == occs[k],
        t0[c + z] == a,
        forall|x: int| c <= x < c + z ==> t0[x] != a,
        !(c + z + 1 < s0.len() && t0[c + z + 1] == b),
    ensures
        pass_inv(s0, t0, n0, occs, a, b, m, k + 1, c + z + 1, s, t),
{
    let pl = s.len() - (s0.len() - c);
    let c2 = c + z + 1;
    let pl2 = pl + z + 1;
    let rest = t0.skip(c);
    assert forall|x: int| 0 <= x < z implies rest[x] != a by {
        assert(rest[x] == t0[c + x]);
    }
    lemma_merge_seq_skip_prefix(rest, z, a, b, m);
    assert(rest.skip(z) =~= t0.skip(c + z));
    let at = t0.skip(c + z);
    assert(at[0] == a);
    if at.len() >= 2 {
        assert(at[1] == t0[c + z + 1]);
    }
    lemma_merge_seq_keep(at, a, b, m);
    assert(at.skip(1) =~= t0.skip(c2));
    assert forall|y: int| 0 <= y < pl2 implies (t.take(pl) + rest.take(z) + seq![at[0]])[y]
        == t.take(pl2)[y] by {
        if y >= pl {
            assert(s[y] == s0[y - pl + c]);
        }
    }
    assert(t.take(pl) + rest.take(z) + seq![at[0]] =~= t.take(pl2));
    assert(t.take(pl) + (rest.take(z) + (seq![at[0]] + merge_seq(t0.skip(c2), a, b, m))) =~= t.take(
        pl2,
    ) + merge_seq(t0.skip(c2), a, b, m));
    assert(inv_merged(s0, t0, a, b, m, c2, t));
    assert forall|y: int| pl2 <= y < s.len() implies #[trigger] s[y] == s0[y - pl2 + c2] && t[y]
        == t0[y - pl2 + c2] by {
        assert(s[y] == s0[y - pl + c]);
    }
    assert(inv_tail(s0, t0, c2, s, t));
    lemma_pass_keep_places(s0, t0, n0, a, b, c, s, t, z);
    assert forall|j: int, x: int| 0 <= j < k + 1 && c2 <= x < s0.len() implies #[trigger] s0[x]
        != #[trigger] occs[j] by {
        if j == k {
            assert(s0[x] != s0[c + z]);
        }
    }
    assert(inv_behind(s0, occs, k + 1, c2));
    assert forall|x: int|
        0 <= x < c2 && t0[x] == a && s.contains(#[trigger] s0[x]) implies occs.take(k + 1).contains(
        s0[x],
    ) by {
        if x < c {
            assert(occs.take(k).contains(s0[x]));
            let j = choose|j: int| 0 <= j < occs.take(k).len() && occs.take(k)[j] == s0[x];
            assert(occs.take(k + 1)[j] == s0[x]);
        } else {
            assert(x == c + z);
            assert(occs.take(k + 1)[k] == s0[x]);
        }
    }
    assert(inv_seen(s0, t0, occs, a, k + 1, c2, s));
    assert forall|y: int| 0 <= y < pl2 implies (#[trigger] s[y]).0 >= n0 || s0.take(c2).contains(
        s[y],
    ) by {
        if y < pl {
            if s[y].0 < n0 {
                assert(s0.take(c).contains(s[y]));
                let x = choose|x: int| 0 <= x < s0.take(c).len() && s0.take(c)[x] == s[y];
                assert(s0.take(c2)[x] == s[y]);
            }
        } else {
            assert(s[y] == s0[y - pl + c]);
            assert(s0.take(c2)[y - pl + c] == s[y]);
        }
    }
    assert(inv_origin(s0, n0, c2, s));
}

/// A live occurrence that is followed by `b` is replaced, together with that
/// `b`, by the new position `r`, and the cursor moves past both.
pub proof fn lemma_pass_merge(
    s0: Seq<DLLTokenRef>,
    t0: Seq<TokenRef>,
    n0: int,
    occs: Seq<DLLTokenRef>,
    a: TokenRef,
    b: TokenRef,
    m: TokenRef,
    k: int,
    c: int,
    s: Seq<DLLTokenRef>,
    t: Seq<TokenRef>,
    z: int,
    r: DLLTokenRef,
    s2: Seq<DLLTokenRef>,
    t2: Seq<TokenRef>,
)
    requires
        pass_frame(s0, t0, n0, occs, a, m),
        pass_inv(s0, t0, n0, occs, a, b, m, k, c, s, t),
        k < occs.len(),
        0 <= z < s0.len() - c - 1,
        s0[c + z] == occs[k],
        t0[c + z] == a,
        t0[c + z + 1] == b,
        forall|x: int| c <= x < c + z ==> t0[x] != a,
        r.0 == n0 + c - (s.len() - (s0.len() - c)),
        !s.contains(r),
        s2 == s.take(s.len() - (s0.len() - c) + z) + seq![r] + s.skip(
            s.len() - (s0.len() - c) + z + 2,
        ),
        t2 == t.take(s.len() - (s0.len() - c) + z) + seq![m] + t.skip(
            s.len() - (s0.len() - c) + z + 2,
        ),
    ensures
        pass_inv(s0, t0, n0, occs, a, b, m, k + 1, c + z + 2, s2, t2),
{
    let pl = s.len() - (s0.len() - c);
    let i = pl + z;
    let c2 = c + z + 2;
    let pl2 = pl + z + 1;
    assert(s2.len() == s.len() - 1);
    assert forall|y: int| 0 <= y < s2.len() implies #[trigger] s2[y] == (if y < i {
        s[y]
    } else if y == i {
        r
    } else {
        s[y + 1]
    }) by {}
    assert forall|y: int| 0 <= y < s2.len() implies #[trigger] t2[y] == (if y < i {
        t[y]
    } else if y == i {
        m
    } else {
        t[y + 1]
    }) by {}
    assert forall|y1: int, y2: int| 0 <= y1 < y2 < s2.len() implies s2[y1] != s2[y2] by {
        let u1 = if y1 < i {
            y1
        } else {
            y1 + 1
        };
        let u2 = if y2 < i {
            y2
        } else {
            y2 + 1
        };
        if y1 != i && y2 != i {
            assert(s[u1] != s[u2]);
        } else if y1 == i {
            assert(s.contains(s[u2]));
        } else {
            assert(s.contains(s[u1]));
        }
    }
    assert(s2.no_duplicates());
    assert forall|y: int| pl2 <= y < s2.len() implies #[trigger] s2[y] == s0[y - pl2 + c2]
        && t2[y] == t0[y - pl2 + c2] by {
        assert(s[y + 1] == s0[y + 1 - pl + c]);
    }
    assert(s2.len() - (s0.len() - c2) == pl2);
    assert(inv_tail(s0, t0, c2, s2, t2));
    let rest = t0.skip(c);
    assert forall|x: int| 0 <= x < z implies rest[x] != a by {
        assert(rest[x] == t0[c + x]);
    }
    lemma_merge_seq_skip_prefix(rest, z, a, b, m);
    assert(rest.skip(z) =~= t0.skip(c + z));
    let at = t0.skip(c + z);
    assert(at[0] == a && at[1] == b);
    assert(at.skip(2) =~= t0.skip(c2));
    assert forall|y: int| 0 <= y < pl2 implies (t.take(pl) + rest.take(z) + seq![m])[y]
        == t2.take(pl2)[y] by {
        if pl <= y < i {
            assert(s[y] == s0[y - pl + c]);
        }
    }
    assert(t.take(pl) + rest.take(z) + seq![m] =~= t2.take(pl2));
    assert(t.take(pl) + (rest.take(z) + (seq![m] + merge_seq(t0.skip(c2), a, b, m))) =~= t2.take(
        pl2,
    ) + merge_seq(t0.skip(c2), a, b, m));
    assert(inv_merged(s0, t0, a, b, m, c2, t2));
    lemma_pass_merge_places(s0, t0, n0, a, b, c, s, t, z, r, s2);
    assert forall|j: int, x: int| 0 <= j < k + 1 && c2 <= x < s0.len() implies #[trigger] s0[x]
        != #[trigger] occs[j] by {
        if j == k {
            assert(s0[x] != s0[c + z]);
        }
    }
    assert(inv_behind(s0, occs, k + 1, c2));
    assert(s[i] == s0[c + z]);
    assert(s[i + 1] == s0[c + z + 1]);
    assert forall|x: int|
        0 <= x < c2 && t0[x] == a && s2.contains(#[trigger] s0[x]) implies occs.take(
        k + 1,
    ).contains(s0[x]) by {
        let y = choose|y: int| 0 <= y < s2.len() && s2[y] == s0[x];
        assert(y != i);
        let u = if y < i {
            y
        } else {
            y + 1
        };
        assert(s[u] == s0[x]);
        assert(s.contains(s0[x]));
        if x < c {
            assert(occs.take(k).contains(s0[x]));
            let j = choose|j: int| 0 <= j < occs.take(k).len() && occs.take(k)[j] == s0[x];
            assert(occs.take(k + 1)[j] == s0[x]);
        } else if x == c + z {
            assert(s[u] == s[i]);
        } else {
            assert(x == c + z + 1);
            assert(s[u] == s[i + 1]);
        }
    }
    assert(inv_seen(s0, t0, occs, a, k + 1, c2, s2));
    assert forall|y: int| 0 <= y < pl2 implies (#[trigger] s2[y]).0 >= n0 || s0.take(c2).contains(
        s2[y],
    ) by {
        if y < pl {
            if s[y].0 < n0 {
                assert(s0.take(c).contains(s[y]));
                let x = choose|x: int| 0 <= x < s0.take(c).len() && s0.take(c)[x] == s[y];
                assert(s0.take(c2)[x] == s[y]);
            }
        } else if y < i {
            assert(s[y] == s0[y - pl + c]);
            assert(s0.take(c2)[y - pl + c] == s[y]);
        }
    }
    assert(inv_origin(s0, n0, c2, s2));
}

/// When every occurrence is dealt with, no `a` stands in the untouched part.
pub proof fn lemma_pass_rest(
    s0: Seq<DLLTokenRef>,
    t0: Seq<TokenRef>,
    n0: int,
    occs: Seq<DLLTokenRef>,
    a: TokenRef,
    b: TokenRef,
    m: TokenRef,
    c: int,
    s: Seq<DLLTokenRef>,
    t: Seq<TokenRef>,
)
    requires
        pass_frame(s0, t0, n0, occs, a, m),
        pass_inv(s0, t0, n0, occs, a, b, m, occs.len() as int, c, s, t),
    ensures
        forall|x: int| c <= x < t0.len() ==> t0[x] != a,
{
    assert forall|x: int| c <= x < t0.len() implies t0[x] != a by {
        if t0[x] == a {
            assert(occs.contains(s0[x]));
            let j = choose|j: int| 0 <= j < occs.len() && occs[j] == s0[x];
            assert(s0[x] != occs[j]);
        }
    }
}

/// When every occurrence is dealt with, the chain is the merge of the chain
/// as found.
pub proof fn lemma_pass_done(
    s0: Seq<DLLTokenRef>,
    t0: Seq<TokenRef>,
    n0: int,
    occs: Seq<DLLTokenRef>,
    a: TokenRef,
    b: TokenRef,
    m: TokenRef,
    c: int,
    s: Seq<DLLTokenRef>,
    t: Seq<TokenRef>,
)
    requires
        pass_frame(s0, t0, n0, occs, a, m),
        pass_inv(s0, t0, n0, occs, a, b, m, occs.len() as int, c, s, t),
    ensures
        t == merge_seq(t0, a, b, m),
        s == merge_places(s0, t0, a, b, n0 as nat),
        c == 0 ==> !starts_with_pair(t0, a, b),
{
    let pl = s.len() - (s0.len() - c);
    let rest = t0.skip(c);
    assert forall|x: int| 0 <= x < rest.len() implies rest[x] != a by {
        if t0[c + x] == a {
            assert(occs.contains(s0[c + x]));
            let j = choose|j: int| 0 <= j < occs.len() && occs[j] == s0[c + x];
            assert(s0[c + x] != occs[j]);
        }
    }
    lemma_merge_seq_absent(rest, a, b, m);
    assert forall|y: int| 0 <= y < t.len() implies (t.take(pl) + rest)[y] == t[y] by {
        if y >= pl {
            assert(s[y] == s0[y - pl + c]);
        }
    }
    assert(t.take(pl) + rest =~= t);
    lemma_merge_places_absent(s0.skip(c), rest, a, b, (n0 + c - pl) as nat);
    assert forall|y: int| 0 <= y < s.len() implies (s.take(pl) + s0.skip(c))[y] == s[y] by {
        if y >= pl {
            assert(s[y] == s0[y - pl + c]);
        }
    }
    assert(s.take(pl) + s0.skip(c) =~= s);
    if c == 0 && t0.len() >= 1 {
        assert(rest[0] != a);
    }
}

} // verus!
