//! The sequence structure: a doubly-linked chain of positions kept in an arena.
//!
//! Every position ever created stays in the arena under its identifier, which
//! is its index there. The chain threads the live positions together through
//! `next` and `prev`; a position that a splice has taken out keeps its place in
//! the arena but loses both links, so it can never be mistaken for a live one
//! that has a successor.

use crate::token::TokenRef;
use vstd::prelude::*;
use vstd::std_specs::cmp::PartialEqSpecImpl;

verus! {

/// Handle of a position of the sequence: its identifier, which is also its
/// index in the arena.
#[derive(Clone, Copy, Debug, PartialEq, Eq, Structural, Hash)]
pub struct DLLTokenRef(pub usize);

/// One position of the sequence: the token that stands there and the links to
/// its neighbours.
#[derive(Clone, Copy, Debug)]
pub struct DLLToken {
    pub id: usize,
    pub token: TokenRef,
    pub next: Option<DLLTokenRef>,
    pub prev: Option<DLLTokenRef>,
}

impl DLLToken {
    /// A position for `token` that follows `prev` and has no successor yet.
    pub fn new(id: usize, token: TokenRef, prev: Option<DLLTokenRef>) -> (node: DLLToken)
        ensures
            node.id == id,
            node.token == token,
            node.next == None::<DLLTokenRef>,
            node.prev == prev,
    {
        DLLToken { id, token, next: None, prev }
    }
}

impl PartialEq for DLLToken {
    /// Two positions are the same position where their identifiers are the
    /// same.
    fn eq(&self, other: &Self) -> (r: bool) {
        self.id == other.id
    }
}

impl Eq for DLLToken {

}

impl PartialEqSpecImpl for DLLToken {
    open spec fn obeys_eq_spec() -> bool {
        true
    }

    open spec fn eq_spec(&self, other: &Self) -> bool {
        self.id == other.id
    }
}

impl core::hash::Hash for DLLToken {
    /// Hashes the identifier alone, as equality compares it alone.
    fn hash<H: core::hash::Hasher>(&self, state: &mut H) {
        self.id.hash(state)
    }
}

/// The arena of positions together with the chain of the live ones.
pub struct Sequence {
    nodes: Vec<DLLToken>,
    head: Option<DLLTokenRef>,
    tail: Option<DLLTokenRef>,
    live: usize,
    order: Ghost<Seq<DLLTokenRef>>,
}

impl Sequence {
    /// The live positions, from the head of the chain to its end.
    pub closed spec fn view(&self) -> Seq<DLLTokenRef> {
        self.order@
    }

    /// Every position ever created, by identifier.
    pub closed spec fn nodes(&self) -> Seq<DLLToken> {
        self.nodes@
    }

    /// The first live position, if there is one.
    pub closed spec fn spec_head(&self) -> Option<DLLTokenRef> {
        self.head
    }

    /// The last live position, if there is one.
    pub closed spec fn spec_tail(&self) -> Option<DLLTokenRef> {
        self.tail
    }

    /// The number of live positions, as the sequence keeps it.
    pub closed spec fn spec_len(&self) -> usize {
        self.live
    }

    /// The node that stands at place `i` of the chain.
    pub open spec fn node_at(&self, i: int) -> DLLToken {
        self.nodes()[self@[i].0 as int]
    }

    /// The tokens of the live positions, in chain order.
    pub open spec fn tokens(&self) -> Seq<TokenRef> {
        Seq::new(self@.len(), |i: int| self.node_at(i).token)
    }

    /// Whether `p` is reachable from the head.
    pub open spec fn is_live(&self, p: DLLTokenRef) -> bool {
        self@.contains(p)
    }

    /// The place of the live position `p` in the chain, counted from the head.
    pub open spec fn place(&self, p: DLLTokenRef) -> int {
        self@.index_of(p)
    }

    /// The node at place `i` is in the arena and its links name its chain
    /// neighbours.
    pub open spec fn linked_at(&self, i: int) -> bool {
        &&& self@[i].0 < self.nodes().len()
        &&& self.node_at(i).prev == (if i == 0 {
            None
        } else {
            Some(self@[i - 1])
        })
        &&& self.node_at(i).next == (if i == self@.len() - 1 {
            None
        } else {
            Some(self@[i + 1])
        })
    }

    /// The node with identifier `p` has neither successor nor predecessor.
    pub open spec fn unlinked(&self, p: int) -> bool {
        &&& self.nodes()[p].next == None::<DLLTokenRef>
        &&& self.nodes()[p].prev == None::<DLLTokenRef>
    }

    /// The chain is a single line without repetition from head to tail, the
    /// links agree with it in both directions, and what is not on it is
    /// unlinked.
    pub open spec fn wf(&self) -> bool {
        &&& self@.len() <= self.nodes().len()
        &&& self.spec_len() == self@.len()
        &&& self@.no_duplicates()
        &&& self.spec_head() == (if self@.len() == 0 {
            None
        } else {
            Some(self@[0])
        })
        &&& self.spec_tail() == (if self@.len() == 0 {
            None
        } else {
            Some(self@.last())
        })
        &&& forall|p: int| 0 <= p < self.nodes().len() ==> (#[trigger] self.nodes()[p]).id == p
        &&& forall|i: int| 0 <= i < self@.len() ==> #[trigger] self.linked_at(i)
        &&& forall|p: int|
            0 <= p < self.nodes().len() && !self.is_live(DLLTokenRef(p as usize))
                ==> #[trigger] self.unlinked(p)
    }

    /// Among live positions of one token, identifiers grow along the chain.
    pub open spec fn ascending(&self) -> bool {
        forall|i: int, j: int|
            0 <= i < j < self@.len() && self.node_at(i).token == self.node_at(j).token
                ==> (#[trigger] self@[i]).0 < (#[trigger] self@[j]).0
    }

    /// An empty sequence.
    pub fn new() -> (s: Sequence)
        ensures
            s.wf(),
            s@.len() == 0,
            s.nodes().len() == 0,
    {
        Sequence { nodes: Vec::new(), head: None, tail: None, live: 0, order: Ghost(Seq::empty()) }
    }

    /// The first live position, if there is one.
    pub fn head(&self) -> (h: Option<DLLTokenRef>)
        ensures
            h == self.spec_head(),
    {
        self.head
    }

    /// The last live position, if there is one.
    pub fn tail(&self) -> (t: Option<DLLTokenRef>)
        ensures
            t == self.spec_tail(),
    {
        self.tail
    }

    /// The number of live positions.
    pub fn len(&self) -> (n: usize)
        ensures
            n == self.spec_len(),
    {
        self.live
    }

    /// The number of positions ever created, live or not.
    pub fn allocated(&self) -> (n: usize)
        ensures
            n == self.nodes().len(),
    {
        self.nodes.len()
    }

    /// The node with identifier `p`.
    pub fn get(&self, p: DLLTokenRef) -> (node: &DLLToken)
        requires
            p.0 < self.nodes().len(),
        ensures
            *node == self.nodes()[p.0 as int],
    {
        &self.nodes[p.0]
    }

    /// The arena holds no more positions than can be numbered.
    pub proof fn lemma_arena_bound(&self)
        ensures
            self.nodes().len() <= usize::MAX,
    {
        assert(self.nodes.len() == self.nodes@.len());
    }

    /// A live position is in the arena, and its place in the chain is the one
    /// place where it stands.
    pub proof fn lemma_place(&self, p: DLLTokenRef) -> (i: int)
        requires
            self.wf(),
            self.is_live(p),
        ensures
            0 <= i < self@.len(),
            self@[i] == p,
            p.0 < self.nodes().len(),
            self.linked_at(i),
            i == self.place(p),
            forall|j: int| 0 <= j < self@.len() && self@[j] == p ==> j == i,
    {
        let i = choose|i: int| 0 <= i < self@.len() && self@[i] == p;
        assert(self.linked_at(i));
        let k = self@.index_of(p);
        assert(0 <= k < self@.len() && self@[k] == p);
        i
    }

    /// A position with a successor or a predecessor is live.
    pub proof fn lemma_linked_is_live(&self, p: DLLTokenRef)
        requires
            self.wf(),
            p.0 < self.nodes().len(),
            !self.unlinked(p.0 as int),
        ensures
            self.is_live(p),
    {
        assert(DLLTokenRef(p.0 as int as usize) == p);
    }

    /// Appends a new position for `token` at the end of the chain and returns
    /// it.
    pub fn append(&mut self, token: TokenRef) -> (p: DLLTokenRef)
        requires
            old(self).wf(),
        ensures
            final(self).wf(),
            p.0 == old(self).nodes().len(),
            final(self)@ == old(self)@.push(p),
            final(self).nodes().len() == old(self).nodes().len() + 1,
            final(self).nodes()[p.0 as int].token == token,
            forall|q: int|
                0 <= q < old(self).nodes().len() ==> (#[trigger] final(self).nodes()[q]).token
                    == old(self).nodes()[q].token,
            old(self).ascending() ==> final(self).ascending(),
    {
        let id = self.nodes.len();
        let p = DLLTokenRef(id);
        let ghost before = *self;
        self.nodes.push(DLLToken::new(id, token, self.tail));
        match self.tail {
            Some(t) => {
                proof {
                    let k = before.lemma_place(t);
                }
                self.nodes[t.0].next = Some(p);
            },
            None => {
                self.head = Some(p);
            },
        }
        self.tail = Some(p);
        assert(self.live < self.nodes.len());
        self.live = self.live + 1;
        self.order = Ghost(before@.push(p));
        proof {
            let n = before@.len() as int;
            assert(forall|i: int| 0 <= i < n ==> before.linked_at(i));
            assert(!before@.contains(p)) by {
                if before@.contains(p) {
                    let k = before.lemma_place(p);
                }
            }
            assert forall|i: int| 0 <= i < self@.len() implies #[trigger] self.linked_at(i) by {
                if i < n {
                    assert(before.linked_at(i));
                }
            }
            assert forall|q: int|
                0 <= q < self.nodes().len() && !self.is_live(
                    DLLTokenRef(q as usize),
                ) implies #[trigger] self.unlinked(q) by {
                let r = DLLTokenRef(q as usize);
                if q < before.nodes().len() {
                    if before.is_live(r) {
                        let k = before.lemma_place(r);
                        assert(self@[k] == r);
                    }
                    assert(before.unlinked(q));
                    if before.spec_tail() is Some {
                        assert(before.spec_tail() == Some(before@.last()));
                        assert(self@[n - 1] == before@.last());
                    }
                } else {
                    assert(self@[n] == p);
                }
            }
            if before.ascending() {
                assert forall|i: int, j: int|
                    0 <= i < j < self@.len() && self.node_at(i).token == self.node_at(
                        j,
                    ).token implies (#[trigger] self@[i]).0 < (#[trigger] self@[j]).0 by {
                    assert(before.linked_at(i));
                    if j < n {
                        assert(before.linked_at(j));
                        assert(before.node_at(i).token == self.node_at(i).token);
                        assert(before.node_at(j).token == self.node_at(j).token);
                        assert(before@[i] == self@[i]);
                        assert(before@[j] == self@[j]);
                    }
                }
            }
        }
        p
    }

    /// Whether `p` is a position of the arena that is on the chain: the head,
    /// or a position with a predecessor.
    pub fn is_on_chain(&self, p: DLLTokenRef) -> (r: bool)
        requires
            self.wf(),
        ensures
            r == (p.0 < self.nodes().len() && self.is_live(p)),
    {
        if p.0 >= self.nodes.len() {
            proof {
                if self.is_live(p) {
                    let i = self.lemma_place(p);
                }
            }
            return false;
        }
        let linked = self.nodes[p.0].prev.is_some();
        let first = match self.head {
            Some(h) => h.0 == p.0,
            None => false,
        };
        proof {
            if self.is_live(p) {
                let i = self.lemma_place(p);
            } else {
                assert(DLLTokenRef(p.0 as int as usize) == p);
                assert(self.unlinked(p.0 as int));
                if self@.len() > 0 {
                    assert(self@[0] != p);
                }
            }
        }
        linked || first
    }

    /// The tokens of at most `limit` positions that follow the live position
    /// `from` on the chain, in chain order: for each position of a window
    /// that starts at `from`, the token that comes next.
    pub fn targets(&self, from: DLLTokenRef, limit: usize) -> (tokens: Vec<TokenRef>)
        requires
            self.wf(),
            self.is_live(from),
        ensures
            tokens@ == self.tokens().subrange(
                self.place(from) + 1,
                if self.place(from) + 1 + limit < self@.len() {
                    self.place(from) + 1 + limit
                } else {
                    self@.len() as int
                },
            ),
    {
        let ghost start = self.lemma_place(from) + 1;
        let ghost n = self@.len() as int;
        let ghost mut j: int = start;
        let mut tokens: Vec<TokenRef> = Vec::new();
        let mut next = self.nodes[from.0].next;
        proof {
            assert(tokens@ =~= self.tokens().subrange(start, start));
        }
        while next.is_some() && tokens.len() < limit
            invariant
                self.wf(),
                n == self@.len(),
                1 <= start <= j <= n,
                j - start == tokens@.len(),
                j - start <= limit,
                tokens@ == self.tokens().subrange(start, j),
                next == self.node_at(j - 1).next,
            decreases n - j,
        {
            let p = next.unwrap();
            proof {
                assert(self.linked_at(j - 1));
                assert(self.linked_at(j));
            }
            tokens.push(self.nodes[p.0].token);
            next = self.nodes[p.0].next;
            proof {
                assert(self.tokens().subrange(start, j).push(self.tokens()[j])
                    =~= self.tokens().subrange(start, j + 1));
                j = j + 1;
            }
        }
        proof {
            assert(self.linked_at(j - 1));
        }
        tokens
    }

    /// The positions from `from` to the end of the chain, in chain order. A
    /// position that is no longer on the chain has no successor and is
    /// returned alone.
    pub fn iterate(&self, from: DLLTokenRef) -> (positions: Vec<DLLTokenRef>)
        requires
            self.wf(),
            from.0 < self.nodes().len(),
        ensures
            self.is_live(from) ==> positions@ == self@.skip(self.place(from)),
            !self.is_live(from) ==> positions@ == seq![from],
    {
        let ghost live = self.is_live(from);
        let ghost mut start: int = 0;
        proof {
            if live {
                start = self.lemma_place(from);
            } else {
                assert(DLLTokenRef(from.0 as int as usize) == from);
                assert(self.unlinked(from.0 as int));
            }
        }
        let ghost mut j: int = start;
        let mut positions: Vec<DLLTokenRef> = Vec::new();
        positions.push(from);
        let mut next = self.nodes[from.0].next;
        proof {
            if live {
                assert(positions@ =~= self@.subrange(start, start + 1));
            }
        }
        while next.is_some()
            invariant
                self.wf(),
                live == self.is_live(from),
                live ==> 0 <= start <= j < self@.len(),
                live ==> positions@ == self@.subrange(start, j + 1),
                live ==> next == self.node_at(j).next,
                !live ==> positions@ == seq![from] && next is None,
            decreases self@.len() - j,
        {
            let p = next.unwrap();
            proof {
                assert(self.linked_at(j));
                assert(self.linked_at(j + 1));
            }
            positions.push(p);
            next = self.nodes[p.0].next;
            proof {
                assert(self@.subrange(start, j + 1).push(p) =~= self@.subrange(start, j + 2));
                j = j + 1;
            }
        }
        proof {
            if live {
                assert(self.linked_at(j));
                assert(self@.subrange(start, j + 1) =~= self@.skip(start));
            }
        }
        positions
    }

    /// At most `limit` positions from the live position `from` on, in chain
    /// order, and the position that follows them on the chain, if there is
    /// one.
    pub fn window(&self, from: DLLTokenRef, limit: usize) -> (out: (
        Vec<DLLTokenRef>,
        Option<DLLTokenRef>,
    ))
        requires
            self.wf(),
            self.is_live(from),
        ensures
            out.0@ == self@.subrange(
                self.place(from),
                if self.place(from) + limit < self@.len() {
                    self.place(from) + limit
                } else {
                    self@.len() as int
                },
            ),
            out.1 == (if self.place(from) + limit < self@.len() {
                Some(self@[self.place(from) + limit])
            } else {
                None
            }),
    {
        let ghost start = self.lemma_place(from);
        let ghost n = self@.len() as int;
        let ghost mut j: int = start;
        let mut positions: Vec<DLLTokenRef> = Vec::new();
        let mut next = Some(from);
        proof {
            assert(positions@ =~= self@.subrange(start, start));
        }
        while next.is_some() && positions.len() < limit
            invariant
                self.wf(),
                n == self@.len(),
                0 <= start <= j <= n,
                j - start == positions@.len(),
                j - start <= limit,
                positions@ == self@.subrange(start, j),
                next == (if j < n {
                    Some(self@[j])
                } else {
                    None
                }),
            decreases n - j,
        {
            let p = next.unwrap();
            proof {
                assert(self.linked_at(j));
            }
            positions.push(p);
            next = self.nodes[p.0].next;
            proof {
                assert(self@.subrange(start, j).push(p) =~= self@.subrange(start, j + 1));
                j = j + 1;
            }
        }
        (positions, next)
    }

    /// The chain `order` with the positions at places `i` and `i + 1` replaced
    /// by `p`.
    spec fn spliced(order: Seq<DLLTokenRef>, i: int, p: DLLTokenRef) -> Seq<DLLTokenRef> {
        Seq::new(
            (order.len() - 1) as nat,
            |k: int|
                if k < i {
                    order[k]
                } else if k == i {
                    p
                } else {
                    order[k + 1]
                },
        )
    }

    /// Whether `after` is `before` with the positions at places `i` and
    /// `i + 1` unlinked and a new position for `token` linked in their stead.
    spec fn splice_of(before: Sequence, after: Sequence, i: int, token: TokenRef) -> bool {
        let order = before.order@;
        let n = order.len() as int;
        let id = before.nodes@.len() as int;
        let p = DLLTokenRef(id as usize);
        let prev = if i == 0 {
            None
        } else {
            Some(order[i - 1])
        };
        let next = if i + 2 == n {
            None
        } else {
            Some(order[i + 2])
        };
        &&& 0 <= i < n - 1
        &&& id <= usize::MAX
        &&& after.order@ == Self::spliced(order, i, p)
        &&& after.nodes@.len() == id + 1
        &&& after.live == n - 1
        &&& after.head == (if i == 0 {
            Some(p)
        } else {
            before.head
        })
        &&& after.tail == (if i + 2 == n {
            Some(p)
        } else {
            before.tail
        })
        &&& after.nodes@[id] == (DLLToken { id: id as usize, token, next, prev })
        &&& forall|q: int|
            0 <= q < id ==> #[trigger] after.nodes@[q] == (DLLToken {
                id: before.nodes@[q].id,
                token: before.nodes@[q].token,
                next: if q == order[i].0 || q == order[i + 1].0 {
                    None
                } else if i > 0 && q == order[i - 1].0 {
                    Some(p)
                } else {
                    before.nodes@[q].next
                },
                prev: if q == order[i].0 || q == order[i + 1].0 {
                    None
                } else if i + 2 < n && q == order[i + 2].0 {
                    Some(p)
                } else {
                    before.nodes@[q].prev
                },
            })
    }

    /// Such a replacement leaves the chain well-formed.
    proof fn lemma_splice(before: Sequence, after: Sequence, i: int, token: TokenRef)
        requires
            before.wf(),
            Self::splice_of(before, after, i, token),
        ensures
            after.wf(),
    {
        let old_order = before@;
        let n = old_order.len() as int;
        let order = after@;
        let id = before.nodes@.len() as int;
        let p = DLLTokenRef(id as usize);
        assert forall|k: int| 0 <= k < n implies (#[trigger] old_order[k]).0 < id by {
            assert(before.linked_at(k));
        }
        assert forall|k: int, l: int| 0 <= k < l < n - 1 implies order[k] != order[l] by {
            let a = if k < i {
                k
            } else {
                k + 1
            };
            let b = if l < i {
                l
            } else {
                l + 1
            };
            if k != i && l != i {
                assert(old_order[a] != old_order[b]);
            }
        }
        assert forall|k: int| 0 <= k < n - 1 implies #[trigger] after.linked_at(k) by {
            let a = if k < i {
                k
            } else {
                k + 1
            };
            if k != i {
                assert(before.linked_at(a));
                assert(order[k] == old_order[a]);
                assert(old_order[a] != old_order[i]);
                assert(old_order[a] != old_order[i + 1]);
                if a != i - 1 && i > 0 {
                    assert(old_order[a] != old_order[i - 1]);
                }
                if a != i + 2 && i + 2 < n {
                    assert(old_order[a] != old_order[i + 2]);
                }
            } else {
                assert(order[k] == p);
            }
        }
        assert forall|q: int|
            0 <= q < after.nodes().len() && !after.is_live(
                DLLTokenRef(q as usize),
            ) implies #[trigger] after.unlinked(q) by {
            let r = DLLTokenRef(q as usize);
            if q == id {
                assert(order[i] == r);
            } else if r != old_order[i] && r != old_order[i + 1] {
                if before.is_live(r) {
                    let k = before.lemma_place(r);
                    if k < i {
                        assert(order[k] == r);
                    } else {
                        assert(order[k - 1] == r);
                    }
                }
                assert(before.unlinked(q));
                if i > 0 {
                    assert(old_order[i - 1] == order[i - 1]);
                }
                if i + 2 < n {
                    assert(old_order[i + 2] == order[i + 1]);
                }
            }
        }
    }

    /// Replaces the live position `left` and its successor by one new position
    /// for `token`, and returns the new position. The predecessor of `left` and
    /// the successor of the removed pair are rewired to it; where `left` was
    /// the head, the new position becomes the head. The two removed positions
    /// stay in the arena without links.
    pub fn splice(&mut self, left: DLLTokenRef, token: TokenRef) -> (p: DLLTokenRef)
        requires
            old(self).wf(),
            left.0 < old(self).nodes().len(),
            old(self).nodes()[left.0 as int].next is Some,
        ensures
            final(self).wf(),
            p.0 == old(self).nodes().len(),
            final(self).nodes().len() == old(self).nodes().len() + 1,
            final(self).nodes()[p.0 as int].token == token,
            forall|q: int|
                0 <= q < old(self).nodes().len() ==> (#[trigger] final(self).nodes()[q]).token
                    == old(self).nodes()[q].token,
            old(self).is_live(left),
            0 <= old(self).place(left) < old(self)@.len() - 1,
            final(self)@ == old(self)@.take(old(self).place(left)) + seq![p] + old(self)@.skip(
                old(self).place(left) + 2,
            ),
            final(self).tokens() == old(self).tokens().take(old(self).place(left)) + seq![token]
                + old(self).tokens().skip(old(self).place(left) + 2),
    {
        let ghost before = *self;
        proof {
            before.lemma_linked_is_live(left);
        }
        let ghost i = before.lemma_place(left);
        assert(before.linked_at(i + 1));
        let id = self.nodes.len();
        let p = DLLTokenRef(id);
        let prev = self.nodes[left.0].prev;
        let right = self.nodes[left.0].next.unwrap();
        let next = self.nodes[right.0].next;
        self.nodes.push(DLLToken { id, token, next, prev });
        match prev {
            Some(l) => {
                assert(before.linked_at(i - 1));
                self.nodes[l.0].next = Some(p);
            },
            None => {
                self.head = Some(p);
            },
        }
        match next {
            Some(r) => {
                assert(before.linked_at(i + 2));
                self.nodes[r.0].prev = Some(p);
            },
            None => {
                self.tail = Some(p);
            },
        }
        self.nodes[left.0].next = None;
        self.nodes[left.0].prev = None;
        self.nodes[right.0].next = None;
        self.nodes[right.0].prev = None;
        self.live = self.live - 1;
        self.order = Ghost(Self::spliced(before@, i, p));
        proof {
            assert(forall|k: int| 0 <= k < before@.len() ==> before.linked_at(k));
            assert(before@[i] != before@[i + 1]);
            if i > 0 {
                assert(before@[i - 1] != before@[i] && before@[i - 1] != before@[i + 1]);
            }
            if i + 2 < before@.len() {
                assert(before@[i + 2] != before@[i] && before@[i + 2] != before@[i + 1]);
                if i > 0 {
                    assert(before@[i - 1] != before@[i + 2]);
                }
            }
            Self::lemma_splice(before, *self, i, token);
            assert(self@ =~= before@.take(i) + seq![p] + before@.skip(i + 2));
            assert forall|k: int| 0 <= k < self@.len() implies #[trigger] self.tokens()[k] == (
            before.tokens().take(i) + seq![token] + before.tokens().skip(i + 2))[k] by {
                if k < i {
                    assert(before.linked_at(k));
                } else if k > i {
                    assert(before.linked_at(k + 1));
                }
            }
            assert(self.tokens() =~= before.tokens().take(i) + seq![token] + before.tokens().skip(
                i + 2,
            ));
        }
        p
    }
}

} // verus!
