//! The vocabulary registry: tokens by identifier, and the lookup of a token by
//! its string value.

use crate::chain::DLLTokenRef;
use vstd::hash_map::StringHashMap;
use vstd::prelude::*;
use vstd::std_specs::cmp::PartialEqSpecImpl;
use vstd::string::*;

verus! {

/// Handle of a token of the vocabulary: its identifier, which is also its
/// index in the registry.
#[derive(Clone, Copy, Debug, PartialEq, Eq, Structural, Hash)]
pub struct TokenRef(pub usize);

/// A distinct string unit of the vocabulary, with the positions that were
/// registered for it, oldest first.
#[derive(Clone, Debug)]
pub struct Token {
    pub id: usize,
    pub val: String,
    pub occurrences: Vec<DLLTokenRef>,
}

impl Token {
    /// A token without occurrences.
    pub fn new(id: usize, val: String) -> (t: Token)
        ensures
            t.id == id,
            t.val == val,
            t.occurrences@ == Seq::<DLLTokenRef>::empty(),
    {
        Token { id, val, occurrences: Vec::new() }
    }

}

impl PartialEq for Token {
    /// Two tokens are the same token where their identifiers are the same.
    fn eq(&self, other: &Self) -> (r: bool) {
        self.id == other.id
    }
}

impl Eq for Token {

}

impl PartialEqSpecImpl for Token {
    open spec fn obeys_eq_spec() -> bool {
        true
    }

    open spec fn eq_spec(&self, other: &Self) -> bool {
        self.id == other.id
    }
}

/// Trusted: `Hash::hash` of the standard library for `usize`, which feeds the
/// number to the hasher. Nothing is claimed of what the hasher holds
/// afterwards.
pub assume_specification<H: core::hash::Hasher>[ <usize as core::hash::Hash>::hash ](
    value: &usize,
    state: &mut H,
);

impl core::hash::Hash for Token {
    /// Hashes the identifier alone, as equality compares it alone.
    fn hash<H: core::hash::Hasher>(&self, state: &mut H) {
        self.id.hash(state)
    }
}

/// The registry of tokens.
pub struct Vocabulary {
    tokens: Vec<Token>,
    by_value: StringHashMap<TokenRef>,
}

impl Vocabulary {
    /// The tokens, by identifier.
    pub closed spec fn view(&self) -> Seq<Token> {
        self.tokens@
    }

    /// The tokens that `get_or_create` has handed out, by string value.
    pub closed spec fn registered(&self) -> Map<Seq<char>, TokenRef> {
        self.by_value@
    }

    /// The string value of each token, by identifier.
    pub open spec fn values(&self) -> Seq<Seq<char>> {
        Seq::new(self@.len(), |t: int| self@[t].val@)
    }

    /// Identifiers are indices, and a registered value leads to a token that
    /// has that value.
    pub open spec fn wf(&self) -> bool {
        &&& forall|t: int| 0 <= t < self@.len() ==> (#[trigger] self@[t]).id == t
        &&& forall|v: Seq<char>|
            (#[trigger] self.registered().contains_key(v)) ==> self.registered()[v].0
                < self@.len() && self@[self.registered()[v].0 as int].val@ == v
    }

    /// An empty registry.
    pub fn new() -> (v: Vocabulary)
        ensures
            v.wf(),
            v@.len() == 0,
            v.registered() == Map::<Seq<char>, TokenRef>::empty(),
    {
        Vocabulary { tokens: Vec::new(), by_value: StringHashMap::new() }
    }

    /// The number of tokens ever created.
    pub fn len(&self) -> (n: usize)
        ensures
            n == self@.len(),
    {
        self.tokens.len()
    }

    /// The token with identifier `t`.
    pub fn get(&self, t: TokenRef) -> (token: &Token)
        requires
            t.0 < self@.len(),
        ensures
            *token == self@[t.0 as int],
    {
        &self.tokens[t.0]
    }

    /// Adds a token with a fresh identifier and no occurrences, whether or not
    /// another token already has this value. The lookup by value is left as it
    /// is.
    pub fn create(&mut self, val: String) -> (t: TokenRef)
        requires
            old(self).wf(),
        ensures
            final(self).wf(),
            t.0 == old(self)@.len(),
            final(self)@.len() == old(self)@.len() + 1,
            final(self)@[t.0 as int].val == val,
            final(self)@[t.0 as int].occurrences@ == Seq::<DLLTokenRef>::empty(),
            forall|u: int| 0 <= u < old(self)@.len() ==> final(self)@[u] == old(self)@[u],
            final(self).registered() == old(self).registered(),
    {
        let id = self.tokens.len();
        self.tokens.push(Token::new(id, val));
        assert forall|v: Seq<char>| (#[trigger] self.registered().contains_key(v)) implies {
            &&& self.registered()[v].0 < self@.len()
            &&& self@[self.registered()[v].0 as int].val@ == v
        } by {
            assert(old(self).registered().contains_key(v));
        }
        TokenRef(id)
    }

    /// The token registered for `value`; where there is none yet, a new token
    /// with a fresh identifier and no occurrences is created and registered.
    pub fn get_or_create(&mut self, value: &str) -> (t: TokenRef)
        requires
            old(self).wf(),
        ensures
            final(self).wf(),
            t.0 < final(self)@.len(),
            final(self)@[t.0 as int].val@ == value@,
            final(self).registered() == old(self).registered().insert(value@, t),
            forall|u: int| 0 <= u < old(self)@.len() ==> final(self)@[u] == old(self)@[u],
            old(self).registered().contains_key(value@) ==> {
                &&& t == old(self).registered()[value@]
                &&& final(self)@ == old(self)@
            },
            !old(self).registered().contains_key(value@) ==> {
                &&& t.0 == old(self)@.len()
                &&& final(self)@.len() == old(self)@.len() + 1
                &&& final(self)@[t.0 as int].occurrences@ == Seq::<DLLTokenRef>::empty()
            },
    {
        match self.by_value.get(value) {
            Some(found) => {
                let t = *found;
                assert(self.registered().insert(value@, t) =~= self.registered());
                t
            },
            None => {
                let id = self.tokens.len();
                let t = TokenRef(id);
                self.tokens.push(Token::new(id, value.to_owned()));
                self.by_value.insert(value.to_owned(), t);
                assert forall|v: Seq<char>| (#[trigger] self.registered().contains_key(v)) implies {
                    &&& self.registered()[v].0 < self@.len()
                    &&& self@[self.registered()[v].0 as int].val@ == v
                } by {
                    if v != value@ {
                        assert(old(self).registered().contains_key(v));
                    }
                }
                t
            },
        }
    }

    /// Adds `position` to the occurrences of `token`.
    pub fn register_occurrence(&mut self, token: TokenRef, position: DLLTokenRef)
        requires
            old(self).wf(),
            token.0 < old(self)@.len(),
        ensures
            final(self).wf(),
            final(self)@.len() == old(self)@.len(),
            final(self).registered() == old(self).registered(),
            final(self)@[token.0 as int].id == old(self)@[token.0 as int].id,
            final(self)@[token.0 as int].val == old(self)@[token.0 as int].val,
            final(self)@[token.0 as int].occurrences@ == old(self)@[token.0 as int].occurrences@.push(
                position,
            ),
            forall|u: int|
                0 <= u < old(self)@.len() && u != token.0 ==> final(self)@[u] == old(self)@[u],
    {
        self.tokens[token.0].occurrences.push(position);
        assert forall|v: Seq<char>| (#[trigger] self.registered().contains_key(v)) implies {
            &&& self.registered()[v].0 < self@.len()
            &&& self@[self.registered()[v].0 as int].val@ == v
        } by {
            assert(old(self).registered().contains_key(v));
        }
    }
}

} // verus!
