//! The pair-frequency tracker: how often each pair of string values stands
//! side by side, kept as signed counts that are adjusted as merges happen.

use vstd::hash_map::StringHashMap;
use vstd::prelude::*;
use vstd::string::*;

verus! {

/// The number of places in `s` where `left` is directly followed by `right`.
pub open spec fn pair_count<T>(s: Seq<T>, left: T, right: T) -> nat
    decreases s.len(),
{
    if s.len() < 2 {
        0
    } else {
        pair_count(s.drop_last(), left, right) + if s[s.len() - 2] == left && s.last() == right {
            1nat
        } else {
            0nat
        }
    }
}

/// One more element adds one to the count of the pair that it closes.
pub proof fn lemma_pair_count_push<T>(s: Seq<T>, x: T, left: T, right: T)
    ensures
        pair_count(s.push(x), left, right) == pair_count(s, left, right) + if s.len() > 0
            && s.last() == left && x == right {
            1nat
        } else {
            0nat
        },
{
    assert(s.push(x).drop_last() =~= s);
}

/// The pairs of a concatenation are those of its two parts and the one across
/// the seam.
pub proof fn lemma_pair_count_concat<T>(x: Seq<T>, y: Seq<T>, left: T, right: T)
    ensures
        pair_count(x + y, left, right) == pair_count(x, left, right) + pair_count(y, left, right)
            + if x.len() > 0 && y.len() > 0 && x.last() == left && y.first() == right {
            1nat
        } else {
            0nat
        },
    decreases y.len(),
{
    if y.len() == 0 {
        assert(x + y =~= x);
    } else {
        let y0 = y.drop_last();
        assert(x + y =~= (x + y0).push(y.last()));
        assert(y =~= y0.push(y.last()));
        lemma_pair_count_concat(x, y0, left, right);
        lemma_pair_count_push(x + y0, y.last(), left, right);
        lemma_pair_count_push(y0, y.last(), left, right);
    }
}

/// A sequence has fewer pairs than elements.
pub proof fn lemma_pair_count_bound<T>(s: Seq<T>, left: T, right: T)
    ensures
        pair_count(s, left, right) <= s.len(),
        s.len() > 0 ==> pair_count(s, left, right) < s.len(),
    decreases s.len(),
{
    if s.len() >= 2 {
        lemma_pair_count_bound(s.drop_last(), left, right);
    }
}

/// A pair that is counted stands somewhere in the sequence.
pub proof fn lemma_pair_count_witness<T>(s: Seq<T>, left: T, right: T) -> (i: int)
    requires
        pair_count(s, left, right) > 0,
    ensures
        0 <= i < s.len() - 1,
        s[i] == left,
        s[i + 1] == right,
    decreases s.len(),
{
    if s[s.len() - 2] == left && s.last() == right {
        s.len() - 2
    } else {
        let i = lemma_pair_count_witness(s.drop_last(), left, right);
        assert(s.drop_last()[i] == s[i]);
        assert(s.drop_last()[i + 1] == s[i + 1]);
        i
    }
}

/// A pair that is counted has a last place in the sequence: up to there it
/// has been met as often as it stands in the whole.
pub proof fn lemma_pair_count_last<T>(s: Seq<T>, left: T, right: T) -> (l: int)
    requires
        pair_count(s, left, right) > 0,
    ensures
        0 <= l < s.len() - 1,
        s[l] == left,
        s[l + 1] == right,
        pair_count(s.take(l + 2), left, right) == pair_count(s, left, right),
    decreases s.len(),
{
    if s[s.len() - 2] == left && s.last() == right {
        assert(s.take(s.len() as int) =~= s);
        s.len() - 2
    } else {
        let head = s.drop_last();
        let l = lemma_pair_count_last(head, left, right);
        assert(head[l] == s[l]);
        assert(head[l + 1] == s[l + 1]);
        assert(head.take(l + 2) =~= s.take(l + 2));
        l
    }
}

/// A prefix has no more pairs than the whole.
pub proof fn lemma_pair_count_prefix<T>(s: Seq<T>, k: int, left: T, right: T)
    requires
        0 <= k <= s.len(),
    ensures
        pair_count(s.take(k), left, right) <= pair_count(s, left, right),
{
    assert(s =~= s.take(k) + s.skip(k));
    lemma_pair_count_concat(s.take(k), s.skip(k), left, right);
}

/// The count that the entries `entries` give the pair `(left, right)`: its
/// entry, or zero without one.
pub open spec fn count_in(
    entries: Map<(Seq<char>, Seq<char>), int>,
    left: Seq<char>,
    right: Seq<char>,
) -> int {
    if entries.contains_key((left, right)) {
        entries[(left, right)]
    } else {
        0
    }
}

/// The entries `entries` after `delta` was added to the count of the pair
/// `(left, right)`: the pair has an entry afterwards, whether or not it had
/// one.
pub open spec fn bumped(
    entries: Map<(Seq<char>, Seq<char>), int>,
    left: Seq<char>,
    right: Seq<char>,
    delta: int,
) -> Map<(Seq<char>, Seq<char>), int> {
    entries.insert((left, right), count_in(entries, left, right) + delta)
}

/// Signed counts of adjacent pairs, keyed by the string values of the left and
/// the right token. A pair without an entry counts as zero.
pub struct PairCounts {
    row_of: StringHashMap<usize>,
    rows: Vec<StringHashMap<i128>>,
}

impl PairCounts {
    /// The entries: the count recorded for each pair that has one.
    pub closed spec fn view(&self) -> Map<(Seq<char>, Seq<char>), int> {
        Map::new(
            |k: (Seq<char>, Seq<char>)|
                self.row_of@.contains_key(k.0) && self.rows@[self.row_of@[k.0] as int]@.contains_key(
                    k.1,
                ),
            |k: (Seq<char>, Seq<char>)| self.rows@[self.row_of@[k.0] as int]@[k.1] as int,
        )
    }

    /// Every left value has a row of its own.
    pub closed spec fn wf(&self) -> bool {
        &&& forall|u: Seq<char>|
            (#[trigger] self.row_of@.contains_key(u)) ==> self.row_of@[u] < self.rows@.len()
        &&& forall|u: Seq<char>, v: Seq<char>|
            self.row_of@.contains_key(u) && self.row_of@.contains_key(v) && #[trigger] self.row_of@[u]
                == #[trigger] self.row_of@[v] ==> u == v
    }

    /// The count of the pair `(left, right)`: its entry, or zero without one.
    pub open spec fn count(&self, left: Seq<char>, right: Seq<char>) -> int {
        count_in(self@, left, right)
    }

    /// Whether the count of every pair is the number of times it stands in
    /// `values`.
    pub open spec fn tracks(&self, values: Seq<Seq<char>>) -> bool {
        forall|left: Seq<char>, right: Seq<char>|
            (#[trigger] self.count(left, right)) == pair_count(values, left, right)
    }

    /// Every count lies in the range of the counter.
    pub proof fn lemma_count_range(&self, left: Seq<char>, right: Seq<char>)
        ensures
            i128::MIN <= self.count(left, right) <= i128::MAX,
    {
    }

    /// A tracker without entries.
    pub fn new() -> (counts: PairCounts)
        ensures
            counts.wf(),
            counts@ == Map::<(Seq<char>, Seq<char>), int>::empty(),
    {
        let counts = PairCounts { row_of: StringHashMap::new(), rows: Vec::new() };
        assert(counts@ =~= Map::<(Seq<char>, Seq<char>), int>::empty());
        counts
    }

    /// The entry of the pair `(left, right)`, if it has one.
    pub fn get(&self, left: &str, right: &str) -> (entry: Option<i128>)
        requires
            self.wf(),
        ensures
            match entry {
                Some(c) => self@.contains_key((left@, right@)) && c == self@[(left@, right@)],
                None => !self@.contains_key((left@, right@)),
            },
    {
        match self.row_of.get(left) {
            Some(row) => match self.rows[*row].get(right) {
                Some(c) => Some(*c),
                None => None,
            },
            None => None,
        }
    }

    /// The count of the pair `(left, right)`: its entry, or zero without one.
    pub fn count_of(&self, left: &str, right: &str) -> (c: i128)
        requires
            self.wf(),
        ensures
            c == self.count(left@, right@),
    {
        match self.get(left, right) {
            Some(c) => c,
            None => 0,
        }
    }

    /// Adds `delta` to the count of the pair `(left, right)`. A pair without an
    /// entry gets one that starts at zero. The count may become negative.
    pub fn adjust(&mut self, left: &str, right: &str, delta: i128)
        requires
            old(self).wf(),
            i128::MIN <= old(self).count(left@, right@) + delta <= i128::MAX,
        ensures
            final(self).wf(),
            final(self)@ == bumped(old(self)@, left@, right@, delta as int),
    {
        let row = match self.row_of.get(left) {
            Some(row) => *row,
            None => {
                let row = self.rows.len();
                self.rows.push(StringHashMap::new());
                self.row_of.insert(left.to_owned(), row);
                row
            },
        };
        let current = match self.rows[row].get(right) {
            Some(c) => *c,
            None => 0,
        };
        self.rows[row].insert(right.to_owned(), current + delta);
        proof {
            assert forall|u: Seq<char>| #[trigger] self.row_of@.contains_key(u) implies self.row_of@[u]
                < self.rows@.len() by {
                if u != left@ {
                    assert(old(self).row_of@.contains_key(u));
                }
            }
            assert forall|u: Seq<char>, v: Seq<char>|
                self.row_of@.contains_key(u) && self.row_of@.contains_key(v)
                    && #[trigger] self.row_of@[u] == #[trigger] self.row_of@[v] implies u == v by {
                if u != left@ {
                    assert(old(self).row_of@.contains_key(u));
                }
                if v != left@ {
                    assert(old(self).row_of@.contains_key(v));
                }
            }
            let goal = old(self)@.insert((left@, right@), old(self).count(left@, right@) + delta);
            assert forall|k: (Seq<char>, Seq<char>)| self@.contains_key(k) == goal.contains_key(
                k,
            ) && (self@.contains_key(k) ==> self@[k] == goal[k]) by {
                if k.0 != left@ {
                    if self.row_of@.contains_key(k.0) {
                        assert(old(self).row_of@.contains_key(k.0));
                        assert(self.row_of@[k.0] != row);
                    }
                }
            }
            assert(self@ =~= goal);
        }
    }
}

} // verus!
