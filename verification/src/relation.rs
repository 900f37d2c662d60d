//! Finite sets and finite relations of tokens, kept as lists.

use vstd::prelude::*;

verus! {

/// A value that can stand as a key or a member of a [`Relation`]: it can
/// be compared, and the comparison goes by its view.
pub trait Token: View + Sized {
    /// Whether the two tokens have the same view.
    fn same(&self, other: &Self) -> (same: bool)
        ensures
            same == (self@ == other@),
    ;
}

impl Token for String {
    fn same(&self, other: &Self) -> (same: bool) {
        *self == *other
    }
}

impl Token for u32 {
    fn same(&self, other: &Self) -> (same: bool) {
        *self == *other
    }
}

/// Whether `pairs` relates `key` to anything.
pub open spec fn relates<A, B>(pairs: Set<(A, B)>, key: A) -> bool {
    exists|member: B| pairs.contains((key, member))
}

/// Whether two sets of pairs hold the same pairs, each the other way round.
pub open spec fn mirrored<A, B>(there: Set<(A, B)>, back: Set<(B, A)>) -> bool {
    forall|a: A, b: B| there.contains((a, b)) <==> back.contains((b, a))
}

/// The views of a list of tokens.
pub open spec fn token_views<T: Token>(tokens: Seq<T>) -> Seq<T::V> {
    Seq::new(tokens.len(), |i: int| tokens[i]@)
}

/// The index of the first token of `tokens` that equals `token`.
pub fn position<T: Token>(tokens: &Vec<T>, token: &T) -> (at: Option<usize>)
    ensures
        match at {
            Some(i) => {
                &&& i < tokens.len()
                &&& tokens[i as int]@ == token@
                &&& token_views(tokens@)[i as int] == token@
                &&& token_views(tokens@).contains(token@)
            },
            None => !token_views(tokens@).contains(token@),
        },
{
    let mut i: usize = 0;
    while i < tokens.len()
        invariant
            i <= tokens.len(),
            forall|k: int| 0 <= k < i ==> tokens[k]@ != token@,
        decreases tokens.len() - i,
    {
        if tokens[i].same(token) {
            return Some(i);
        }
        i += 1;
    }
    None
}

/// A finite set of tokens, kept as a list in which no token stands twice.
pub struct TokenSet<T: Token> {
    items: Vec<T>,
}

impl<T: Token> View for TokenSet<T> {
    type V = Set<T::V>;

    closed spec fn view(&self) -> Set<T::V> {
        token_views(self.items@).to_set()
    }
}

impl<T: Token> TokenSet<T> {
    /// No token stands twice in the list.
    pub closed spec fn wf(&self) -> bool {
        token_views(self.items@).no_duplicates()
    }

    /// The empty set.
    pub fn new() -> (set: Self)
        ensures
            set.wf(),
            set@ == Set::<T::V>::empty(),
    {
        TokenSet { items: Vec::new() }
    }

    /// Whether `token` is in the set.
    pub fn contains(&self, token: &T) -> (found: bool)
        ensures
            found == self@.contains(token@),
    {
        position(&self.items, token).is_some()
    }

    /// Whether the set is empty.
    pub fn is_empty(&self) -> (empty: bool)
        ensures
            empty == (self@ == Set::<T::V>::empty()),
    {
        proof {
            if self.items.len() > 0 {
                assert(token_views(self.items@)[0] == self.items[0]@);
                assert(self@.contains(self.items[0]@));
            } else {
                assert(self@ =~= Set::<T::V>::empty());
            }
        }
        self.items.len() == 0
    }

    /// The tokens of the set, each once, in no particular order.
    pub fn items(&self) -> (items: &Vec<T>)
        requires
            self.wf(),
        ensures
            token_views(items@).no_duplicates(),
            token_views(items@).to_set() == self@,
    {
        &self.items
    }

    /// Puts `token` into the set.
    pub fn insert(&mut self, token: T)
        requires
            old(self).wf(),
        ensures
            final(self).wf(),
            final(self)@ == old(self)@.insert(token@),
    {
        let ghost before = token_views(self.items@);
        if position(&self.items, &token).is_none() {
            self.items.push(token);
            proof {
                let after = token_views(self.items@);
                assert(after =~= before.push(token@));
                assert forall|v: T::V| after.contains(v) <==> before.contains(v) || v
                    == token@ by {
                    if before.contains(v) {
                        let j = choose|j: int| 0 <= j < before.len() && before[j] == v;
                        assert(after[j] == v);
                    }
                    if v == token@ {
                        assert(after[before.len() as int] == v);
                    }
                }
            }
        }
    }

    /// Takes `token` out of the set.
    pub fn remove(&mut self, token: &T)
        requires
            old(self).wf(),
        ensures
            final(self).wf(),
            final(self)@ == old(self)@.remove(token@),
    {
        let ghost before = token_views(self.items@);
        match position(&self.items, token) {
            Some(at) => {
                self.items.swap_remove(at);
                proof {
                    let after = token_views(self.items@);
                    let last = before.len() - 1;
                    assert(after =~= before.update(at as int, before[last]).drop_last());
                    assert forall|v: T::V| after.contains(v) <==> before.contains(v) && v
                        != token@ by {
                        if before.contains(v) && v != token@ {
                            let j = choose|j: int| 0 <= j < before.len() && before[j] == v;
                            if j == last {
                                assert(after[at as int] == v);
                            } else {
                                assert(after[j] == v);
                            }
                        }
                    }
                }
            },
            None => {},
        }
    }
}

/// A key of a [`Relation`] with the members that it is related to.
pub struct Entry<K: Token, V: Token> {
    key: K,
    members: TokenSet<V>,
}

/// A finite relation between keys and members, kept as a list that gives
/// each key, once, with the set of its members. A key with no member is
/// not kept.
pub struct Relation<K: Token, V: Token> {
    entries: Vec<Entry<K, V>>,
}

impl<K: Token, V: Token> View for Relation<K, V> {
    type V = Set<(K::V, V::V)>;

    closed spec fn view(&self) -> Set<(K::V, V::V)> {
        Set::new(|pair: (K::V, V::V)| exists|i: int| self.links(i, pair))
    }
}

impl<K: Token, V: Token> Relation<K, V> {
    /// Whether the entry at `i` relates the two sides of `pair`.
    closed spec fn links(&self, i: int, pair: (K::V, V::V)) -> bool {
        &&& 0 <= i < self.entries.len()
        &&& self.entries[i].key@ == pair.0
        &&& self.entries[i].members@.contains(pair.1)
    }

    /// Each key stands once, with a set of members that is not empty.
    pub closed spec fn wf(&self) -> bool {
        &&& forall|i: int|
            0 <= i < self.entries.len() ==> (#[trigger] self.entries[i]).members.wf()
                && self.entries[i].members@ != Set::<V::V>::empty()
        &&& forall|i: int, j: int|
            0 <= i < j < self.entries.len() ==> (#[trigger] self.entries[i]).key@ != (
            #[trigger] self.entries[j]).key@
    }

    /// Whether `key` is related to any member.
    pub open spec fn has_key(&self, key: K::V) -> bool {
        relates(self@, key)
    }

    /// The members that `key` is related to.
    pub open spec fn members(&self, key: K::V) -> Set<V::V> {
        Set::new(|member: V::V| self@.contains((key, member)))
    }

    /// The relation that relates nothing.
    pub fn new() -> (relation: Self)
        ensures
            relation.wf(),
            relation@ == Set::<(K::V, V::V)>::empty(),
    {
        Relation { entries: Vec::new() }
    }

    /// The index of the entry of `key`.
    fn find(&self, key: &K) -> (at: Option<usize>)
        ensures
            match at {
                Some(i) => i < self.entries.len() && self.entries[i as int].key@ == key@,
                None => forall|i: int|
                    0 <= i < self.entries.len() ==> (#[trigger] self.entries[i]).key@ != key@,
            },
    {
        let mut i: usize = 0;
        while i < self.entries.len()
            invariant
                i <= self.entries.len(),
                forall|k: int| 0 <= k < i ==> (#[trigger] self.entries[k]).key@ != key@,
            decreases self.entries.len() - i,
        {
            if self.entries[i].key.same(key) {
                return Some(i);
            }
            i += 1;
        }
        None
    }

    /// The set of the members that `key` is related to, if there are any.
    pub fn get(&self, key: &K) -> (found: Option<&TokenSet<V>>)
        requires
            self.wf(),
        ensures
            match found {
                Some(set) => set.wf() && set@ == self.members(key@) && self.has_key(key@),
                None => !self.has_key(key@),
            },
    {
        match self.find(key) {
            Some(at) => {
                let set = &self.entries[at].members;
                proof {
                    assert forall|member: V::V| set@.contains(member) <==> self@.contains(
                        (key@, member),
                    ) by {
                        if set@.contains(member) {
                            assert(self.links(at as int, (key@, member)));
                        }
                    }
                    if forall|member: V::V| !set@.contains(member) {
                        assert(set@ =~= Set::<V::V>::empty());
                    }
                }
                Some(set)
            },
            None => None,
        }
    }

    /// Whether `key` is related to any member.
    pub fn contains_key(&self, key: &K) -> (found: bool)
        requires
            self.wf(),
        ensures
            found == self.has_key(key@),
    {
        self.get(key).is_some()
    }

    /// Relates `key` to `member`.
    pub fn insert(&mut self, key: K, member: V)
        requires
            old(self).wf(),
        ensures
            final(self).wf(),
            final(self)@ == old(self)@.insert((key@, member@)),
    {
        match self.find(&key) {
            Some(at) => {
                self.entries[at].members.insert(member);
                proof {
                    assert(self.entries[at as int].members@.contains(member@));
                    assert forall|pair: (K::V, V::V)|
                        self@.contains(pair) <==> old(self)@.contains(pair) || pair == (
                            key@,
                            member@,
                        ) by {
                        if self@.contains(pair) {
                            let i = choose|i: int| self.links(i, pair);
                            if pair != (key@, member@) {
                                assert(old(self).links(i, pair));
                            }
                        }
                        if old(self)@.contains(pair) {
                            let i = choose|i: int| old(self).links(i, pair);
                            assert(self.links(i, pair));
                        }
                        if pair == (key@, member@) {
                            assert(self.links(at as int, pair));
                        }
                    }
                }
            },
            None => {
                let mut members = TokenSet::new();
                members.insert(member);
                let ghost pair0 = (key@, member@);
                self.entries.push(Entry { key, members });
                proof {
                    let n = old(self).entries.len() as int;
                    assert(self.entries[n].members@.contains(member@));
                    assert forall|pair: (K::V, V::V)|
                        self@.contains(pair) <==> old(self)@.contains(pair) || pair
                            == pair0 by {
                        if self@.contains(pair) {
                            let i = choose|i: int| self.links(i, pair);
                            if i < n {
                                assert(old(self).links(i, pair));
                            }
                        }
                        if old(self)@.contains(pair) {
                            let i = choose|i: int| old(self).links(i, pair);
                            assert(self.links(i, pair));
                        }
                        if pair == pair0 {
                            assert(self.links(n, pair));
                        }
                    }
                }
            },
        }
    }

    /// Ends the relation of `key` to `member`, and says whether `key` is
    /// then related to nothing.
    pub fn remove(&mut self, key: &K, member: &V) -> (emptied: bool)
        requires
            old(self).wf(),
        ensures
            final(self).wf(),
            final(self)@ == old(self)@.remove((key@, member@)),
            emptied == !final(self).has_key(key@),
    {
        let ghost gone = (key@, member@);
        match self.find(key) {
            Some(at) => {
                self.entries[at].members.remove(member);
                let ghost mid = *self;
                proof {
                    assert forall|pair: (K::V, V::V)|
                        (exists|i: int| mid.links(i, pair)) <==> old(self)@.contains(pair)
                            && pair != gone by {
                        if exists|i: int| mid.links(i, pair) {
                            let i = choose|i: int| mid.links(i, pair);
                            assert(old(self).links(i, pair));
                        }
                        if old(self)@.contains(pair) && pair != gone {
                            let i = choose|i: int| old(self).links(i, pair);
                            assert(mid.links(i, pair));
                        }
                    }
                }
                if self.entries[at].members.is_empty() {
                    self.entries.swap_remove(at);
                    proof {
                        let last = mid.entries.len() - 1;
                        assert forall|pair: (K::V, V::V)|
                            self@.contains(pair) <==> old(self)@.contains(pair) && pair
                                != gone by {
                            if self@.contains(pair) {
                                let i = choose|i: int| self.links(i, pair);
                                if i == at {
                                    assert(mid.links(last, pair));
                                } else {
                                    assert(mid.links(i, pair));
                                }
                            }
                            if old(self)@.contains(pair) && pair != gone {
                                let i = choose|i: int| mid.links(i, pair);
                                if i == last {
                                    assert(self.links(at as int, pair));
                                } else {
                                    assert(self.links(i, pair));
                                }
                            }
                        }
                    }
                    true
                } else {
                    proof {
                        let set = self.entries[at as int].members;
                        if forall|other: V::V| !set@.contains(other) {
                            assert(set@ =~= Set::<V::V>::empty());
                        }
                        let other = choose|other: V::V| set@.contains(other);
                        assert(self.links(at as int, (key@, other)));
                        assert(self@.contains((key@, other)));
                    }
                    false
                }
            },
            None => true,
        }
    }

    /// Ends the relation of `key` to every member.
    pub fn remove_key(&mut self, key: &K)
        requires
            old(self).wf(),
        ensures
            final(self).wf(),
            final(self)@ == old(self)@.filter(|pair: (K::V, V::V)| pair.0 != key@),
    {
        let ghost kept = old(self)@.filter(|pair: (K::V, V::V)| pair.0 != key@);
        match self.find(key) {
            Some(at) => {
                self.entries.swap_remove(at);
                proof {
                    let last = old(self).entries.len() - 1;
                    assert forall|pair: (K::V, V::V)| self@.contains(pair) <==> kept.contains(
                        pair,
                    ) by {
                        if self@.contains(pair) {
                            let i = choose|i: int| self.links(i, pair);
                            if i == at {
                                assert(old(self).links(last, pair));
                            } else {
                                assert(old(self).links(i, pair));
                            }
                        }
                        if kept.contains(pair) {
                            let i = choose|i: int| old(self).links(i, pair);
                            if i == last {
                                assert(self.links(at as int, pair));
                            } else {
                                assert(self.links(i, pair));
                            }
                        }
                    }
                }
            },
            None => {},
        }
    }
}

} // verus!
