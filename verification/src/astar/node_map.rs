//! A verified association map from nodes to values.

use crate::astar::node::Node;
use vstd::prelude::*;

verus! {

/// The map abstracted by an association sequence: later entries win
pub open spec fn map_of<V>(s: Seq<(Node, V)>) -> Map<Node, V>
    decreases s.len(),
{
    if s.len() == 0 {
        Map::empty()
    } else {
        map_of(s.drop_last()).insert(s.last().0, s.last().1)
    }
}

/// A map from nodes to values, backed by a vector of key-value pairs with
/// pairwise-distinct keys. It is viewed as a `Map<Node, V>`.
pub struct NodeMap<V> {
    entries: Vec<(Node, V)>,
}

impl<V> View for NodeMap<V> {
    type V = Map<Node, V>;

    closed spec fn view(&self) -> Map<Node, V> {
        map_of(self.entries@)
    }
}

/// All keys of an association sequence are pairwise distinct
pub open spec fn distinct_keys<V>(s: Seq<(Node, V)>) -> bool {
    forall|i: int, j: int|
        0 <= i < j < s.len() ==> (#[trigger] s[i]).0 != (#[trigger] s[j]).0
}

/// A key is in the abstracted map exactly when some entry holds it
proof fn lemma_map_of_contains<V>(s: Seq<(Node, V)>, key: Node)
    ensures
        map_of(s).dom().contains(key) <==> exists|i: int|
            0 <= i < s.len() && (#[trigger] s[i]).0 == key,
    decreases s.len(),
{
    if s.len() > 0 {
        lemma_map_of_contains(s.drop_last(), key);
        if s.last().0 == key {
            assert((s[s.len() - 1]).0 == key);
        } else if map_of(s).dom().contains(key) {
            let i = choose|i: int| 0 <= i < s.drop_last().len() && (#[trigger] s.drop_last()[i]).0
                == key;
            assert((s[i]).0 == key);
        } else if exists|i: int| 0 <= i < s.len() && (#[trigger] s[i]).0 == key {
            let i = choose|i: int| 0 <= i < s.len() && (#[trigger] s[i]).0 == key;
            assert((s.drop_last()[i]).0 == key);
        }
    }
}

/// The abstracted map's domain is finite
proof fn lemma_map_of_finite<V>(s: Seq<(Node, V)>)
    ensures
        map_of(s).dom().finite(),
    decreases s.len(),
{
    if s.len() > 0 {
        lemma_map_of_finite(s.drop_last());
    }
}

/// With distinct keys, each entry gives the abstracted map's value
proof fn lemma_map_of_get<V>(s: Seq<(Node, V)>, i: int)
    requires
        distinct_keys(s),
        0 <= i < s.len(),
    ensures
        map_of(s).dom().contains((s[i]).0),
        map_of(s)[(s[i]).0] == (s[i]).1,
    decreases s.len(),
{
    if i == s.len() - 1 {
    } else {
        assert(s.drop_last()[i] == s[i]);
        assert(distinct_keys(s.drop_last())) by {
            assert forall|x: int, y: int| 0 <= x < y < s.drop_last().len() implies (
            #[trigger] s.drop_last()[x]).0 != (#[trigger] s.drop_last()[y]).0 by {
                assert(s[x] == s.drop_last()[x]);
                assert(s[y] == s.drop_last()[y]);
            }
        }
        lemma_map_of_get(s.drop_last(), i);
        assert((s[s.len() - 1]).0 != (s[i]).0);
    }
}

/// With distinct keys, removing an entry removes its key from the map
proof fn lemma_map_of_remove<V>(s: Seq<(Node, V)>, i: int)
    requires
        distinct_keys(s),
        0 <= i < s.len(),
    ensures
        map_of(s.remove(i)) == map_of(s).remove((s[i]).0),
    decreases s.len(),
{
    let key = (s[i]).0;
    if i == s.len() - 1 {
        assert(s.remove(i) =~= s.drop_last());
        lemma_map_of_contains(s.drop_last(), key);
        assert forall|j: int| 0 <= j < s.drop_last().len() implies (#[trigger] s.drop_last()[j]).0
            != key by {
            assert(s[j] == s.drop_last()[j]);
        }
        assert(!map_of(s.drop_last()).dom().contains(key));
        assert(map_of(s.drop_last()) =~= map_of(s).remove(key));
    } else {
        assert(distinct_keys(s.drop_last())) by {
            assert forall|x: int, y: int| 0 <= x < y < s.drop_last().len() implies (
            #[trigger] s.drop_last()[x]).0 != (#[trigger] s.drop_last()[y]).0 by {
                assert(s[x] == s.drop_last()[x]);
                assert(s[y] == s.drop_last()[y]);
            }
        }
        assert(s.drop_last()[i] == s[i]);
        lemma_map_of_remove(s.drop_last(), i);
        assert(s.remove(i).drop_last() =~= s.drop_last().remove(i));
        assert(s.remove(i).last() == s.last());
        assert(map_of(s.remove(i)) == map_of(s.drop_last().remove(i)).insert(
            s.last().0,
            s.last().1,
        ));
        assert((s[s.len() - 1]).0 != key);
        assert(map_of(s.drop_last()).remove(key).insert(s.last().0, s.last().1)
            =~= map_of(s.drop_last()).insert(s.last().0, s.last().1).remove(key));
    }
}

impl<V> NodeMap<V> {
    #[verifier::type_invariant]
    spec fn wf(self) -> bool {
        distinct_keys(self.entries@)
    }
}

impl<V: Copy> NodeMap<V> {
    /// Builds the empty map
    pub fn new() -> (r: NodeMap<V>)
        ensures
            r@ == Map::<Node, V>::empty(),
    {
        NodeMap { entries: Vec::new() }
    }

    /// The value stored under a key, if any
    pub fn get(&self, key: Node) -> (r: Option<V>)
        ensures
            r == if self@.dom().contains(key) {
                Some(self@[key])
            } else {
                None::<V>
            },
    {
        proof {
            use_type_invariant(self);
        }
        let n = self.entries.len();
        let mut i: usize = 0;
        while i < n
            invariant
                0 <= i <= n,
                n == self.entries@.len(),
                distinct_keys(self.entries@),
                forall|j: int| 0 <= j < i ==> (#[trigger] self.entries@[j]).0 != key,
            decreases n - i,
        {
            if self.entries[i].0 == key {
                proof {
                    lemma_map_of_get(self.entries@, i as int);
                }
                return Some(self.entries[i].1);
            }
            i = i + 1;
        }
        proof {
            lemma_map_of_contains(self.entries@, key);
        }
        None
    }

    /// Whether a key is present
    pub fn contains_key(&self, key: Node) -> (r: bool)
        ensures
            r == self@.dom().contains(key),
    {
        self.get(key).is_some()
    }

    /// Stores a value under a key, replacing any previous value
    pub fn insert(&mut self, key: Node, value: V)
        ensures
            final(self)@ == old(self)@.insert(key, value),
    {
        proof {
            use_type_invariant(&*self);
        }
        let mut entries: Vec<(Node, V)> = Vec::new();
        core::mem::swap(&mut self.entries, &mut entries);
        let ghost s0 = entries@;
        let n = entries.len();
        let mut i: usize = 0;
        while i < n
            invariant
                0 <= i <= n,
                entries@ == s0,
                s0 == old(self).entries@,
                n == s0.len(),
                distinct_keys(s0),
                forall|j: int| 0 <= j < i ==> (#[trigger] s0[j]).0 != key,
            decreases n - i,
        {
            if entries[i].0 == key {
                proof {
                    lemma_map_of_remove(s0, i as int);
                    assert(distinct_keys(s0.remove(i as int))) by {
                        assert forall|x: int, y: int|
                            0 <= x < y < s0.remove(i as int).len() implies (#[trigger] s0.remove(
                            i as int,
                        )[x]).0 != (#[trigger] s0.remove(i as int)[y]).0 by {
                            if x < i && y < i {
                                assert(s0[x] == s0.remove(i as int)[x]);
                                assert(s0[y] == s0.remove(i as int)[y]);
                            } else if x < i {
                                assert(s0[x] == s0.remove(i as int)[x]);
                                assert(s0[y + 1] == s0.remove(i as int)[y]);
                            } else {
                                assert(s0[x + 1] == s0.remove(i as int)[x]);
                                assert(s0[y + 1] == s0.remove(i as int)[y]);
                            }
                        }
                    }
                }
                entries.remove(i);
                proof {
                    assert forall|j: int|
                        0 <= j < entries@.len() implies (#[trigger] entries@[j]).0 != key by {
                        if j < i {
                            assert(s0[j] == entries@[j]);
                        } else {
                            assert(s0[j + 1] == entries@[j]);
                        }
                    }
                    lemma_map_of_contains(entries@, key);
                }
                let ghost s1 = entries@;
                entries.push((key, value));
                proof {
                    assert(entries@.drop_last() =~= s1);
                    assert(map_of(entries@) == map_of(s1).insert(key, value));
                    assert(map_of(s0).remove(key).insert(key, value) =~= map_of(s0).insert(
                        key,
                        value,
                    ));
                    assert(distinct_keys(entries@)) by {
                        assert forall|x: int, y: int|
                            0 <= x < y < entries@.len() implies (#[trigger] entries@[x]).0 != (
                        #[trigger] entries@[y]).0 by {
                            if y < entries@.len() - 1 {
                                assert(entries@[x] == s1[x]);
                                assert(entries@[y] == s1[y]);
                            } else {
                                assert(entries@[x] == s1[x]);
                            }
                        }
                    }
                    assert(map_of(entries@) == old(self)@.insert(key, value));
                }
                self.entries = entries;
                return ;
            }
            i = i + 1;
        }
        proof {
            lemma_map_of_contains(s0, key);
            assert(!map_of(s0).dom().contains(key));
        }
        entries.push((key, value));
        proof {
            assert(entries@.drop_last() =~= s0);
            assert(distinct_keys(entries@)) by {
                assert forall|x: int, y: int|
                    0 <= x < y < entries@.len() implies (#[trigger] entries@[x]).0 != (
                #[trigger] entries@[y]).0 by {
                    if y < entries@.len() - 1 {
                        assert(entries@[x] == s0[x]);
                        assert(entries@[y] == s0[y]);
                    } else {
                        assert(entries@[x] == s0[x]);
                    }
                }
            }
        }
        self.entries = entries;
    }
}

} // verus!
