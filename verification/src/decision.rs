//! The decision tree that a rule tree is reduced to once all rules are in: a
//! node that no byte extends is kept as its bare value, any other as a
//! dispatch on the next byte.

use crate::rules::{
    classification, is_viable, lemma_empty_buffer_of_rules, match_len, Outcome,
};
use vstd::prelude::*;

verus! {

/// One arm of a dispatch: the byte it takes, and what decides the rest.
pub struct Arm<V> {
    pub byte: u8,
    pub next: Decision<V>,
}

/// A rule tree in its reduced form. Its view is the map from each registered
/// pattern to its value.
pub enum Decision<V> {
    /// No byte extends this prefix: the outcome is its value, if it has one.
    Leaf(Option<V>),
    /// The next byte picks the first arm that takes it. Without a next byte,
    /// or without an arm for it, the outcome is `value`.
    Branch { value: Option<V>, arms: Vec<Arm<V>> },
}

/// Whether `i` is the first arm of `arms` that takes `byte`.
pub open spec fn is_first_arm<V>(arms: Seq<Arm<V>>, i: int, byte: u8) -> bool {
    &&& 0 <= i < arms.len()
    &&& arms[i].byte == byte
    &&& forall|k: int| 0 <= k < i ==> (#[trigger] arms[k]).byte != byte
}

/// The index of the first arm that takes `byte`, if there is one.
fn find_arm<V>(arms: &Vec<Arm<V>>, byte: u8) -> (found: Option<usize>)
    ensures
        match found {
            Some(i) => is_first_arm(arms@, i as int, byte),
            None => forall|k: int| 0 <= k < arms@.len() ==> (#[trigger] arms@[k]).byte != byte,
        },
{
    let mut i: usize = 0;
    while i < arms.len()
        invariant
            i <= arms@.len(),
            forall|k: int| 0 <= k < i ==> (#[trigger] arms@[k]).byte != byte,
        decreases arms@.len() - i,
    {
        if arms[i].byte == byte {
            return Some(i);
        }
        i += 1;
    }
    None
}

impl<V> Decision<V> {
    /// The value at this node.
    pub open spec fn value(self) -> Option<V> {
        match self {
            Decision::Leaf(value) => value,
            Decision::Branch { value, .. } => value,
        }
    }

    /// The arms of this node; a leaf has none.
    pub open spec fn arms(self) -> Seq<Arm<V>> {
        match self {
            Decision::Leaf(_) => Seq::empty(),
            Decision::Branch { arms, .. } => arms@,
        }
    }

    /// What decides the rest after `byte`, if some arm takes it.
    pub open spec fn child(self, byte: u8) -> Option<Decision<V>> {
        if exists|i: int| is_first_arm(self.arms(), i, byte) {
            Some(self.arms()[choose|i: int| is_first_arm(self.arms(), i, byte)].next)
        } else {
            None
        }
    }

    /// Whether following `path` byte by byte from this node stays in the tree.
    pub open spec fn has_path(self, path: Seq<u8>) -> bool
        decreases path.len(),
    {
        if path.len() == 0 {
            true
        } else {
            match self.child(path[0]) {
                Some(next) => next.has_path(path.drop_first()),
                None => false,
            }
        }
    }

    /// The value at the node that `path` leads to, if there is such a node
    /// and it holds one.
    pub open spec fn value_at(self, path: Seq<u8>) -> Option<V>
        decreases path.len(),
    {
        if path.len() == 0 {
            self.value()
        } else {
            match self.child(path[0]) {
                Some(next) => next.value_at(path.drop_first()),
                None => None,
            }
        }
    }

    /// The node that `path` leads to, if the tree has that path.
    pub open spec fn node_at(self, path: Seq<u8>) -> Option<Decision<V>>
        decreases path.len(),
    {
        if path.len() == 0 {
            Some(self)
        } else {
            match self.child(path[0]) {
                Some(next) => next.node_at(path.drop_first()),
                None => None,
            }
        }
    }

    /// Whether this node is as small as it can be: a dispatch has at least
    /// one arm, and its arms take strictly increasing bytes.
    pub open spec fn is_reduced_here(self) -> bool {
        match self {
            Decision::Leaf(_) => true,
            Decision::Branch { arms, .. } => {
                &&& arms@.len() > 0
                &&& forall|k: int, l: int|
                    0 <= k < l < arms@.len() ==> (#[trigger] arms@[k]).byte < (#[trigger] arms@[l]).byte
            },
        }
    }

    /// Whether every node of the tree is as small as it can be.
    pub open spec fn is_reduced(self) -> bool {
        forall|p: Seq<u8>|
            match #[trigger] self.node_at(p) {
                Some(node) => node.is_reduced_here(),
                None => true,
            }
    }

    /// The tree holds exactly the prefixes of its patterns, and no value at
    /// the root: the empty pattern is no rule.
    pub open spec fn wf(self) -> bool {
        &&& self.value() is None
        &&& forall|p: Seq<u8>| #[trigger] self.has_path(p) <==> is_viable(self@, p)
    }

    /// Classifying the empty buffer gives no value and consumes nothing.
    pub proof fn lemma_empty_buffer(self)
        requires
            self.wf(),
        ensures
            classification(self@, Seq::<u8>::empty()) == (None::<V>, 0int),
    {
        assert(self.value_at(Seq::<u8>::empty()) is None);
        lemma_empty_buffer_of_rules(self@);
    }

    /// An arm found by its index is the arm that `child` speaks of.
    proof fn lemma_child(self, i: int, byte: u8)
        requires
            is_first_arm(self.arms(), i, byte),
        ensures
            self.child(byte) == Some(self.arms()[i].next),
    {
        let j = choose|j: int| is_first_arm(self.arms(), j, byte);
        assert(self.arms()[i].byte == byte);
        assert(self.arms()[j].byte == byte);
        assert(i == j);
    }

    /// Classifies `buf` by longest match with fallback, as the tree that
    /// this one was reduced from does.
    pub fn classify<'a>(&'a self, buf: &[u8]) -> (out: Outcome<'a, V>)
        requires
            self.wf(),
        ensures
            out.consumed == classification(self@, buf@).1,
            match out.value {
                Some(v) => classification(self@, buf@).0 == Some(*v),
                None => classification(self@, buf@).0 is None,
            },
    {
        let mut node = self;
        let mut i: usize = 0;
        assert forall|q: Seq<u8>| buf@.take(0) + q == q by {
            assert(buf@.take(0) + q =~= q);
        }
        while i < buf.len()
            invariant
                self.wf(),
                i <= buf@.len(),
                match_len(self@, buf@, 0) == match_len(self@, buf@, i as int),
                forall|q: Seq<u8>|
                    #![trigger node.has_path(q)]
                    self.has_path(buf@.take(i as int) + q) == node.has_path(q),
                forall|q: Seq<u8>|
                    #![trigger node.value_at(q)]
                    self.value_at(buf@.take(i as int) + q) == node.value_at(q),
            decreases buf@.len() - i,
        {
            let byte = buf[i];
            let ghost here = buf@.take(i as int);
            let ghost there = buf@.take(i + 1);
            proof {
                assert(there =~= here + seq![byte]);
                assert(seq![byte].drop_first().len() == 0);
                if node.child(byte) is Some {
                    assert(node.child(byte).unwrap().has_path(seq![byte].drop_first()));
                }
                assert(node.has_path(seq![byte]) == node.child(byte) is Some);
                assert(here + Seq::<u8>::empty() =~= here);
                assert(node.value_at(Seq::<u8>::empty()) == node.value());
            }
            let step = match node {
                Decision::Leaf(_) => None,
                Decision::Branch { arms, .. } => match find_arm(arms, byte) {
                    Some(j) => {
                        proof {
                            node.lemma_child(j as int, byte);
                        }
                        Some(&arms[j].next)
                    },
                    None => None,
                },
            };
            match step {
                None => {
                    assert(node.child(byte) is None);
                    assert(!self.has_path(there));
                    return Outcome { value: node.value_ref(), consumed: i };
                },
                Some(next) => {
                    proof {
                        assert(node.child(byte) == Some(*next));
                        assert(self.has_path(there));
                        assert forall|q: Seq<u8>|
                            #![trigger next.has_path(q)]
                            #![trigger next.value_at(q)]
                            self.has_path(there + q) == next.has_path(q) && self.value_at(there + q)
                                == next.value_at(q) by {
                            let bq = seq![byte] + q;
                            assert(there + q =~= here + bq);
                            assert(bq.drop_first() =~= q);
                            assert(node.has_path(bq) == next.has_path(q));
                            assert(node.value_at(bq) == next.value_at(q));
                        }
                    }
                    node = next;
                    i += 1;
                },
            }
        }
        proof {
            let here = buf@.take(i as int);
            assert(here + Seq::<u8>::empty() =~= here);
            assert(node.value_at(Seq::<u8>::empty()) == node.value());
        }
        Outcome { value: node.value_ref(), consumed: i }
    }

    /// The value at this node, borrowed.
    fn value_ref(&self) -> (value: Option<&V>)
        ensures
            match value {
                Some(v) => self.value() == Some(*v),
                None => self.value() is None,
            },
    {
        match self {
            Decision::Leaf(value) => value.as_ref(),
            Decision::Branch { value, .. } => value.as_ref(),
        }
    }
}

impl<V> View for Decision<V> {
    type V = Map<Seq<u8>, V>;

    open spec fn view(&self) -> Map<Seq<u8>, V> {
        Map::new(|p: Seq<u8>| self.value_at(p) is Some, |p: Seq<u8>| self.value_at(p).unwrap())
    }
}

} // verus!
