//! The prefix tree of registered rules: insertion, construction from a rule
//! set, and longest-match-with-fallback classification.

use std::collections::HashMap;
use crate::decision::{is_first_arm, Arm, Decision};
use crate::rules::{
    classification, distinct_patterns, is_viable, lemma_empty_buffer_of_rules, lemma_rule_map_dom,
    match_len, rule_map, Outcome, Rule, TrieError,
};
use vstd::prelude::*;

verus! {

broadcast use vstd::std_specs::hash::group_hash_axioms;

/// Two non-empty sequences with the same first element are equal, or one a
/// prefix of the other, exactly when what follows that element is.
proof fn lemma_same_head(p: Seq<u8>, q: Seq<u8>)
    requires
        p.len() > 0,
        q.len() > 0,
        p[0] == q[0],
    ensures
        (p == q) == (p.drop_first() == q.drop_first()),
        p.is_prefix_of(q) == p.drop_first().is_prefix_of(q.drop_first()),
{
    let pt = p.drop_first();
    let qt = q.drop_first();
    if pt == qt {
        assert forall|i: int| 0 <= i < p.len() implies p[i] == q[i] by {
            if i > 0 {
                assert(p[i] == pt[i - 1]);
                assert(q[i] == qt[i - 1]);
            }
        }
        assert(p =~= q);
    }
    if pt.is_prefix_of(qt) {
        assert forall|i: int| 0 <= i < p.len() implies p[i] == q[i] by {
            if i > 0 {
                assert(p[i] == pt[i - 1]);
                assert(pt[i - 1] == qt.subrange(0, pt.len() as int)[i - 1]);
                assert(q[i] == qt[i - 1]);
            }
        }
        assert(p =~= q.subrange(0, p.len() as int));
    }
    if p.is_prefix_of(q) {
        assert forall|i: int| 0 <= i < pt.len() implies pt[i] == qt[i] by {
            assert(pt[i] == p[i + 1]);
            assert(p[i + 1] == q.subrange(0, p.len() as int)[i + 1]);
        }
        assert(pt =~= qt.subrange(0, pt.len() as int));
    }
}

/// One node of the tree. It stands for the byte prefix that leads to it.
struct Node<V> {
    /// Present iff a registered pattern ends exactly here.
    value: Option<V>,
    /// The bytes that extend this prefix towards some pattern.
    next: HashMap<u8, Node<V>>,
}

impl<V> Node<V> {
    /// Whether following `path` byte by byte from this node stays in the tree.
    spec fn has_path(self, path: Seq<u8>) -> bool
        decreases path.len(),
    {
        if path.len() == 0 {
            true
        } else if self.next@.contains_key(path[0]) {
            self.next@[path[0]].has_path(path.drop_first())
        } else {
            false
        }
    }

    /// The value stored at the node that `path` leads to, if there is such a
    /// node and it holds one.
    spec fn value_at(self, path: Seq<u8>) -> Option<V>
        decreases path.len(),
    {
        if path.len() == 0 {
            self.value
        } else if self.next@.contains_key(path[0]) {
            self.next@[path[0]].value_at(path.drop_first())
        } else {
            None
        }
    }

    fn new() -> (node: Self)
        ensures
            node.value is None,
            node.next@ == Map::<u8, Node<V>>::empty(),
            forall|p: Seq<u8>| #[trigger] node.value_at(p) is None,
            forall|p: Seq<u8>| #[trigger] node.has_path(p) == (p.len() == 0),
    {
        Node { value: None, next: HashMap::new() }
    }

    /// Registers the rest of `pattern`, from `pos` on, below this node.
    fn insert(&mut self, pattern: &[u8], pos: usize, value: V) -> (res: Result<(), TrieError>)
        requires
            pos <= pattern@.len(),
        ensures
            res is Err <==> old(self).value_at(pattern@.skip(pos as int)) is Some,
            res is Err ==> forall|p: Seq<u8>|
                #![trigger final(self).value_at(p)]
                #![trigger final(self).has_path(p)]
                final(self).value_at(p) == old(self).value_at(p) && final(self).has_path(p)
                    == old(self).has_path(p),
            res is Ok ==> forall|p: Seq<u8>| #[trigger]
                final(self).value_at(p) == (if p == pattern@.skip(pos as int) {
                    Some(value)
                } else {
                    old(self).value_at(p)
                }),
            res is Ok ==> forall|p: Seq<u8>| #[trigger]
                final(self).has_path(p) == (old(self).has_path(p) || p.is_prefix_of(
                    pattern@.skip(pos as int),
                )),
        decreases pattern@.len() - pos,
    {
        let ghost rest = pattern@.skip(pos as int);
        if pos == pattern.len() {
            if self.value.is_some() {
                return Err(TrieError::DuplicatePattern);
            }
            self.value = Some(value);
            proof {
                assert forall|p: Seq<u8>| #[trigger]
                    final(self).value_at(p) == (if p == rest {
                        Some(value)
                    } else {
                        old(self).value_at(p)
                    }) by {
                    if p.len() == 0 {
                        assert(p =~= rest);
                    }
                }
            }
            Ok(())
        } else {
            let byte = pattern[pos];
            let ghost had = old(self).next@.contains_key(byte);
            let mut child = match self.next.remove(&byte) {
                Some(child) => child,
                None => Node::new(),
            };
            let ghost below = child;
            let res = child.insert(pattern, pos + 1, value);
            self.next.insert(byte, child);
            proof {
                let sub = pattern@.skip(pos + 1);
                assert(rest.drop_first() =~= sub);
                assert(rest[0] == byte);
                assert(had ==> below == old(self).next@[byte]);
                assert(final(self).next@ == old(self).next@.insert(byte, child));
                assert forall|p: Seq<u8>| #[trigger]
                    final(self).value_at(p) == (if res is Err {
                        old(self).value_at(p)
                    } else if p == rest {
                        Some(value)
                    } else {
                        old(self).value_at(p)
                    }) by {
                    if p.len() > 0 && p[0] == byte {
                        assert(old(self).value_at(p) == below.value_at(p.drop_first()));
                        assert(final(self).value_at(p) == child.value_at(p.drop_first()));
                        lemma_same_head(p, rest);
                    }
                }
                assert forall|p: Seq<u8>| #[trigger]
                    final(self).has_path(p) == (old(self).has_path(p) || (res is Ok
                        && p.is_prefix_of(rest))) by {
                    if p.len() > 0 && p[0] == byte {
                        assert(old(self).has_path(p) == (had && below.has_path(p.drop_first())));
                        if !had && p.len() == 1 {
                            assert(p.drop_first() =~= sub.subrange(0, 0));
                        }
                        assert(final(self).has_path(p) == child.has_path(p.drop_first()));
                        lemma_same_head(p, rest);
                    }
                }
            }
            res
        }
    }

    /// Whether `d` has the paths and the values of this node.
    spec fn reduced_to(self, d: Decision<V>) -> bool {
        forall|p: Seq<u8>|
            #![trigger d.has_path(p)]
            #![trigger d.value_at(p)]
            d.has_path(p) == self.has_path(p) && d.value_at(p) == self.value_at(p)
    }

    /// Reduces the tree below this node, children first: a node without
    /// children becomes a leaf, any other a dispatch with one arm for each
    /// child, in the order of their bytes.
    fn into_decision(self) -> (d: Decision<V>)
        ensures
            self.reduced_to(d),
            d.is_reduced(),
        decreases self,
    {
        let ghost whole = self;
        let Node { value, mut next } = self;
        if next.is_empty() {
            let d = Decision::Leaf(value);
            proof {
                assert forall|b: u8| d.child(b) is None && !whole.next@.contains_key(b) by {
                    assert(!whole.next@.dom().contains(b));
                }
                assert forall|p: Seq<u8>| #[trigger] d.node_at(p) is Some implies p.len() == 0 by {}
            }
            return d;
        }
        let mut arms: Vec<Arm<V>> = Vec::new();
        let mut count: usize = 0;
        while count < 256
            invariant
                whole == self,
                count <= 256,
                forall|b: u8| b < count ==> !next@.contains_key(b),
                forall|b: u8|
                    b >= count ==> (#[trigger] next@.contains_key(b)) == whole.next@.contains_key(b),
                forall|b: u8|
                    b >= count && whole.next@.contains_key(b) ==> (#[trigger] next@[b])
                        == whole.next@[b],
                forall|i: int|
                    0 <= i < arms@.len() ==> (#[trigger] arms@[i]).byte < count
                        && whole.next@.contains_key(arms@[i].byte)
                        && whole.next@[arms@[i].byte].reduced_to(arms@[i].next)
                        && arms@[i].next.is_reduced(),
                forall|b: u8|
                    b < count && #[trigger] whole.next@.contains_key(b) ==> exists|i: int|
                        0 <= i < arms@.len() && (#[trigger] arms@[i]).byte == b,
                forall|k: int, l: int|
                    0 <= k < l < arms@.len() ==> (#[trigger] arms@[k]).byte < (#[trigger] arms@[l]).byte,
            decreases 256 - count,
        {
            let byte = count as u8;
            let ghost before = arms@;
            match next.remove(&byte) {
                Some(child) => {
                    proof {
                        assert(child == whole.next@[byte]);
                        assert(decreases_to!(whole => whole.next@[byte]));
                    }
                    let below = child.into_decision();
                    arms.push(Arm { byte, next: below });
                    proof {
                        assert forall|b: u8|
                            b < count + 1 && #[trigger] whole.next@.contains_key(b) implies exists|
                            i: int,
                        |
                            0 <= i < arms@.len() && (#[trigger] arms@[i]).byte == b by {
                            if b < count {
                                let i = choose|i: int|
                                    0 <= i < before.len() && (#[trigger] before[i]).byte == b;
                                assert(arms@[i].byte == b);
                            } else {
                                assert(arms@[arms@.len() - 1].byte == b);
                            }
                        }
                    }
                },
                None => {
                    proof {
                        assert(!whole.next@.contains_key(byte));
                    }
                },
            }
            count += 1;
        }
        let d = Decision::Branch { value, arms };
        proof {
            if forall|b: u8| !whole.next@.dom().contains(b) {
                assert(whole.next@.dom() =~= Set::<u8>::empty());
            }
            let some = choose|b: u8| whole.next@.dom().contains(b);
            assert(whole.next@.contains_key(some));
            assert(d.arms().len() > 0);
            assert forall|b: u8|
                match #[trigger] d.child(b) {
                    Some(below) => whole.next@.contains_key(b) && whole.next@[b].reduced_to(below)
                        && below.is_reduced(),
                    None => !whole.next@.contains_key(b),
                } by {
                if whole.next@.contains_key(b) {
                    let i = choose|i: int| 0 <= i < d.arms().len() && (#[trigger] d.arms()[i]).byte == b;
                    assert(is_first_arm(d.arms(), i, b));
                }
                if d.child(b) is Some {
                    let i = choose|i: int| is_first_arm(d.arms(), i, b);
                    assert(d.arms()[i].byte == b);
                }
            }
            assert forall|p: Seq<u8>|
                #![trigger d.has_path(p)]
                #![trigger d.value_at(p)]
                d.has_path(p) == whole.has_path(p) && d.value_at(p) == whole.value_at(p) by {
                if p.len() > 0 {
                    let b = p[0];
                    match d.child(b) {
                        Some(below) => {
                            assert(whole.next@[b].reduced_to(below));
                            assert(below.has_path(p.drop_first()) == whole.next@[b].has_path(
                                p.drop_first(),
                            ));
                            assert(below.value_at(p.drop_first()) == whole.next@[b].value_at(
                                p.drop_first(),
                            ));
                        },
                        None => {},
                    }
                }
            }
            assert forall|p: Seq<u8>|
                match #[trigger] d.node_at(p) {
                    Some(node) => node.is_reduced_here(),
                    None => true,
                } by {
                if p.len() > 0 {
                    match d.child(p[0]) {
                        Some(below) => {
                            assert(below.is_reduced());
                            assert(d.node_at(p) == below.node_at(p.drop_first()));
                        },
                        None => {},
                    }
                }
            }
        }
        d
    }
}

/// The compiled rule set. Its view is the map from each registered pattern
/// to its value.
pub struct Trie<V> {
    root: Node<V>,
}

impl<V> View for Trie<V> {
    type V = Map<Seq<u8>, V>;

    closed spec fn view(&self) -> Map<Seq<u8>, V> {
        Map::new(|p: Seq<u8>| self.root.value_at(p) is Some, |p: Seq<u8>| self.root.value_at(p).unwrap())
    }
}

impl<V> Trie<V> {
    /// The tree holds exactly the prefixes of its patterns, finitely many
    /// patterns, and no value at the root.
    pub closed spec fn wf(&self) -> bool {
        &&& self.root.value is None
        &&& self@.dom().finite()
        &&& forall|p: Seq<u8>| #[trigger] self.root.has_path(p) <==> is_viable(self@, p)
    }

    /// A well-formed tree has no rule for the empty pattern.
    pub proof fn lemma_no_empty_pattern(self)
        requires
            self.wf(),
        ensures
            !self@.contains_key(Seq::<u8>::empty()),
    {
    }

    /// The tree without rules.
    pub fn new() -> (trie: Self)
        ensures
            trie.wf(),
            trie@ == Map::<Seq<u8>, V>::empty(),
    {
        let trie = Trie { root: Node::new() };
        assert(trie@ =~= Map::<Seq<u8>, V>::empty());
        trie
    }

    /// Registers the rule `(pattern, value)`. A pattern that is registered
    /// already is refused, and the tree stays as it was.
    pub fn insert(&mut self, pattern: &[u8], value: V) -> (res: Result<(), TrieError>)
        requires
            old(self).wf(),
            pattern@.len() > 0,
        ensures
            final(self).wf(),
            res is Err <==> old(self)@.contains_key(pattern@),
            res is Err ==> final(self)@ == old(self)@,
            res is Ok ==> final(self)@ == old(self)@.insert(pattern@, value),
    {
        assert(pattern@.skip(0) =~= pattern@);
        let res = self.root.insert(pattern, 0, value);
        proof {
            let before = *old(self);
            let after = *final(self);
            if res is Err {
                assert(after@ =~= before@);
            } else {
                assert(after@ =~= before@.insert(pattern@, value));
                assert(after.root.value_at(Seq::<u8>::empty()) == before.root.value_at(Seq::<u8>::empty()));
                assert forall|p: Seq<u8>| #[trigger] after.root.has_path(p) implies is_viable(after@, p) by {
                    if p.len() > 0 {
                        if p.is_prefix_of(pattern@) {
                        } else {
                            assert(before.root.has_path(p));
                            assert(is_viable(before@, p));
                            let k = choose|k: Seq<u8>| before@.contains_key(k) && #[trigger] p.is_prefix_of(k);
                            assert(after@.contains_key(k) && p.is_prefix_of(k));
                        }
                    }
                }
                assert forall|p: Seq<u8>| is_viable(after@, p) implies #[trigger] after.root.has_path(p) by {
                    if p.len() > 0 {
                        let k = choose|k: Seq<u8>| after@.contains_key(k) && #[trigger] p.is_prefix_of(k);
                        if k != pattern@ {
                            assert(before@.contains_key(k) && p.is_prefix_of(k));
                            assert(is_viable(before@, p));
                            assert(before.root.has_path(p));
                        }
                    }
                }
            }
        }
        res
    }

    /// Classifies `buf` by longest match with fallback: follows the bytes of
    /// `buf` from the root for as long as the tree has them, and reports the
    /// value at the node where the walk stopped, with the number of bytes
    /// followed.
    pub fn longest_match<'a>(&'a self, buf: &[u8]) -> (out: Outcome<'a, V>)
        requires
            self.wf(),
        ensures
            out.consumed == classification(self@, buf@).1,
            match out.value {
                Some(v) => classification(self@, buf@).0 == Some(*v),
                None => classification(self@, buf@).0 is None,
            },
    {
        let mut node = &self.root;
        let mut i: usize = 0;
        assert(buf@.take(0) =~= Seq::<u8>::empty());
        assert forall|q: Seq<u8>| buf@.take(0) + q == q by {
            assert(buf@.take(0) + q =~= q);
        }
        while i < buf.len()
            invariant
                self.wf(),
                i <= buf@.len(),
                match_len(self@, buf@, 0) == match_len(self@, buf@, i as int),
                forall|q: Seq<u8>|
                    #![trigger node.has_path(q)]
                    self.root.has_path(buf@.take(i as int) + q) == node.has_path(q),
                forall|q: Seq<u8>|
                    #![trigger node.value_at(q)]
                    self.root.value_at(buf@.take(i as int) + q) == node.value_at(q),
            decreases buf@.len() - i,
        {
            let byte = buf[i];
            let ghost here = buf@.take(i as int);
            let ghost there = buf@.take(i + 1);
            proof {
                assert(there =~= here + seq![byte]);
                assert(seq![byte].drop_first().len() == 0);
                if node.next@.contains_key(byte) {
                    assert(node.next@[byte].has_path(seq![byte].drop_first()));
                }
                assert(node.has_path(seq![byte]) == node.next@.contains_key(byte));
            }
            match node.next.get(&byte) {
                None => {
                    proof {
                        assert(!self.root.has_path(there));
                        assert(here + Seq::<u8>::empty() =~= here);
                        assert(node.value_at(Seq::<u8>::empty()) == node.value);
                    }
                    return Outcome { value: node.value.as_ref(), consumed: i };
                },
                Some(child) => {
                    proof {
                        assert(self.root.has_path(there));
                        assert forall|q: Seq<u8>|
                            #![trigger child.has_path(q)]
                            #![trigger child.value_at(q)]
                            self.root.has_path(there + q) == child.has_path(q)
                                && self.root.value_at(there + q) == child.value_at(q) by {
                            let bq = seq![byte] + q;
                            assert(there + q =~= here + bq);
                            assert(bq.drop_first() =~= q);
                            assert(node.has_path(bq) == child.has_path(q));
                            assert(node.value_at(bq) == child.value_at(q));
                        }
                    }
                    node = child;
                    i += 1;
                },
            }
        }
        proof {
            let here = buf@.take(i as int);
            assert(here + Seq::<u8>::empty() =~= here);
            assert(node.value_at(Seq::<u8>::empty()) == node.value);
        }
        Outcome { value: node.value.as_ref(), consumed: i }
    }

    /// Reduces the tree to its decision form, which classifies every buffer
    /// as the tree does: both have the same rules.
    pub fn compile(self) -> (d: Decision<V>)
        requires
            self.wf(),
        ensures
            d.wf(),
            d@ == self@,
            d.is_reduced(),
    {
        let d = self.root.into_decision();
        proof {
            assert(d@ =~= self@);
            assert(d.value_at(Seq::<u8>::empty()) == self.root.value_at(Seq::<u8>::empty()));
        }
        d
    }

    /// Compiles a rule set. It succeeds exactly when no two rules have the
    /// same pattern; the tree then holds each rule, and as many patterns as
    /// there are rules.
    pub fn build(rules: Vec<Rule<V>>) -> (res: Result<Self, TrieError>)
        requires
            forall|i: int| 0 <= i < rules@.len() ==> (#[trigger] rules@[i]).pattern@.len() > 0,
        ensures
            res is Ok <==> distinct_patterns(rules@),
            match res {
                Ok(trie) => {
                    &&& trie.wf()
                    &&& trie@ == rule_map(rules@)
                    &&& trie@.dom().len() == rules@.len()
                },
                Err(e) => e == TrieError::DuplicatePattern,
            },
    {
        let mut trie = Trie::new();
        let ghost all = rules@;
        assert(all.take(0) =~= Seq::<Rule<V>>::empty());
        for rule in it: rules
            invariant
                it.seq() == all,
                trie.wf(),
                trie@ == rule_map(all.take(it.index() as int)),
                trie@.dom().len() == it.index(),
                distinct_patterns(all.take(it.index() as int)),
                forall|i: int| 0 <= i < all.len() ==> (#[trigger] all[i]).pattern@.len() > 0,
        {
            let ghost n = it.index() as int;
            proof {
                lemma_rule_map_dom(all.take(n), rule.pattern@);
                assert(all.take(n + 1).drop_last() =~= all.take(n));
                assert(all.take(n + 1).last() == all[n]);
            }
            match trie.insert(rule.pattern.as_slice(), rule.value) {
                Err(e) => {
                    proof {
                        let j = choose|j: int| 0 <= j < n && (#[trigger] all.take(n)[j]).pattern@ == rule.pattern@;
                        assert(all[j].pattern@ == all[n].pattern@);
                    }
                    return Err(e);
                },
                Ok(()) => {
                    proof {
                        assert forall|a: int, b: int| 0 <= a < b < n + 1 implies (#[trigger] all.take(
                            n + 1,
                        )[a]).pattern@ != (#[trigger] all.take(n + 1)[b]).pattern@ by {
                            if b == n {
                                assert(all.take(n)[a].pattern@ == all[a].pattern@);
                            } else {
                                assert(all.take(n)[a].pattern@ != all.take(n)[b].pattern@);
                            }
                        }
                    }
                },
            }
        }
        assert(all.take(all.len() as int) =~= all);
        Ok(trie)
    }
}

/// Compiles a rule set into its decision form. It succeeds exactly when no two
/// rules have the same pattern.
pub fn build_decision_tree<V>(rules: Vec<Rule<V>>) -> (res: Result<Decision<V>, TrieError>)
    requires
        forall|i: int| 0 <= i < rules@.len() ==> (#[trigger] rules@[i]).pattern@.len() > 0,
    ensures
        res is Ok <==> distinct_patterns(rules@),
        match res {
            Ok(d) => {
                &&& d.wf()
                &&& d.is_reduced()
                &&& d@ == rule_map(rules@)
                &&& d@.dom().len() == rules@.len()
            },
            Err(e) => e == TrieError::DuplicatePattern,
        },
{
    match Trie::build(rules) {
        Ok(trie) => Ok(trie.compile()),
        Err(e) => Err(e),
    }
}

/// Classifying the empty buffer gives no value and consumes nothing.
pub proof fn lemma_empty_buffer<V>(trie: Trie<V>)
    requires
        trie.wf(),
    ensures
        classification(trie@, Seq::<u8>::empty()) == (None::<V>, 0int),
{
    trie.lemma_no_empty_pattern();
    lemma_empty_buffer_of_rules(trie@);
}

} // verus!
