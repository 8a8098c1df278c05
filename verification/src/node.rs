//! A prefix tree of bare labels: it holds a byte string for every node,
//! the one that the labels from the root down to the node spell. Nodes hold
//! no mark of their own, so the node at which two inserted strings part
//! stands for a string too.

use vstd::prelude::*;
use vstd::slice::{slice_subrange, slice_to_vec};
use crate::cut::{
    classify,
    common_len,
    cut_key,
    describes,
    lemma_common_len,
    lemma_cut,
    lemma_prefix_shift,
    lemma_take_skip,
    Cut,
};

verus! {

/// A node of the prefix tree: a label and the children below it.
#[derive(Debug)]
pub struct TrieNode {
    prefix: Vec<u8>,
    branches: Vec<TrieNode>,
}

/// The shape of a prefix tree: what a `TrieNode` is, as a mathematical value.
#[verifier::ext_equal]
pub struct Trie {
    pub label: Seq<u8>,
    pub children: Seq<Trie>,
}

/// The shapes of a sequence of nodes.
pub open spec fn shapes_of(nodes: Seq<TrieNode>) -> Seq<Trie> {
    Seq::new(nodes.len(), |i: int| nodes[i]@)
}

impl Trie {
    /// A node without children.
    pub open spec fn leaf(label: Seq<u8>) -> Trie {
        Trie { label, children: Seq::empty() }
    }

    /// The node that carries what is left of this node below a split at `at`:
    /// the rest of the label, and all the children.
    pub open spec fn lower(self, at: int) -> Trie {
        Trie { label: self.label.skip(at), children: self.children }
    }

    /// Whether this node takes `key` when it is offered for insertion: it does
    /// unless both are non-empty and start with different bytes.
    pub open spec fn accepts(self, key: Seq<u8>) -> bool {
        classify(self.label, key) != Cut::BothBegin
    }

    /// The index of the first of `children` that accepts `key`, if there is one.
    pub open spec fn child_for(children: Seq<Trie>, key: Seq<u8>) -> Option<int>
        decreases children.len(),
    {
        if children.len() == 0 {
            None
        } else {
            match Trie::child_for(children.drop_last(), key) {
                Some(i) => Some(i),
                None => if children.last().accepts(key) {
                    Some(children.len() - 1)
                } else {
                    None
                },
            }
        }
    }

    /// `child_for` gives the least index of an accepting child.
    pub proof fn lemma_child_for(children: Seq<Trie>, key: Seq<u8>)
        ensures
            match Trie::child_for(children, key) {
                Some(i) => 0 <= i < children.len() && children[i].accepts(key) && forall|j: int|
                    0 <= j < i ==> !(#[trigger] children[j]).accepts(key),
                None => forall|j: int|
                    0 <= j < children.len() ==> !(#[trigger] children[j]).accepts(key),
            },
        decreases children.len(),
    {
        if children.len() > 0 {
            let front = children.drop_last();
            Trie::lemma_child_for(front, key);
            match Trie::child_for(front, key) {
                Some(i) => {
                    assert(children[i] == front[i]);
                    assert forall|j: int| 0 <= j < i implies !(#[trigger] children[j]).accepts(
                        key,
                    ) by {
                        assert(children[j] == front[j]);
                    }
                },
                None => {
                    assert forall|j: int| 0 <= j < children.len() - 1 implies !(
                    #[trigger] children[j]).accepts(key) by {
                        assert(children[j] == front[j]);
                    }
                },
            }
        }
    }

    /// The tree after `key` has been inserted at this node. A node that does
    /// not accept the key is left as it is.
    pub open spec fn inserted(self, key: Seq<u8>) -> Trie
        decreases self,
    {
        match classify(self.label, key) {
            Cut::Parent(_) => Trie { label: key, children: seq![self.lower(key.len() as int)] },
            Cut::Child(_) => {
                let rest = key.skip(self.label.len() as int);
                match Trie::child_for(self.children, rest) {
                    Some(i) => {
                        proof {
                            Trie::lemma_child_for(self.children, rest);
                        }
                        Trie {
                            label: self.label,
                            children: self.children.update(i, self.children[i].inserted(rest)),
                        }
                    },
                    None => Trie {
                        label: self.label,
                        children: self.children.push(Trie::leaf(rest)),
                    },
                }
            },
            Cut::BothBegin => self,
            Cut::BothMiddle(_) => {
                let m = common_len(self.label, key) as int;
                Trie {
                    label: self.label.take(m),
                    children: seq![self.lower(m), Trie::leaf(key.skip(m))],
                }
            },
            Cut::BothEnd => self,
        }
    }

    /// Whether the labels along some path from this node down to a node
    /// spell `key`.
    pub open spec fn has_path(self, key: Seq<u8>) -> bool
        decreases self,
    {
        key == self.label || (self.label.is_prefix_of(key) && exists|i: int|
            0 <= i < self.children.len() && (#[trigger] self.children[i]).has_path(
                key.skip(self.label.len() as int),
            ))
    }

    /// Below a split, a key without its first `n` bytes is spelt by the same
    /// paths as the whole key above it.
    proof fn lemma_lower_has_path(self, key: Seq<u8>, n: int)
        requires
            0 <= n <= self.label.len(),
            n <= key.len(),
            self.label.take(n) == key.take(n),
        ensures
            self.lower(n).has_path(key.skip(n)) == self.has_path(key),
    {
        lemma_take_skip(self.label, key, n);
        lemma_prefix_shift(self.label, key, n);
        let low = self.lower(n);
        if self.label.is_prefix_of(key) && key != self.label {
            let below = key.skip(self.label.len() as int);
            assert(key.skip(n).skip(low.label.len() as int) == below);
            if self.has_path(key) {
                let i = choose|i: int|
                    0 <= i < self.children.len() && (#[trigger] self.children[i]).has_path(below);
                assert(low.children[i].has_path(below));
            }
            if low.has_path(key.skip(n)) {
                let i = choose|i: int|
                    0 <= i < low.children.len() && (#[trigger] low.children[i]).has_path(below);
                assert(self.children[i].has_path(below));
            }
        }
    }

    /// After an insertion at a node that accepts the key, some path spells
    /// the key.
    pub proof fn lemma_inserted_has_path(self, key: Seq<u8>)
        requires
            self.accepts(key),
        ensures
            self.inserted(key).has_path(key),
        decreases self,
    {
        let after = self.inserted(key);
        lemma_cut(self.label, key);
        match classify(self.label, key) {
            Cut::Child(_) => {
                let l = self.label.len() as int;
                let rest = key.skip(l);
                assert(self.label.is_prefix_of(key)) by {
                    assert(key.subrange(0, l) == key.take(l));
                }
                Trie::lemma_child_for(self.children, rest);
                match Trie::child_for(self.children, rest) {
                    Some(i) => {
                        self.children[i].lemma_inserted_has_path(rest);
                        assert(after.children[i].has_path(rest));
                    },
                    None => {
                        let last = self.children.len() as int;
                        assert(after.children[last] == Trie::leaf(rest));
                        assert(after.children[last].has_path(rest));
                    },
                }
            },
            Cut::BothMiddle(_) => {
                let m = common_len(self.label, key) as int;
                assert(after.label.is_prefix_of(key)) by {
                    assert(key.subrange(0, m) == key.take(m));
                }
                assert(after.children[1] == Trie::leaf(key.skip(m)));
                assert(after.children[1].has_path(key.skip(m)));
            },
            _ => {},
        }
    }

    /// What some path spelt before an insertion, some path spells after it.
    pub proof fn lemma_inserted_keeps_paths(self, key: Seq<u8>, other: Seq<u8>)
        requires
            self.has_path(other),
        ensures
            self.inserted(key).has_path(other),
        decreases self,
    {
        let after = self.inserted(key);
        lemma_cut(self.label, key);
        match classify(self.label, key) {
            Cut::Parent(_) => {
                let n = key.len() as int;
                assert(key.is_prefix_of(other) && other.take(n) == key) by {
                    assert(self.label.subrange(0, n) == self.label.take(n));
                    if other != self.label {
                        assert(other.subrange(0, n) =~= self.label.subrange(0, n));
                    }
                    assert(other.take(n) =~= self.label.take(n));
                }
                self.lemma_lower_has_path(other, n);
                assert(after.children[0] == self.lower(n));
            },
            Cut::Child(_) => {
                let l = self.label.len() as int;
                let rest = key.skip(l);
                if other != self.label {
                    let j = choose|j: int|
                        0 <= j < self.children.len() && (#[trigger] self.children[j]).has_path(
                            other.skip(l),
                        );
                    Trie::lemma_child_for(self.children, rest);
                    match Trie::child_for(self.children, rest) {
                        Some(i) => {
                            if i == j {
                                self.children[i].lemma_inserted_keeps_paths(rest, other.skip(l));
                            }
                            assert(after.children[j].has_path(other.skip(l)));
                        },
                        None => {
                            assert(after.children[j] == self.children[j]);
                        },
                    }
                }
            },
            Cut::BothBegin => {},
            Cut::BothMiddle(_) => {
                let m = common_len(self.label, key) as int;
                assert(self.label.take(m).is_prefix_of(other) && other.take(m)
                    == self.label.take(m)) by {
                    if other != self.label {
                        assert(other.subrange(0, m) =~= self.label.subrange(0, m));
                    }
                    assert(other.take(m) =~= self.label.take(m));
                }
                self.lemma_lower_has_path(other, m);
                assert(after.children[0] == self.lower(m));
            },
            Cut::BothEnd => {},
        }
    }
}

/// The shapes of a sequence of nodes, for the definition of a node's shape.
spec fn shapes(nodes: Seq<TrieNode>) -> Seq<Trie>
    decreases nodes,
{
    Seq::new(
        nodes.len(),
        |i: int|
            if 0 <= i < nodes.len() {
                nodes[i].shape()
            } else {
                arbitrary()
            },
    )
}

impl TrieNode {
    spec fn shape(self) -> Trie
        decreases self,
    {
        Trie { label: self.prefix@, children: shapes(self.branches@) }
    }

    /// The view of a node holds the views of its children, in their order.
    proof fn lemma_view(self)
        ensures
            self@.label == self.prefix@,
            self@.children == shapes_of(self.branches@),
            self@.children.len() == self.branches@.len(),
            forall|i: int|
                0 <= i < self.branches@.len() ==> self@.children[i] == (
                #[trigger] self.branches@[i])@,
    {
        assert(shapes(self.branches@) =~= shapes_of(self.branches@));
    }
}

impl View for TrieNode {
    type V = Trie;

    closed spec fn view(&self) -> Trie {
        self.shape()
    }
}

impl TrieNode {
    /// The tree that holds the empty string only.
    pub fn new() -> (node: TrieNode)
        ensures
            node@ == Trie::leaf(Seq::empty()),
    {
        let node = TrieNode { prefix: Vec::new(), branches: Vec::new() };
        assert(node@.children =~= Seq::empty());
        node
    }

    /// A single node labelled `key`.
    pub fn with_key(key: &[u8]) -> (node: TrieNode)
        ensures
            node@ == Trie::leaf(key@),
    {
        let node = TrieNode { prefix: slice_to_vec(key), branches: Vec::new() };
        assert(node@.children =~= Seq::empty());
        node
    }

    /// A node without label above `branches`.
    pub fn with_branches(branches: Vec<TrieNode>) -> (node: TrieNode)
        ensures
            node@ == (Trie { label: Seq::empty(), children: shapes_of(branches@) }),
    {
        let node = TrieNode { prefix: Vec::new(), branches };
        proof {
            node.lemma_view();
        }
        node
    }

    /// A node labelled `key` above `branches`.
    pub fn with_key_and_branches(key: &[u8], branches: Vec<TrieNode>) -> (node: TrieNode)
        ensures
            node@ == (Trie { label: key@, children: shapes_of(branches@) }),
    {
        let node = TrieNode { prefix: slice_to_vec(key), branches };
        proof {
            node.lemma_view();
        }
        node
    }

    /// Inserts `new_key` at this node, splitting it or descending as the cut
    /// of its label against the key asks. A node that does not accept the key
    /// is left as it is.
    pub fn insert(&mut self, new_key: &[u8])
        ensures
            final(self)@ == old(self)@.inserted(new_key@),
            old(self)@.accepts(new_key@) ==> final(self)@.has_path(new_key@),
            forall|key: Seq<u8>| old(self)@.has_path(key) ==> #[trigger] final(self)@.has_path(key),
    {
        proof {
            let before = self@;
            if before.accepts(new_key@) {
                before.lemma_inserted_has_path(new_key@);
            }
            assert forall|key: Seq<u8>| before.has_path(key) implies #[trigger] before.inserted(
                new_key@,
            ).has_path(key) by {
                before.lemma_inserted_keeps_paths(new_key@, key);
            }
        }
        self.insert_impl(new_key);
    }

    /// Splits the node at `at`: what it holds moves into a new node that
    /// carries the rest of the label and becomes the only child.
    fn split(&mut self, at: usize)
        requires
            at <= old(self)@.label.len(),
        ensures
            final(self)@ == (Trie {
                label: old(self)@.label.take(at as int),
                children: seq![old(self)@.lower(at as int)],
            }),
    {
        let drained_key = self.prefix.split_off(at);
        let mut drained_branches: Vec<TrieNode> = Vec::new();
        std::mem::swap(&mut drained_branches, &mut self.branches);
        let lower = TrieNode { prefix: drained_key, branches: drained_branches };
        assert(lower@ =~= old(self)@.lower(at as int));
        self.branches.push(lower);
        assert(self@.children =~= seq![old(self)@.lower(at as int)]);
    }

    /// Inserts `new_key` at this node and says whether the node accepted it.
    fn insert_impl(&mut self, new_key: &[u8]) -> (accepted: bool)
        ensures
            accepted == old(self)@.accepts(new_key@),
            final(self)@ == old(self)@.inserted(new_key@),
            !accepted ==> *final(self) == *old(self),
        decreases *old(self),
    {
        let cut = self.cut_key(new_key);
        match cut {
            Cut::Parent(p) => {
                self.split(p);
                true
            },
            Cut::Child(c) => {
                let cut_child = slice_subrange(new_key, c, new_key.len());
                let ghost children = self@.children;
                proof {
                    self.lemma_view();
                    Trie::lemma_child_for(children, cut_child@);
                }
                let mut i: usize = 0;
                while i < self.branches.len()
                    invariant
                        i <= self.branches@.len(),
                        self.prefix == old(self).prefix,
                        self.branches@ == old(self).branches@,
                        forall|j: int| 0 <= j < i ==> !(#[trigger] children[j]).accepts(cut_child@),
                        children == old(self)@.children,
                        children == shapes_of(self.branches@),
                        cut_child@ == new_key@.skip(old(self)@.label.len() as int),
                        classify(old(self)@.label, new_key@) is Child,
                        Trie::child_for(children, cut_child@) matches Some(k) ==> i <= k
                            < children.len(),
                    decreases self.branches@.len() - i,
                {
                    let ghost siblings = self.branches@;
                    if self.branches[i].insert_impl(cut_child) {
                        proof {
                            Trie::lemma_child_for(children, cut_child@);
                            self.lemma_view();
                            assert(self@.children =~= children.update(
                                i as int,
                                children[i as int].inserted(cut_child@),
                            ));
                        }
                        return true;
                    }
                    assert(self.branches@ =~= siblings);
                    proof {
                        Trie::lemma_child_for(children, cut_child@);
                    }
                    i += 1;
                }
                self.branches.push(TrieNode::with_key(cut_child));
                proof {
                    Trie::lemma_child_for(children, cut_child@);
                    self.lemma_view();
                    assert(self@.children =~= children.push(Trie::leaf(cut_child@)));
                }
                true
            },
            Cut::BothBegin => false,
            Cut::BothMiddle(p) => {
                proof {
                    lemma_common_len(self@.label, new_key@, p as int);
                }
                let cut_child = slice_subrange(new_key, p, new_key.len());
                self.split(p);
                proof {
                    self.lemma_view();
                }
                self.branches.push(TrieNode::with_key(cut_child));
                assert(self@.children =~= seq![
                    old(self)@.lower(p as int),
                    Trie::leaf(new_key@.skip(p as int)),
                ]);
                true
            },
            Cut::BothEnd => true,
        }
    }

    /// Whether the labels along some path from this node down to a node
    /// spell `key`.
    pub fn contains(&self, key: &[u8]) -> (found: bool)
        ensures
            found == self@.has_path(key@),
        decreases self,
    {
        let cut = self.cut_key(key);
        proof {
            self.lemma_view();
        }
        match cut {
            Cut::Parent(_) => false,
            Cut::Child(idx) => {
                let rest = slice_subrange(key, idx, key.len());
                let mut i: usize = 0;
                while i < self.branches.len()
                    invariant
                        i <= self.branches@.len(),
                        self@.label.is_prefix_of(key@),
                        rest@ == key@.skip(self@.label.len() as int),
                        forall|j: int|
                            0 <= j < i ==> !(#[trigger] self.branches@[j])@.has_path(rest@),
                    decreases self.branches@.len() - i,
                {
                    if self.branches[i].contains(rest) {
                        proof {
                            self.lemma_view();
                            assert(self@.children[i as int].has_path(rest@));
                        }
                        return true;
                    }
                    i += 1;
                }
                false
            },
            Cut::BothBegin => false,
            Cut::BothMiddle(_) => false,
            Cut::BothEnd => true,
        }
    }

    /// The cut of this node's label against `key`.
    fn cut_key(&self, key: &[u8]) -> (cut: Cut)
        ensures
            describes(cut, self@.label, key@),
            cut == classify(self@.label, key@),
    {
        cut_key(self.prefix.as_slice(), key)
    }

    /// Whether this tree and `other` have the same shape: equal labels, and
    /// children of the same shapes in the same order.
    fn same_shape(&self, other: &TrieNode) -> (same: bool)
        ensures
            same == (self@ == other@),
        decreases self,
    {
        proof {
            self.lemma_view();
            other.lemma_view();
        }
        if self.branches.len() != other.branches.len() {
            return false;
        }
        match self.cut_key(other.prefix.as_slice()) {
            Cut::BothEnd => {},
            _ => {
                return false;
            },
        }
        let mut i: usize = 0;
        while i < self.branches.len()
            invariant
                i <= self.branches@.len(),
                self.branches@.len() == other.branches@.len(),
                forall|j: int| 0 <= j < i ==> (#[trigger] self.branches@[j])@ == other.branches@[j]@,
            decreases self.branches@.len() - i,
        {
            if !self.branches[i].same_shape(&other.branches[i]) {
                proof {
                    self.lemma_view();
                    other.lemma_view();
                }
                return false;
            }
            i += 1;
        }
        assert(self@.children =~= other@.children);
        true
    }
}

impl PartialEq for TrieNode {
    /// Structural equality: the two trees have the same shape.
    fn eq(&self, other: &TrieNode) -> (same: bool) {
        self.same_shape(other)
    }
}

impl vstd::std_specs::cmp::PartialEqSpecImpl for TrieNode {
    open spec fn obeys_eq_spec() -> bool {
        true
    }

    open spec fn eq_spec(&self, other: &TrieNode) -> bool {
        self@ == other@
    }
}

} // verus!
