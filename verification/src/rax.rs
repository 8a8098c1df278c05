//! The radix tree: byte-string keys mapped to values, with common prefixes
//! of the keys stored once.
//!
//! Insertion splits a node where a key ends inside its label or parts from
//! it. Removal merges nothing back: a node without value that is left with
//! one child stays as it is. A removal takes the leaf that held the key out
//! of its parent; a parent without value that loses its last child in this
//! way stays in the tree, without value and children, until an insertion
//! gives it one of them again.
//!
//! A tree is well formed at all times: its root has no label, every other
//! node has one, and the labels of the children of one node start with
//! different bytes. The type keeps this as its invariant, so no operation
//! asks anything of its caller.

use vstd::prelude::*;
use vstd::slice::{slice_subrange, slice_to_vec};
use vstd::std_specs::cmp::{PartialEqSpec, PartialEqSpecImpl};
use crate::cut::{classify, cut_key, describes, lemma_both_begin, lemma_common_len, Cut};
use crate::tree::Tree;

verus! {

/// A node of the radix tree, owning the nodes below it.
#[derive(Debug)]
struct RaxNode<T> {
    value: Option<T>,
    prefix: Vec<u8>,
    branches: Vec<RaxNode<T>>,
}

/// The trees that a sequence of nodes stands for.
spec fn trees_of<T>(nodes: Seq<RaxNode<T>>) -> Seq<Tree<T>>
    decreases nodes,
{
    Seq::new(
        nodes.len(),
        |i: int|
            if 0 <= i < nodes.len() {
                nodes[i].shape()
            } else {
                arbitrary()
            },
    )
}

impl<T> RaxNode<T> {
    spec fn shape(self) -> Tree<T>
        decreases self,
    {
        Tree { value: self.value, label: self.prefix@, children: trees_of(self.branches@) }
    }

    /// The view of a node holds the views of its children, in their order.
    proof fn lemma_view(self)
        ensures
            self@.value == self.value,
            self@.label == self.prefix@,
            self@.children.len() == self.branches@.len(),
            forall|i: int|
                0 <= i < self.branches@.len() ==> self@.children[i] == (
                #[trigger] self.branches@[i])@,
    {
    }
}

impl<T> View for RaxNode<T> {
    type V = Tree<T>;

    closed spec fn view(&self) -> Tree<T> {
        self.shape()
    }
}

impl<T> RaxNode<T> {
    /// A node without label, value and children.
    fn empty() -> (node: RaxNode<T>)
        ensures
            node@ == Tree::<T>::empty(),
    {
        let node = RaxNode { value: None, prefix: Vec::new(), branches: Vec::new() };
        assert(node@.children =~= Seq::empty());
        node
    }

    /// A node without children, labelled `key` and holding `value`.
    fn leaf(key: &[u8], value: T) -> (node: RaxNode<T>)
        ensures
            node@ == Tree::leaf(key@, value),
    {
        let node = RaxNode { value: Some(value), prefix: slice_to_vec(key), branches: Vec::new() };
        assert(node@.children =~= Seq::empty());
        node
    }

    /// The cut of this node's label against `key`.
    fn cut_key(&self, key: &[u8]) -> (cut: Cut)
        ensures
            describes(cut, self@.label, key@),
            cut == classify(self@.label, key@),
    {
        cut_key(self.prefix.as_slice(), key)
    }

    /// Whether this node accepts `key`, which the first bytes of label and
    /// key decide.
    fn accepts(&self, key: &[u8]) -> (accepted: bool)
        ensures
            accepted == self@.accepts(key@),
    {
        proof {
            lemma_both_begin(self.prefix@, key@);
        }
        self.prefix.len() == 0 || key.len() == 0 || self.prefix[0] == key[0]
    }

    /// The index of the first child that accepts `key`.
    fn child_for(&self, key: &[u8]) -> (found: Option<usize>)
        ensures
            match found {
                Some(i) => i < self@.children.len() && self@.children[i as int].accepts(key@)
                    && Tree::child_for(self@.children, key@) == Some(i as int),
                None => Tree::child_for(self@.children, key@) is None,
            },
    {
        let mut i: usize = 0;
        while i < self.branches.len()
            invariant
                i <= self.branches@.len(),
                forall|j: int| 0 <= j < i ==> !(#[trigger] self@.children[j]).accepts(key@),
            decreases self.branches@.len() - i,
        {
            assert(self@.children[i as int] == self.branches@[i as int]@);
            if self.branches[i].accepts(key) {
                proof {
                    Tree::lemma_child_for(self@.children, key@);
                }
                return Some(i);
            }
            i += 1;
        }
        proof {
            Tree::lemma_child_for(self@.children, key@);
        }
        None
    }

    /// Splits the node at `at`: what it holds moves into a new node that
    /// carries the rest of the label and becomes the only child.
    fn split(&mut self, at: usize)
        requires
            at <= old(self)@.label.len(),
        ensures
            final(self)@ == (Tree {
                value: None,
                label: old(self)@.label.take(at as int),
                children: seq![old(self)@.lower(at as int)],
            }),
    {
        let lower_prefix = self.prefix.split_off(at);
        let mut lower_branches: Vec<RaxNode<T>> = Vec::new();
        std::mem::swap(&mut lower_branches, &mut self.branches);
        let lower = RaxNode {
            value: self.value.take(),
            prefix: lower_prefix,
            branches: lower_branches,
        };
        assert(lower@ =~= old(self)@.lower(at as int));
        self.branches.push(lower);
        assert(self@.children =~= seq![old(self)@.lower(at as int)]);
    }

    /// Gives `key` the value `value` below this node, splitting the node or
    /// descending as the cut of its label against the key asks. A node that
    /// does not accept the key hands the value back and stays as it is.
    fn insert_node(&mut self, key: &[u8], value: T) -> (rejected: Option<T>)
        ensures
            final(self)@ == old(self)@.inserted(key@, value),
            rejected == if old(self)@.accepts(key@) {
                None
            } else {
                Some(value)
            },
        decreases *old(self),
    {
        let cut = self.cut_key(key);
        match cut {
            Cut::Parent(p) => {
                self.split(p);
                self.value = Some(value);
                None
            },
            Cut::Child(c) => {
                let rest = slice_subrange(key, c, key.len());
                match self.child_for(rest) {
                    Some(i) => {
                        let ghost children = self@.children;
                        assert(children[i as int] == self.branches@[i as int]@);
                        let rejected = self.branches[i].insert_node(rest, value);
                        assert(self@.children =~= children.update(
                            i as int,
                            children[i as int].inserted(rest@, value),
                        ));
                        rejected
                    },
                    None => {
                        let ghost children = self@.children;
                        self.branches.push(RaxNode::leaf(rest, value));
                        assert(self@.children =~= children.push(Tree::leaf(rest@, value)));
                        None
                    },
                }
            },
            Cut::BothBegin => Some(value),
            Cut::BothMiddle(m) => {
                proof {
                    lemma_common_len(self@.label, key@, m as int);
                }
                let rest = slice_subrange(key, m, key.len());
                self.split(m);
                proof {
                    self.lemma_view();
                }
                self.branches.push(RaxNode::leaf(rest, value));
                assert(self@.children =~= seq![
                    old(self)@.lower(m as int),
                    Tree::leaf(key@.skip(m as int), value),
                ]);
                None
            },
            Cut::BothEnd => {
                self.value = Some(value);
                None
            },
        }
    }

    /// Removes `key` below this node. Gives the value that it mapped to, and
    /// whether the removal ended at this node and left it without value and
    /// children, so that its parent can take it out.
    fn remove_node(&mut self, key: &[u8]) -> (found: Option<(T, bool)>)
        ensures
            found == old(self)@.removal(key@),
            final(self)@ == old(self)@.removed(key@),
        decreases *old(self),
    {
        let cut = self.cut_key(key);
        match cut {
            Cut::Parent(_) => None,
            Cut::Child(c) => {
                let rest = slice_subrange(key, c, key.len());
                match self.child_for(rest) {
                    Some(i) => {
                        let ghost children = self@.children;
                        assert(children[i as int] == self.branches@[i as int]@);
                        assert(children.last() == self.branches@.last()@);
                        match self.branches[i].remove_node(rest) {
                            Some((value, should_delete)) => {
                                if should_delete {
                                    self.branches.swap_remove(i);
                                    assert(self@.children =~= children.update(
                                        i as int,
                                        children.last(),
                                    ).drop_last());
                                } else {
                                    assert(self@.children =~= children.update(
                                        i as int,
                                        children[i as int].removed(rest@),
                                    ));
                                }
                                Some((value, false))
                            },
                            None => {
                                assert(self@.children =~= children.update(
                                    i as int,
                                    children[i as int].removed(rest@),
                                ));
                                None
                            },
                        }
                    },
                    None => None,
                }
            },
            Cut::BothBegin => None,
            Cut::BothMiddle(_) => None,
            Cut::BothEnd => match self.value.take() {
                Some(value) => Some((value, self.branches.is_empty())),
                None => None,
            },
        }
    }

    /// The node at which `key` ends.
    fn find_node(&self, key: &[u8]) -> (found: Option<&RaxNode<T>>)
        ensures
            match found {
                Some(node) => self@.node_at(key@) == Some(node@),
                None => self@.node_at(key@) is None,
            },
        decreases self,
    {
        let cut = self.cut_key(key);
        match cut {
            Cut::Parent(_) => None,
            Cut::Child(c) => {
                let child_key = slice_subrange(key, c, key.len());
                match self.child_for(child_key) {
                    Some(i) => {
                        assert(self@.children[i as int] == self.branches@[i as int]@);
                        self.branches[i].find_node(child_key)
                    },
                    None => None,
                }
            },
            Cut::BothBegin => None,
            Cut::BothMiddle(_) => None,
            Cut::BothEnd => Some(self),
        }
    }

    /// The way to the node at which `key` ends: the indices of the children
    /// to go through, the last step first.
    fn path_to(&self, key: &[u8]) -> (found: Option<Vec<usize>>)
        ensures
            match found {
                Some(steps) => {
                    &&& self@.leads(steps@)
                    &&& self@.node_at(key@) == Some(self@.node_along(steps@))
                    &&& forall|node: Tree<T>|
                        self@.with_node_at(key@, node) == #[trigger] self@.with_node_along(
                            steps@,
                            node,
                        )
                },
                None => self@.node_at(key@) is None,
            },
        decreases self,
    {
        match self.cut_key(key) {
            Cut::Parent(_) => None,
            Cut::Child(c) => {
                let child_key = slice_subrange(key, c, key.len());
                match self.child_for(child_key) {
                    Some(i) => {
                        assert(self@.children[i as int] == self.branches@[i as int]@);
                        match self.branches[i].path_to(child_key) {
                            Some(mut steps) => {
                                let ghost below = steps@;
                                let ghost child = self@.children[i as int];
                                steps.push(i);
                                proof {
                                    assert(steps@.drop_last() =~= below);
                                    assert(steps@.last() == i);
                                    assert(self@.leads(steps@));
                                    assert(self@.node_along(steps@) == child.node_along(below));
                                    assert forall|node: Tree<T>|
                                        self@.with_node_at(key@, node)
                                            == #[trigger] self@.with_node_along(steps@, node) by {
                                        assert(child.with_node_at(child_key@, node)
                                            == child.with_node_along(below, node));
                                    }
                                }
                                Some(steps)
                            },
                            None => None,
                        }
                    },
                    None => None,
                }
            },
            Cut::BothBegin => None,
            Cut::BothMiddle(_) => None,
            Cut::BothEnd => Some(Vec::new()),
        }
    }

    /// The node that the first `depth` of `steps` lead to, for the caller to
    /// change. What the caller leaves there takes the node's place in the
    /// tree.
    fn find_node_mut(&mut self, steps: &Vec<usize>, depth: usize) -> (node: &mut RaxNode<T>)
        requires
            depth <= steps@.len(),
            old(self)@.leads(steps@.take(depth as int)),
        ensures
            node@ == old(self)@.node_along(steps@.take(depth as int)),
            final(self)@ == old(self)@.with_node_along(steps@.take(depth as int), final(node)@),
        decreases depth,
        no_unwind
    {
        if depth == 0 {
            self
        } else {
            let i = steps[depth - 1];
            let ghost children = self@.children;
            let ghost siblings = self.branches@;
            proof {
                self.lemma_view();
                assert(steps@.take(depth as int).drop_last() =~= steps@.take(depth as int - 1));
            }
            let child = &mut self.branches[i];
            let ghost child_after = *final(child);
            let node = child.find_node_mut(steps, depth - 1);
            assert(trees_of(siblings.update(i as int, child_after)) =~= children.update(
                i as int,
                child_after@,
            ));
            node
        }
    }

    /// The value of the node that `steps` lead to, for the caller to change.
    fn get_mut(&mut self, steps: &Vec<usize>) -> (found: Option<&mut T>)
        requires
            old(self)@.leads(steps@),
        ensures
            match found {
                Some(value) => old(self)@.node_along(steps@).value == Some(*value)
                    && final(self)@ == old(self)@.with_node_along(
                    steps@,
                    old(self)@.node_along(steps@).with_value(Some(*final(value))),
                ),
                None => old(self)@.node_along(steps@).value is None && final(self)@ == old(self)@,
            },
        no_unwind
    {
        proof {
            assert(steps@.take(steps@.len() as int) =~= steps@);
            old(self)@.lemma_with_node_along_same(steps@);
        }
        let node = self.find_node_mut(steps, steps.len());
        match &mut node.value {
            Some(value) => Some(value),
            None => None,
        }
    }

    /// The value that `key` maps to below this node.
    fn get(&self, key: &[u8]) -> (found: Option<&T>)
        ensures
            found == match self@.lookup(key@) {
                Some(value) => Some(&value),
                None => None,
            },
    {
        match self.find_node(key) {
            Some(node) => node.value.as_ref(),
            None => None,
        }
    }

    /// Whether `key` maps to a value below this node.
    fn contains(&self, key: &[u8]) -> (found: bool)
        ensures
            found == self@.lookup(key@) is Some,
    {
        self.get(key).is_some()
    }
}

impl<T: PartialEq> RaxNode<T> {
    /// Whether this node and `other` are equal with everything below them.
    fn same_as(&self, other: &RaxNode<T>) -> (same: bool)
        ensures
            T::obeys_eq_spec() ==> same == self@.alike(other@),
        decreases self,
    {
        proof {
            self.lemma_view();
            other.lemma_view();
        }
        if self.value != other.value || self.branches.len() != other.branches.len() {
            return false;
        }
        match self.cut_key(other.prefix.as_slice()) {
            Cut::BothEnd => {},
            _ => {
                return false;
            },
        }
        let mut i: usize = 0;
        while i < self.branches.len()
            invariant
                i <= self.branches@.len(),
                self.branches@.len() == other.branches@.len(),
                T::obeys_eq_spec() ==> forall|j: int|
                    0 <= j < i ==> (#[trigger] self.branches@[j])@.alike(other.branches@[j]@),
            decreases self.branches@.len() - i,
        {
            if !self.branches[i].same_as(&other.branches[i]) {
                proof {
                    self.lemma_view();
                    other.lemma_view();
                    assert(T::obeys_eq_spec() ==> !self@.children[i as int].alike(
                        other@.children[i as int],
                    ));
                }
                return false;
            }
            i += 1;
        }
        proof {
            self.lemma_view();
            other.lemma_view();
        }
        true
    }
}

/// A radix tree that maps byte strings to values of type `T`.
#[derive(Debug)]
pub struct Rax<T> {
    root: RaxNode<T>,
}

impl<T> Rax<T> {
    /// The tree as a mathematical value: its root with everything below.
    pub closed spec fn tree(self) -> Tree<T> {
        self.root@
    }

    /// What the type keeps of every tree: the root has no label, every other
    /// node has one, and the labels of the children of one node start with
    /// different bytes.
    #[verifier::type_invariant]
    pub open spec fn wf(self) -> bool {
        self.tree().well_formed()
    }

    /// Whether every node but the root holds a value or has children.
    pub open spec fn pruned(self) -> bool {
        self.tree().pruned()
    }
}

impl<T> View for Rax<T> {
    type V = Map<Seq<u8>, T>;

    /// The mapping that the tree stands for.
    open spec fn view(&self) -> Map<Seq<u8>, T> {
        self.tree().entries()
    }
}

impl<T> Default for Rax<T> {
    /// The empty tree.
    fn default() -> (rax: Rax<T>)
        ensures
            rax.tree() == Tree::<T>::empty(),
            rax.pruned(),
            rax@ == Map::<Seq<u8>, T>::empty(),
    {
        Rax::new()
    }
}

impl<T> Rax<T> {
    /// The empty tree: a root without value and children, which maps nothing.
    pub fn new() -> (rax: Rax<T>)
        ensures
            rax.tree() == Tree::<T>::empty(),
            rax.pruned(),
            rax@ == Map::<Seq<u8>, T>::empty(),
    {
        proof {
            Tree::<T>::lemma_empty_entries();
        }
        Rax { root: RaxNode::empty() }
    }

    /// Takes the root out of the tree, to be changed and put back, and
    /// leaves an empty node in its place.
    fn take_root(&mut self) -> (root: RaxNode<T>)
        ensures
            root@ == old(self).tree(),
            final(self).tree() == Tree::<T>::empty(),
    {
        proof {
            Tree::<T>::lemma_empty_entries();
        }
        let mut root = RaxNode::empty();
        std::mem::swap(&mut root, &mut self.root);
        root
    }

    /// Maps `key` to `value`, whether or not the key was mapped before.
    pub fn insert(&mut self, key: &[u8], value: T)
        ensures
            final(self)@ == old(self)@.insert(key@, value),
            final(self).tree() == old(self).tree().inserted(key@, value),
            old(self).pruned() ==> final(self).pruned(),
    {
        proof {
            use_type_invariant(&*self);
            crate::laws::law_insert(self.tree(), key@, value);
            if self.pruned() {
                crate::laws::law_insert_keeps_pruned(self.tree(), key@, value);
            }
        }
        let mut root = self.take_root();
        let _ = root.insert_node(key, value);
        self.root = root;
    }

    /// Whether `key` is mapped.
    pub fn contains(&self, key: &[u8]) -> (found: bool)
        ensures
            found == self@.contains_key(key@),
    {
        self.root.contains(key)
    }

    /// Unmaps `key` and gives the value that it was mapped to. A node that
    /// is left without value and children by a removal that ends at it is
    /// taken out of the tree; the node above it stays, even where it holds
    /// no value and this was its last child.
    pub fn remove(&mut self, key: &[u8]) -> (found: Option<T>)
        ensures
            final(self)@ == old(self)@.remove(key@),
            found == if old(self)@.contains_key(key@) {
                Some(old(self)@[key@])
            } else {
                None
            },
            final(self).tree() == old(self).tree().removed(key@),
            old(self).pruned() ==> (final(self).pruned() <==> !old(self).tree().strands(key@)),
    {
        proof {
            use_type_invariant(&*self);
            crate::laws::law_remove(self.tree(), key@);
            if self.pruned() {
                self.tree().lemma_removed_pruned(key@);
            }
        }
        let mut root = self.take_root();
        let found = root.remove_node(key);
        self.root = root;
        match found {
            Some((value, _)) => Some(value),
            None => None,
        }
    }

    /// The value that `key` is mapped to.
    pub fn get(&self, key: &[u8]) -> (found: Option<&T>)
        ensures
            found == if self@.contains_key(key@) {
                Some(&self@[key@])
            } else {
                None
            },
    {
        self.root.get(key)
    }

    /// The value that `key` is mapped to, for the caller to change. What the
    /// caller leaves there is what `key` is mapped to afterwards. The way to
    /// the value is found first and then gone again for the reference.
    pub fn get_mut(&mut self, key: &[u8]) -> (found: Option<&mut T>)
        ensures
            match found {
                Some(value) => old(self)@.contains_key(key@) && *value == old(self)@[key@]
                    && final(self)@ == old(self)@.insert(key@, *final(value)) && final(self).tree()
                    == old(self).tree().with_value_at(key@, *final(value)),
                None => !old(self)@.contains_key(key@) && final(self).tree() == old(self).tree(),
            },
            old(self).pruned() ==> final(self).pruned(),
    {
        proof {
            use_type_invariant(&*self);
        }
        match self.root.path_to(key) {
            Some(steps) => {
                proof {
                    let tree = self.tree();
                    let node = tree.node_along(steps@);
                    assert forall|value: T|
                        #![trigger node.with_value(Some(value))]
                        tree.lookup(key@) is Some implies {
                        &&& tree.with_node_along(steps@, node.with_value(Some(value)))
                            == tree.with_value_at(key@, value)
                        &&& tree.with_value_at(key@, value).entries() == tree.entries().insert(
                            key@,
                            value,
                        )
                        &&& tree.with_value_at(key@, value).well_formed()
                        &&& tree.pruned() ==> tree.with_value_at(key@, value).pruned()
                    } by {
                        crate::laws::law_replace(tree, key@, value);
                    }
                }
                self.root.get_mut(&steps)
            },
            None => None,
        }
    }
}

impl<T: PartialEq> PartialEq for Rax<T> {
    /// Structural equality: the two trees are equal node by node.
    fn eq(&self, other: &Rax<T>) -> (same: bool) {
        self.root.same_as(&other.root)
    }
}

impl<T: PartialEq> PartialEqSpecImpl for Rax<T> {
    open spec fn obeys_eq_spec() -> bool {
        T::obeys_eq_spec()
    }

    open spec fn eq_spec(&self, other: &Rax<T>) -> bool {
        self.tree().alike(other.tree())
    }
}

} // verus!
