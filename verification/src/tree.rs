//! The radix tree as a mathematical value, and what its operations compute.

use vstd::prelude::*;
use vstd::std_specs::cmp::PartialEqSpec;
use crate::cut::{classify, common_len, Cut};

verus! {

/// A node of a radix tree with everything below it: the value that the key
/// ending here maps to, the label that the node adds to every key passing
/// through it, and the children in their order.
#[verifier::ext_equal]
pub struct Tree<T> {
    pub value: Option<T>,
    pub label: Seq<u8>,
    pub children: Seq<Tree<T>>,
}

impl<T> Tree<T> {
    /// The tree that maps nothing: a root without label, value and children.
    pub open spec fn empty() -> Tree<T> {
        Tree { value: None, label: Seq::empty(), children: Seq::empty() }
    }

    /// A node without children that holds `value`.
    pub open spec fn leaf(label: Seq<u8>, value: T) -> Tree<T> {
        Tree { value: Some(value), label, children: Seq::empty() }
    }

    /// The node that carries what is left of this node below a split at `at`:
    /// the value, the rest of the label, and all the children.
    pub open spec fn lower(self, at: int) -> Tree<T> {
        Tree { value: self.value, label: self.label.skip(at), children: self.children }
    }

    /// This node with another value, or none.
    pub open spec fn with_value(self, value: Option<T>) -> Tree<T> {
        Tree { value, label: self.label, children: self.children }
    }

    /// Whether a key routed to this node's parent may belong below this node:
    /// it does unless label and key are both non-empty and start with
    /// different bytes.
    pub open spec fn accepts(self, key: Seq<u8>) -> bool {
        classify(self.label, key) != Cut::BothBegin
    }

    /// The index of the first of `children` that accepts `key`, if there is one.
    pub open spec fn child_for(children: Seq<Tree<T>>, key: Seq<u8>) -> Option<int>
        decreases children.len(),
    {
        if children.len() == 0 {
            None
        } else {
            match Self::child_for(children.drop_last(), key) {
                Some(i) => Some(i),
                None => if children.last().accepts(key) {
                    Some(children.len() - 1)
                } else {
                    None
                },
            }
        }
    }

    /// `child_for` gives the least index of an accepting child.
    pub proof fn lemma_child_for(children: Seq<Tree<T>>, key: Seq<u8>)
        ensures
            match Self::child_for(children, key) {
                Some(i) => 0 <= i < children.len() && children[i].accepts(key) && forall|j: int|
                    0 <= j < i ==> !(#[trigger] children[j]).accepts(key),
                None => forall|j: int|
                    0 <= j < children.len() ==> !(#[trigger] children[j]).accepts(key),
            },
        decreases children.len(),
    {
        if children.len() > 0 {
            let front = children.drop_last();
            Self::lemma_child_for(front, key);
            match Self::child_for(front, key) {
                Some(i) => {
                    assert(children[i] == front[i]);
                    assert forall|j: int| 0 <= j < i implies !(#[trigger] children[j]).accepts(
                        key,
                    ) by {
                        assert(children[j] == front[j]);
                    }
                },
                None => {
                    assert forall|j: int| 0 <= j < children.len() - 1 implies !(
                    #[trigger] children[j]).accepts(key) by {
                        assert(children[j] == front[j]);
                    }
                },
            }
        }
    }

    /// The node at which `key` ends, if the labels from this node down to it
    /// spell `key`.
    pub open spec fn node_at(self, key: Seq<u8>) -> Option<Tree<T>>
        decreases self,
    {
        match classify(self.label, key) {
            Cut::Child(_) => {
                let rest = key.skip(self.label.len() as int);
                match Self::child_for(self.children, rest) {
                    Some(i) => {
                        proof {
                            Self::lemma_child_for(self.children, rest);
                        }
                        self.children[i].node_at(rest)
                    },
                    None => None,
                }
            },
            Cut::BothEnd => Some(self),
            _ => None,
        }
    }

    /// The value that `key` maps to below this node, if it maps to one.
    pub open spec fn lookup(self, key: Seq<u8>) -> Option<T> {
        match self.node_at(key) {
            Some(node) => node.value,
            None => None,
        }
    }

    /// All that the tree maps.
    pub open spec fn entries(self) -> Map<Seq<u8>, T> {
        Map::new(|key: Seq<u8>| self.lookup(key) is Some, |key: Seq<u8>| self.lookup(key)->0)
    }

    /// Whether the labels along some path from this node down to a node
    /// spell `key`, and that node holds `value`.
    pub open spec fn spells(self, key: Seq<u8>, value: T) -> bool
        decreases self,
    {
        (key == self.label && self.value == Some(value)) || (self.label.is_prefix_of(key)
            && exists|i: int|
            0 <= i < self.children.len() && (#[trigger] self.children[i]).spells(
                key.skip(self.label.len() as int),
                value,
            ))
    }

    /// The tree after `key` has been given `value` at this node. A node that
    /// does not accept the key is left as it is.
    pub open spec fn inserted(self, key: Seq<u8>, value: T) -> Tree<T>
        decreases self,
    {
        match classify(self.label, key) {
            Cut::Parent(_) => Tree {
                value: Some(value),
                label: key,
                children: seq![self.lower(key.len() as int)],
            },
            Cut::Child(_) => {
                let rest = key.skip(self.label.len() as int);
                match Self::child_for(self.children, rest) {
                    Some(i) => {
                        proof {
                            Self::lemma_child_for(self.children, rest);
                        }
                        Tree {
                            value: self.value,
                            label: self.label,
                            children: self.children.update(
                                i,
                                self.children[i].inserted(rest, value),
                            ),
                        }
                    },
                    None => Tree {
                        value: self.value,
                        label: self.label,
                        children: self.children.push(Self::leaf(rest, value)),
                    },
                }
            },
            Cut::BothBegin => self,
            Cut::BothMiddle(_) => {
                let m = common_len(self.label, key) as int;
                Tree {
                    value: None,
                    label: self.label.take(m),
                    children: seq![self.lower(m), Self::leaf(key.skip(m), value)],
                }
            },
            Cut::BothEnd => Tree { value: Some(value), label: self.label, children: self.children },
        }
    }

    /// What removing `key` below this node finds: the value that the key
    /// mapped to, and whether this node is left without value and children
    /// by a removal that ended at it.
    pub open spec fn removal(self, key: Seq<u8>) -> Option<(T, bool)>
        decreases self,
    {
        match classify(self.label, key) {
            Cut::Child(_) => {
                let rest = key.skip(self.label.len() as int);
                match Self::child_for(self.children, rest) {
                    Some(i) => {
                        proof {
                            Self::lemma_child_for(self.children, rest);
                        }
                        match self.children[i].removal(rest) {
                            Some((value, _)) => Some((value, false)),
                            None => None,
                        }
                    },
                    None => None,
                }
            },
            Cut::BothEnd => match self.value {
                Some(value) => Some((value, self.children.len() == 0)),
                None => None,
            },
            _ => None,
        }
    }

    /// The tree after `key` has been removed below this node. A child that its
    /// own removal left without value and children is taken out of the
    /// children, and the last child takes its place.
    pub open spec fn removed(self, key: Seq<u8>) -> Tree<T>
        decreases self,
    {
        match classify(self.label, key) {
            Cut::Child(_) => {
                let rest = key.skip(self.label.len() as int);
                match Self::child_for(self.children, rest) {
                    Some(i) => {
                        proof {
                            Self::lemma_child_for(self.children, rest);
                        }
                        match self.children[i].removal(rest) {
                            Some((_, true)) => Tree {
                                value: self.value,
                                label: self.label,
                                children: self.children.update(i, self.children.last()).drop_last(),
                            },
                            _ => Tree {
                                value: self.value,
                                label: self.label,
                                children: self.children.update(i, self.children[i].removed(rest)),
                            },
                        }
                    },
                    None => self,
                }
            },
            Cut::BothEnd => self.with_value(None),
            _ => self,
        }
    }

    /// This tree with the node at which `key` ends replaced by `node`. A tree
    /// in which `key` ends at no node is left as it is.
    pub open spec fn with_node_at(self, key: Seq<u8>, node: Tree<T>) -> Tree<T>
        decreases self,
    {
        match classify(self.label, key) {
            Cut::Child(_) => {
                let rest = key.skip(self.label.len() as int);
                match Self::child_for(self.children, rest) {
                    Some(i) => {
                        proof {
                            Self::lemma_child_for(self.children, rest);
                        }
                        Tree {
                            value: self.value,
                            label: self.label,
                            children: self.children.update(
                                i,
                                self.children[i].with_node_at(rest, node),
                            ),
                        }
                    },
                    None => self,
                }
            },
            Cut::BothEnd => node,
            _ => self,
        }
    }

    /// This tree with `value` in place of the value that `key` maps to. A
    /// tree in which `key` ends at no node is left as it is.
    pub open spec fn with_value_at(self, key: Seq<u8>, value: T) -> Tree<T> {
        match self.node_at(key) {
            Some(node) => self.with_node_at(key, node.with_value(Some(value))),
            None => self,
        }
    }

    /// Whether the child indices in `steps` lead from this node down to a
    /// node. The steps are taken from the end of the sequence on.
    pub open spec fn leads(self, steps: Seq<usize>) -> bool
        decreases steps.len(),
    {
        steps.len() == 0 || (steps.last() < self.children.len()
            && self.children[steps.last() as int].leads(steps.drop_last()))
    }

    /// The node that the child indices in `steps` lead to from this node.
    pub open spec fn node_along(self, steps: Seq<usize>) -> Tree<T>
        decreases steps.len(),
    {
        if steps.len() == 0 {
            self
        } else {
            self.children[steps.last() as int].node_along(steps.drop_last())
        }
    }

    /// This tree with the node that the child indices in `steps` lead to
    /// replaced by `node`.
    pub open spec fn with_node_along(self, steps: Seq<usize>, node: Tree<T>) -> Tree<T>
        decreases steps.len(),
    {
        if steps.len() == 0 {
            node
        } else {
            Tree {
                value: self.value,
                label: self.label,
                children: self.children.update(
                    steps.last() as int,
                    self.children[steps.last() as int].with_node_along(steps.drop_last(), node),
                ),
            }
        }
    }

    /// Putting back the node that `steps` lead to changes nothing.
    pub proof fn lemma_with_node_along_same(self, steps: Seq<usize>)
        requires
            self.leads(steps),
        ensures
            self.with_node_along(steps, self.node_along(steps)) == self,
        decreases steps.len(),
    {
        if steps.len() > 0 {
            let i = steps.last() as int;
            self.children[i].lemma_with_node_along_same(steps.drop_last());
            assert(self.children.update(i, self.children[i]) =~= self.children);
        }
    }

    /// The radix property below this node: every child has a label, no two
    /// children of one node have labels that start with the same byte, and
    /// the same holds below each child.
    pub open spec fn well_branched(self) -> bool
        decreases self,
    {
        &&& forall|i: int|
            0 <= i < self.children.len() ==> (#[trigger] self.children[i]).label.len() > 0
                && self.children[i].well_branched()
        &&& forall|i: int, j: int|
            0 <= i < j < self.children.len() ==> (#[trigger] self.children[i]).label[0] != (
            #[trigger] self.children[j]).label[0]
    }

    /// What holds of a whole tree: the root has no label, and the radix
    /// property holds below it.
    pub open spec fn well_formed(self) -> bool {
        self.label.len() == 0 && self.well_branched()
    }

    /// Whether this node holds a value or has children.
    pub open spec fn live(self) -> bool {
        self.value is Some || self.children.len() > 0
    }

    /// Whether every node below this one holds a value or has children.
    pub open spec fn pruned(self) -> bool
        decreases self,
    {
        forall|i: int|
            0 <= i < self.children.len() ==> (#[trigger] self.children[i]).live()
                && self.children[i].pruned()
    }

    /// Whether removing `key` below this node leaves the node itself without
    /// value and children although the removal does not end at it, so that
    /// its parent is not told to take it out.
    pub open spec fn emptied_by(self, key: Seq<u8>) -> bool {
        &&& classify(self.label, key) is Child
        &&& self.removal(key) is Some
        &&& !self.removed(key).live()
    }

    /// Whether removing `key` below this node leaves some node below it
    /// without value and children.
    pub open spec fn strands(self, key: Seq<u8>) -> bool
        decreases self,
    {
        match classify(self.label, key) {
            Cut::Child(_) => {
                let rest = key.skip(self.label.len() as int);
                match Self::child_for(self.children, rest) {
                    Some(i) => {
                        proof {
                            Self::lemma_child_for(self.children, rest);
                        }
                        self.children[i].emptied_by(rest) || self.children[i].strands(rest)
                    },
                    None => false,
                }
            },
            _ => false,
        }
    }
}

impl<T: PartialEq> Tree<T> {
    /// Whether this tree and `other` are equal node by node: the labels are
    /// equal, the values are both absent or equal as `==` on `T` has it, and
    /// the children are as many and equal in their order.
    pub open spec fn alike(self, other: Tree<T>) -> bool
        decreases self,
    {
        &&& self.value.eq_spec(&other.value)
        &&& self.label == other.label
        &&& self.children.len() == other.children.len()
        &&& forall|i: int|
            0 <= i < self.children.len() ==> (#[trigger] self.children[i]).alike(other.children[i])
    }
}

} // verus!
