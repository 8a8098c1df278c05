//! What the operations on a radix tree do to the mapping that it stands for.

use vstd::prelude::*;
use crate::cut::{classify, lemma_both_begin, lemma_cut, lemma_take_skip, Cut};
use crate::tree::Tree;

verus! {

/// Every key that the tree maps is spelt by the labels along a path from the
/// root to the node that holds its value, and the tree maps what its paths
/// spell.
pub proof fn law_lookup_spells<T>(tree: Tree<T>, key: Seq<u8>, value: T)
    requires
        tree.well_branched(),
    ensures
        tree.lookup(key) == Some(value) <==> tree.spells(key, value),
    decreases tree,
{
    lemma_cut(tree.label, key);
    let l = tree.label.len() as int;
    let rest = key.skip(l);
    if tree.lookup(key) == Some(value) {
        if classify(tree.label, key) is Child {
            assert(tree.label.is_prefix_of(key)) by {
                assert(key.subrange(0, l) == key.take(l));
            }
            Tree::lemma_child_for(tree.children, rest);
            let i = Tree::child_for(tree.children, rest)->0;
            law_lookup_spells(tree.children[i], rest, value);
        }
    }
    if tree.spells(key, value) && !(key == tree.label && tree.value == Some(value)) {
        let i = choose|i: int|
            0 <= i < tree.children.len() && (#[trigger] tree.children[i]).spells(rest, value);
        let child = tree.children[i];
        child.lemma_spells_prefix(rest, value);
        assert(rest.len() > 0 && child.label[0] == rest[0]) by {
            assert(child.label[0] == rest.subrange(0, child.label.len() as int)[0]);
        }
        assert(key != tree.label);
        assert(classify(tree.label, key) is Child);
        tree.lemma_child_for_radix(rest);
        law_lookup_spells(child, rest, value);
    }
}

/// Insertion changes one entry: every key but the inserted one maps to what
/// it mapped to before, and the tree stays well formed.
pub proof fn law_insert<T>(tree: Tree<T>, key: Seq<u8>, value: T)
    requires
        tree.well_formed(),
    ensures
        tree.inserted(key, value).well_formed(),
        tree.inserted(key, value).entries() == tree.entries().insert(key, value),
{
    tree.lemma_accepts(key);
    tree.lemma_inserted_entries(key, value);
    tree.lemma_inserted_well_branched(key, value);
    lemma_cut(tree.label, key);
}

/// Removal changes one entry: it gives the value that the key mapped to,
/// the key maps to nothing afterwards, every other key maps to what it
/// mapped to before, and the tree stays well formed.
pub proof fn law_remove<T>(tree: Tree<T>, key: Seq<u8>)
    requires
        tree.well_formed(),
    ensures
        tree.removed(key).well_formed(),
        tree.removed(key).entries() == tree.entries().remove(key),
        match tree.removal(key) {
            Some((value, _)) => tree.lookup(key) == Some(value),
            None => tree.lookup(key) is None,
        },
{
    tree.lemma_removal_lookup(key);
    tree.lemma_removed_entries(key);
    tree.lemma_removed_well_branched(key);
}

/// A value written in the place of the one that a key maps to replaces one
/// entry of what the tree maps, keeps the tree well formed, and leaves no
/// node without value and children.
pub proof fn law_replace<T>(tree: Tree<T>, key: Seq<u8>, value: T)
    requires
        tree.lookup(key) is Some,
    ensures
        tree.with_value_at(key, value).entries() == tree.entries().insert(key, value),
        tree.well_formed() ==> tree.with_value_at(key, value).well_formed(),
        tree.pruned() ==> tree.with_value_at(key, value).pruned(),
{
    tree.lemma_with_value_at_entries(key, value);
    tree.lemma_with_value(key, Some(value), key);
}

/// Read after write: in a tree whose root has no label, a key that has been
/// given a value maps to that value.
pub proof fn law_read_after_write<T>(tree: Tree<T>, key: Seq<u8>, value: T)
    requires
        tree.well_formed(),
    ensures
        tree.inserted(key, value).lookup(key) == Some(value),
        tree.inserted(key, value).entries().contains_key(key),
        tree.inserted(key, value).entries()[key] == value,
{
    tree.lemma_accepts(key);
    tree.lemma_inserted_lookup(key, value, key);
}

/// Overwrite: a key that is given a value twice maps to the second value,
/// and the tree is the one that the second insertion alone would have made,
/// so the key is held once.
pub proof fn law_overwrite<T>(tree: Tree<T>, key: Seq<u8>, first: T, second: T)
    requires
        tree.well_formed(),
    ensures
        tree.inserted(key, first).inserted(key, second).lookup(key) == Some(second),
        tree.inserted(key, first).inserted(key, second) == tree.inserted(key, second),
        tree.inserted(key, first).inserted(key, second).entries() == tree.entries().insert(
            key,
            second,
        ),
{
    tree.lemma_inserted_twice(key, first, second);
    law_read_after_write(tree, key, second);
    law_insert(tree, key, second);
}

/// Removing a key that maps to nothing finds nothing and leaves the tree,
/// and so what it maps, as it is.
pub proof fn law_remove_absent<T>(tree: Tree<T>, key: Seq<u8>)
    requires
        tree.lookup(key) is None,
    ensures
        tree.removal(key) is None,
        tree.removed(key) == tree,
        tree.removed(key).entries() == tree.entries(),
{
    tree.lemma_removed_absent(key);
}

/// Insert, then remove: a key that is given a value and then removed maps
/// to nothing, whatever the key is, the empty one too; the removal gives the
/// value back.
pub proof fn law_insert_then_remove<T>(tree: Tree<T>, key: Seq<u8>, value: T)
    requires
        tree.well_formed(),
    ensures
        tree.inserted(key, value).removal(key) matches Some((found, _)) && found == value,
        tree.inserted(key, value).removed(key).lookup(key) is None,
        !tree.inserted(key, value).removed(key).entries().contains_key(key),
        tree.inserted(key, value).removed(key).entries() == tree.entries().remove(key),
{
    let between = tree.inserted(key, value);
    law_read_after_write(tree, key, value);
    law_insert(tree, key, value);
    law_remove(between, key);
    between.lemma_removed_lookup(key, key);
    assert(tree.entries().insert(key, value).remove(key) =~= tree.entries().remove(key));
}

/// The pruning invariant under insertion: where every node but the root
/// holds a value or has children, the same holds after an insertion.
pub proof fn law_insert_keeps_pruned<T>(tree: Tree<T>, key: Seq<u8>, value: T)
    requires
        tree.well_formed(),
        tree.pruned(),
    ensures
        tree.inserted(key, value).pruned(),
{
    tree.lemma_accepts(key);
    tree.lemma_inserted_pruned(key, value);
}

/// The pruning invariant under removal: where every node but the root holds
/// a value or has children, the same holds after a removal that strands no
/// node.
pub proof fn law_remove_keeps_pruned<T>(tree: Tree<T>, key: Seq<u8>)
    requires
        tree.pruned(),
        !tree.strands(key),
    ensures
        tree.removed(key).pruned(),
{
    tree.lemma_removed_pruned(key);
}

/// A removal that strands a node leaves a node without value and children.
/// The stranded node is not the root and held no value; its only child was
/// the leaf that held the key. It loses the child and stays, because a
/// removal has a node taken out by its parent only where the removal ended
/// at the node itself.
pub proof fn law_remove_strands<T>(tree: Tree<T>, key: Seq<u8>)
    requires
        tree.pruned(),
        tree.strands(key),
    ensures
        !tree.removed(key).pruned(),
{
    tree.lemma_removed_pruned(key);
}

/// Insertion shortens a label or leaves it as it is.
pub proof fn law_insert_shortens_label<T>(tree: Tree<T>, key: Seq<u8>, value: T)
    ensures
        tree.inserted(key, value).label.is_prefix_of(tree.label),
{
    lemma_cut(tree.label, key);
    let label = tree.label;
    let after = tree.inserted(key, value).label;
    assert(label.subrange(0, label.len() as int) =~= label);
    assert(label.subrange(0, after.len() as int) == label.take(after.len() as int));
}

/// Removal changes no label.
pub proof fn law_remove_keeps_label<T>(tree: Tree<T>, key: Seq<u8>)
    ensures
        tree.removed(key).label == tree.label,
{
}

/// With a common beginning of length `n` taken off both, a label and a key
/// are cut in the same way where the label ends in the key.
proof fn lemma_cut_shift(label: Seq<u8>, key: Seq<u8>, n: int)
    requires
        0 <= n <= label.len(),
        n <= key.len(),
        label.take(n) == key.take(n),
    ensures
        classify(label.skip(n), key.skip(n)) is BothEnd <==> classify(label, key) is BothEnd,
        classify(label.skip(n), key.skip(n)) is Child <==> classify(label, key) is Child,
        label.len() <= key.len() ==> key.skip(n).skip(label.len() - n) == key.skip(
            label.len() as int,
        ),
{
    lemma_cut(label, key);
    lemma_cut(label.skip(n), key.skip(n));
    lemma_take_skip(label, key, n);
    let l = label.len() as int;
    if l <= key.len() {
        assert(key.skip(n).skip(l - n) =~= key.skip(l));
        assert(key.skip(n).take(l - n) == key.take(l).skip(n));
        assert(key.take(l).take(n) =~= key.take(n));
        lemma_take_skip(label, key.take(l), n);
        assert(label.skip(n).len() == l - n);
    }
}

impl<T> Tree<T> {
    /// The empty tree maps nothing.
    pub proof fn lemma_empty_entries()
        ensures
            Self::empty().entries() == Map::<Seq<u8>, T>::empty(),
            Self::empty().well_formed(),
            Self::empty().pruned(),
    {
        assert forall|key: Seq<u8>| #[trigger] Self::empty().lookup(key) is None by {
            Self::empty().lemma_leaf_lookup(key);
        }
        assert(Self::empty().entries() =~= Map::<Seq<u8>, T>::empty());
    }

    /// Whether a node accepts a key shows in the first bytes of label and key.
    pub proof fn lemma_accepts(self, key: Seq<u8>)
        ensures
            self.accepts(key) <==> self.label.len() == 0 || key.len() == 0 || self.label[0]
                == key[0],
    {
        lemma_both_begin(self.label, key);
    }

    /// Children that accept the same keys route a key to the same index.
    pub proof fn lemma_child_for_alike(a: Seq<Tree<T>>, b: Seq<Tree<T>>, key: Seq<u8>)
        requires
            a.len() == b.len(),
            forall|i: int| 0 <= i < a.len() ==> (#[trigger] a[i]).accepts(key) == b[i].accepts(key),
        ensures
            Self::child_for(a, key) == Self::child_for(b, key),
    {
        Self::lemma_child_for(a, key);
        Self::lemma_child_for(b, key);
        match Self::child_for(a, key) {
            Some(i) => {
                assert(b[i].accepts(key));
                match Self::child_for(b, key) {
                    Some(j) => {
                        assert(a[j].accepts(key));
                    },
                    None => {},
                }
            },
            None => {
                match Self::child_for(b, key) {
                    Some(j) => {
                        assert(a[j].accepts(key));
                    },
                    None => {},
                }
            },
        }
    }

    /// Below a split, a key without its first `n` bytes finds what the whole
    /// key found above it.
    pub proof fn lemma_lookup_lower(self, key: Seq<u8>, n: int)
        requires
            0 <= n <= self.label.len(),
            n <= key.len(),
            self.label.take(n) == key.take(n),
        ensures
            self.lower(n).lookup(key.skip(n)) == self.lookup(key),
    {
        lemma_cut_shift(self.label, key, n);
    }

    /// Insertion of a non-empty key leaves the first byte of the label in
    /// place, so the node accepts what it accepted before.
    pub proof fn lemma_inserted_accepts(self, key: Seq<u8>, value: T, other: Seq<u8>)
        requires
            key.len() > 0,
        ensures
            self.inserted(key, value).accepts(other) == self.accepts(other),
            self.label.len() > 0 ==> self.inserted(key, value).label.len() > 0
                && self.inserted(key, value).label[0] == self.label[0],
    {
        lemma_cut(self.label, key);
        self.lemma_accepts(other);
        self.inserted(key, value).lemma_accepts(other);
        match classify(self.label, key) {
            Cut::Parent(_) => {
                assert(self.label[0] == self.label.take(key.len() as int)[0]);
            },
            _ => {},
        }
    }

    /// The rule of insertion where the key ends inside the label.
    proof fn lemma_inserted_lookup_parent(self, key: Seq<u8>, value: T, other: Seq<u8>)
        requires
            classify(self.label, key) is Parent,
        ensures
            self.inserted(key, value).lookup(other) == if other == key {
                Some(value)
            } else {
                self.lookup(other)
            },
    {
        let after = self.inserted(key, value);
        lemma_cut(self.label, key);
        lemma_cut(self.label, other);
        lemma_cut(key, other);
        let n = key.len() as int;
        let lower = self.lower(n);
        if classify(key, other) is Child {
            let rest = other.skip(n);
            Self::lemma_child_for(after.children, rest);
            lower.lemma_accepts(rest);
            assert(after.children[0] == lower);
            assert(lower.label[0] == self.label[n]);
            assert(rest[0] == other[n]);
            if lower.accepts(rest) {
                self.lemma_lookup_lower(other, n);
            } else {
                if self.label.len() <= other.len() {
                    assert(other.take(self.label.len() as int)[n] == other[n]);
                }
            }
        } else if classify(key, other) is BothEnd {
        } else {
            if self.label.len() <= other.len() && other.take(self.label.len() as int)
                == self.label {
                assert(other.take(n) =~= self.label.take(n));
            }
        }
    }

    /// The rule of insertion where label and key part ways inside both.
    proof fn lemma_inserted_lookup_middle(self, key: Seq<u8>, value: T, other: Seq<u8>)
        requires
            classify(self.label, key) is BothMiddle,
        ensures
            self.inserted(key, value).lookup(other) == if other == key {
                Some(value)
            } else {
                self.lookup(other)
            },
    {
        let after = self.inserted(key, value);
        lemma_cut(self.label, key);
        lemma_cut(self.label, other);
        lemma_cut(after.label, other);
        let m = crate::cut::common_len(self.label, key) as int;
        let lower = self.lower(m);
        let leaf = Self::leaf(key.skip(m), value);
        assert(self.label.take(m).len() == m);
        if classify(after.label, other) is Child {
            let rest = other.skip(m);
            assert(other.take(m) == self.label.take(m));
            Self::lemma_child_for(after.children, rest);
            lower.lemma_accepts(rest);
            leaf.lemma_accepts(rest);
            lemma_take_skip(key, other, m);
            assert(lower.label[0] == self.label[m]);
            assert(rest[0] == other[m]);
            assert(leaf.label[0] == key[m]);
            assert(after.children[0] == lower);
            assert(after.children[1] == leaf);
            if lower.accepts(rest) {
                self.lemma_lookup_lower(other, m);
            } else {
                if self.label.len() <= other.len() {
                    assert(other.take(self.label.len() as int)[m] == other[m]);
                }
                assert(self.lookup(other) is None);
                if leaf.accepts(rest) {
                    assert(Self::child_for(after.children, rest) == Some(1int));
                    leaf.lemma_leaf_lookup(rest);
                }
            }
        } else if classify(after.label, other) is BothEnd {
            assert(other.len() == m);
        } else {
            if self.label.len() <= other.len() && other.take(self.label.len() as int)
                == self.label {
                assert(other.take(m) =~= self.label.take(m));
            }
            if other == key {
                assert(key.take(m) == self.label.take(m));
            }
        }
    }

    /// A node without children maps its own label and nothing else.
    pub proof fn lemma_leaf_lookup(self, key: Seq<u8>)
        requires
            self.children.len() == 0,
        ensures
            self.lookup(key) == if key == self.label {
                self.value
            } else {
                None
            },
    {
        lemma_cut(self.label, key);
        if classify(self.label, key) is Child {
            assert(Self::child_for(self.children, key.skip(self.label.len() as int)) is None);
        }
    }

    /// The rule of insertion where the key goes on below the label and no
    /// child accepts what is left of it.
    proof fn lemma_inserted_lookup_grown(self, key: Seq<u8>, value: T, other: Seq<u8>)
        requires
            classify(self.label, key) is Child,
            Self::child_for(self.children, key.skip(self.label.len() as int)) is None,
        ensures
            self.inserted(key, value).lookup(other) == if other == key {
                Some(value)
            } else {
                self.lookup(other)
            },
    {
        let after = self.inserted(key, value);
        lemma_cut(self.label, key);
        lemma_cut(self.label, other);
        let l = self.label.len() as int;
        let rest_key = key.skip(l);
        if classify(self.label, other) is Child {
            let rest = other.skip(l);
            assert(self.label == other.take(l));
            lemma_take_skip(key, other, l);
            let leaf = Self::leaf(rest_key, value);
            assert(after.children.drop_last() =~= self.children);
            assert(after.children.last() == leaf);
            Self::lemma_child_for(self.children, rest);
            match Self::child_for(self.children, rest) {
                Some(j) => {
                    assert(after.children[j] == self.children[j]);
                },
                None => {
                    leaf.lemma_leaf_lookup(rest);
                    if !leaf.accepts(rest) {
                        assert(classify(rest_key, rest_key) is BothEnd);
                    }
                },
            }
        }
    }

    /// The rule of insertion where the key goes on below the label and a
    /// child takes what is left of it, given that the rule holds of the child.
    proof fn lemma_inserted_lookup_taken(self, key: Seq<u8>, value: T, other: Seq<u8>, i: int)
        requires
            classify(self.label, key) is Child,
            Self::child_for(self.children, key.skip(self.label.len() as int)) == Some(i),
            classify(self.label, other) is Child ==> self.children[i].inserted(
                key.skip(self.label.len() as int),
                value,
            ).lookup(other.skip(self.label.len() as int)) == if other.skip(
                self.label.len() as int,
            ) == key.skip(self.label.len() as int) {
                Some(value)
            } else {
                self.children[i].lookup(other.skip(self.label.len() as int))
            },
        ensures
            self.inserted(key, value).lookup(other) == if other == key {
                Some(value)
            } else {
                self.lookup(other)
            },
    {
        let after = self.inserted(key, value);
        lemma_cut(self.label, key);
        lemma_cut(self.label, other);
        let l = self.label.len() as int;
        let rest_key = key.skip(l);
        Self::lemma_child_for(self.children, rest_key);
        if classify(self.label, other) is Child {
            let rest = other.skip(l);
            assert(self.label == other.take(l));
            lemma_take_skip(key, other, l);
            let child = self.children[i];
            assert forall|j: int| 0 <= j < self.children.len() implies (
            #[trigger] after.children[j]).accepts(rest) == self.children[j].accepts(rest) by {
                if j == i {
                    child.lemma_inserted_accepts(rest_key, value, rest);
                }
            }
            Self::lemma_child_for_alike(after.children, self.children, rest);
            Self::lemma_child_for(self.children, rest);
            match Self::child_for(self.children, rest) {
                Some(j) => {
                    if j != i {
                        assert(after.children[j] == self.children[j]);
                    }
                },
                None => {},
            }
        }
    }

    /// After `key` has been given `value`, the key maps to the value, and
    /// every other key maps to what it mapped to before.
    pub proof fn lemma_inserted_lookup(self, key: Seq<u8>, value: T, other: Seq<u8>)
        requires
            self.accepts(key),
        ensures
            self.inserted(key, value).lookup(other) == if other == key {
                Some(value)
            } else {
                self.lookup(other)
            },
        decreases self,
    {
        match classify(self.label, key) {
            Cut::Parent(_) => {
                self.lemma_inserted_lookup_parent(key, value, other);
            },
            Cut::Child(_) => {
                let l = self.label.len() as int;
                let rest_key = key.skip(l);
                Self::lemma_child_for(self.children, rest_key);
                match Self::child_for(self.children, rest_key) {
                    Some(i) => {
                        self.children[i].lemma_inserted_lookup(rest_key, value, other.skip(l));
                        self.lemma_inserted_lookup_taken(key, value, other, i);
                    },
                    None => {
                        self.lemma_inserted_lookup_grown(key, value, other);
                    },
                }
            },
            Cut::BothBegin => {},
            Cut::BothMiddle(_) => {
                self.lemma_inserted_lookup_middle(key, value, other);
            },
            Cut::BothEnd => {
                lemma_cut(self.label, key);
                lemma_cut(self.label, other);
            },
        }
    }

    /// A removal reports the node as empty only where it ended at the node
    /// and the node has no children.
    pub proof fn lemma_removal_flag(self, key: Seq<u8>)
        ensures
            self.removal(key) matches Some((_, true)) ==> classify(self.label, key) is BothEnd
                && self.children.len() == 0 && self.label == key,
    {
        lemma_cut(self.label, key);
        if classify(self.label, key) is Child {
            Self::lemma_child_for(self.children, key.skip(self.label.len() as int));
        }
    }

    /// Removal finds the value that the key maps to.
    pub proof fn lemma_removal_lookup(self, key: Seq<u8>)
        ensures
            match self.removal(key) {
                Some((value, _)) => self.lookup(key) == Some(value),
                None => self.lookup(key) is None,
            },
        decreases self,
    {
        if classify(self.label, key) is Child {
            let rest = key.skip(self.label.len() as int);
            Self::lemma_child_for(self.children, rest);
            match Self::child_for(self.children, rest) {
                Some(i) => {
                    self.children[i].lemma_removal_lookup(rest);
                },
                None => {},
            }
        }
    }

    /// Removing a key that maps to nothing leaves the tree as it is.
    pub proof fn lemma_removed_absent(self, key: Seq<u8>)
        requires
            self.lookup(key) is None,
        ensures
            self.removal(key) is None,
            self.removed(key) == self,
        decreases self,
    {
        self.lemma_removal_lookup(key);
        if classify(self.label, key) is Child {
            let rest = key.skip(self.label.len() as int);
            Self::lemma_child_for(self.children, rest);
            match Self::child_for(self.children, rest) {
                Some(i) => {
                    self.children[i].lemma_removal_lookup(rest);
                    self.children[i].lemma_removed_absent(rest);
                    assert(self.children.update(i, self.children[i]) =~= self.children);
                },
                None => {},
            }
        }
    }

    /// Under the radix property, a key that is not empty is routed to the
    /// child whose label starts with the key's first byte.
    pub proof fn lemma_child_for_radix(self, key: Seq<u8>)
        requires
            self.well_branched(),
            key.len() > 0,
        ensures
            match Self::child_for(self.children, key) {
                Some(i) => 0 <= i < self.children.len() && self.children[i].label[0] == key[0]
                    && forall|j: int|
                    0 <= j < self.children.len() && j != i ==> (#[trigger] self.children[j]).label[0]
                        != key[0],
                None => forall|j: int|
                    0 <= j < self.children.len() ==> (#[trigger] self.children[j]).label[0]
                        != key[0],
            },
    {
        Self::lemma_child_for(self.children, key);
        assert forall|j: int| 0 <= j < self.children.len() implies (
        #[trigger] self.children[j]).accepts(key) == (self.children[j].label[0] == key[0]) by {
            self.children[j].lemma_accepts(key);
        }
        match Self::child_for(self.children, key) {
            Some(i) => {
                assert forall|j: int| 0 <= j < self.children.len() && j != i implies (
                #[trigger] self.children[j]).label[0] != key[0] by {
                    if j < i {
                        assert(!self.children[j].accepts(key));
                    } else {
                        assert(self.children[i].label[0] != self.children[j].label[0]);
                    }
                }
            },
            None => {
                assert forall|j: int| 0 <= j < self.children.len() implies (
                #[trigger] self.children[j]).label[0] != key[0] by {
                    assert(!self.children[j].accepts(key));
                }
            },
        }
    }

    /// Removal keeps the radix property.
    pub proof fn lemma_removed_well_branched(self, key: Seq<u8>)
        requires
            self.well_branched(),
        ensures
            self.removed(key).well_branched(),
        decreases self,
    {
        let after = self.removed(key);
        if classify(self.label, key) is Child {
            let rest = key.skip(self.label.len() as int);
            Self::lemma_child_for(self.children, rest);
            match Self::child_for(self.children, rest) {
                Some(i) => {
                    let child = self.children[i];
                    child.lemma_removed_well_branched(rest);
                    let last = self.children.len() - 1;
                    match child.removal(rest) {
                        Some((_, true)) => {
                            assert forall|j: int| 0 <= j < after.children.len() implies (
                            #[trigger] after.children[j]).label.len() > 0
                                && after.children[j].well_branched() by {
                                if j == i {
                                    assert(after.children[j] == self.children[last]);
                                } else {
                                    assert(after.children[j] == self.children[j]);
                                }
                            }
                            assert forall|j1: int, j2: int|
                                0 <= j1 < j2 < after.children.len() implies (
                            #[trigger] after.children[j1]).label[0] != (
                            #[trigger] after.children[j2]).label[0] by {
                                let s1 = if j1 == i { last } else { j1 };
                                let s2 = if j2 == i { last } else { j2 };
                                assert(after.children[j1] == self.children[s1]);
                                assert(after.children[j2] == self.children[s2]);
                                if s1 < s2 {
                                    assert(self.children[s1].label[0] != self.children[s2].label[0]);
                                } else {
                                    assert(self.children[s2].label[0] != self.children[s1].label[0]);
                                }
                            }
                        },
                        _ => {
                            assert forall|j: int| 0 <= j < after.children.len() implies (
                            #[trigger] after.children[j]).label.len() > 0
                                && after.children[j].well_branched() by {
                                if j != i {
                                    assert(after.children[j] == self.children[j]);
                                }
                            }
                            assert forall|j1: int, j2: int|
                                0 <= j1 < j2 < after.children.len() implies (
                            #[trigger] after.children[j1]).label[0] != (
                            #[trigger] after.children[j2]).label[0] by {
                                assert(after.children[j1].label == self.children[j1].label);
                                assert(after.children[j2].label == self.children[j2].label);
                                assert(self.children[j1].label[0] != self.children[j2].label[0]);
                            }
                        },
                    }
                },
                None => {},
            }
        }
    }

    /// The rule of removal where a child keeps its place, given that the
    /// rule holds of the child.
    proof fn lemma_removed_lookup_kept(self, key: Seq<u8>, other: Seq<u8>, i: int)
        requires
            classify(self.label, key) is Child,
            Self::child_for(self.children, key.skip(self.label.len() as int)) == Some(i),
            !(self.children[i].removal(key.skip(self.label.len() as int)) matches Some((_, true))),
            classify(self.label, other) is Child ==> self.children[i].removed(
                key.skip(self.label.len() as int),
            ).lookup(other.skip(self.label.len() as int)) == if other.skip(
                self.label.len() as int,
            ) == key.skip(self.label.len() as int) {
                None
            } else {
                self.children[i].lookup(other.skip(self.label.len() as int))
            },
        ensures
            self.removed(key).lookup(other) == if other == key {
                None
            } else {
                self.lookup(other)
            },
    {
        let after = self.removed(key);
        lemma_cut(self.label, key);
        lemma_cut(self.label, other);
        let l = self.label.len() as int;
        let rest_key = key.skip(l);
        Self::lemma_child_for(self.children, rest_key);
        if classify(self.label, other) is Child {
            let rest = other.skip(l);
            assert(self.label == other.take(l));
            lemma_take_skip(key, other, l);
            assert forall|j: int| 0 <= j < self.children.len() implies (
            #[trigger] after.children[j]).accepts(rest) == self.children[j].accepts(rest) by {
                assert(after.children[j].label == self.children[j].label);
            }
            Self::lemma_child_for_alike(after.children, self.children, rest);
            Self::lemma_child_for(self.children, rest);
            match Self::child_for(self.children, rest) {
                Some(j) => {
                    if j != i {
                        assert(after.children[j] == self.children[j]);
                    }
                },
                None => {},
            }
        }
    }

    /// The rule of removal where the child at which the key ended is taken out.
    proof fn lemma_removed_lookup_excised(self, key: Seq<u8>, other: Seq<u8>, i: int)
        requires
            self.well_branched(),
            classify(self.label, key) is Child,
            Self::child_for(self.children, key.skip(self.label.len() as int)) == Some(i),
            self.children[i].removal(key.skip(self.label.len() as int)) matches Some((_, true)),
        ensures
            self.removed(key).lookup(other) == if other == key {
                None
            } else {
                self.lookup(other)
            },
    {
        let after = self.removed(key);
        lemma_cut(self.label, key);
        lemma_cut(self.label, other);
        let l = self.label.len() as int;
        let rest_key = key.skip(l);
        Self::lemma_child_for(self.children, rest_key);
        let child = self.children[i];
        child.lemma_removal_flag(rest_key);
        let last = self.children.len() - 1;
        if classify(self.label, other) is Child {
            let rest = other.skip(l);
            assert(self.label == other.take(l));
            lemma_take_skip(key, other, l);
            assert(after.well_branched()) by {
                self.lemma_removed_well_branched(key);
            }
            self.lemma_child_for_radix(rest);
            after.lemma_child_for_radix(rest);
            assert forall|j: int| 0 <= j < after.children.len() implies #[trigger] after.children[j]
                == self.children[if j == i {
                last
            } else {
                j
            }] by {}
            match Self::child_for(self.children, rest) {
                Some(j) => {
                    if j == i {
                        child.lemma_leaf_lookup(rest);
                        match Self::child_for(after.children, rest) {
                            Some(j2) => {
                                let s2 = if j2 == i { last } else { j2 };
                                assert(after.children[j2] == self.children[s2]);
                                assert(self.children[s2].label[0] != rest[0]);
                            },
                            None => {},
                        }
                    } else {
                        let j2 = if j == last { i } else { j };
                        assert(after.children[j2] == self.children[j]);
                        match Self::child_for(after.children, rest) {
                            Some(j3) => {
                                if j3 != j2 {
                                    assert(after.children[j2].label[0] != rest[0]);
                                }
                            },
                            None => {
                                assert(after.children[j2].label[0] != rest[0]);
                            },
                        }
                    }
                },
                None => {
                    match Self::child_for(after.children, rest) {
                        Some(j2) => {
                            let s2 = if j2 == i { last } else { j2 };
                            assert(after.children[j2] == self.children[s2]);
                            assert(self.children[s2].label[0] != rest[0]);
                        },
                        None => {},
                    }
                },
            }
        }
    }

    /// After `key` has been removed, the key maps to nothing, and every other
    /// key maps to what it mapped to before.
    pub proof fn lemma_removed_lookup(self, key: Seq<u8>, other: Seq<u8>)
        requires
            self.well_branched(),
        ensures
            self.removed(key).lookup(other) == if other == key {
                None
            } else {
                self.lookup(other)
            },
        decreases self,
    {
        match classify(self.label, key) {
            Cut::Child(_) => {
                let l = self.label.len() as int;
                let rest_key = key.skip(l);
                Self::lemma_child_for(self.children, rest_key);
                match Self::child_for(self.children, rest_key) {
                    Some(i) => {
                        match self.children[i].removal(rest_key) {
                            Some((_, true)) => {
                                self.lemma_removed_lookup_excised(key, other, i);
                            },
                            _ => {
                                self.children[i].lemma_removed_lookup(rest_key, other.skip(l));
                                self.lemma_removed_lookup_kept(key, other, i);
                            },
                        }
                    },
                    None => {
                        self.lemma_removal_lookup(key);
                    },
                }
            },
            Cut::BothEnd => {
                lemma_cut(self.label, key);
                lemma_cut(self.label, other);
            },
            _ => {
                self.lemma_removal_lookup(key);
            },
        }
    }

    /// Insertion keeps the radix property.
    pub proof fn lemma_inserted_well_branched(self, key: Seq<u8>, value: T)
        requires
            self.well_branched(),
        ensures
            self.inserted(key, value).well_branched(),
        decreases self,
    {
        let after = self.inserted(key, value);
        lemma_cut(self.label, key);
        match classify(self.label, key) {
            Cut::Parent(_) => {
                assert(after.children[0].well_branched());
            },
            Cut::Child(_) => {
                let rest = key.skip(self.label.len() as int);
                Self::lemma_child_for(self.children, rest);
                self.lemma_child_for_radix(rest);
                match Self::child_for(self.children, rest) {
                    Some(i) => {
                        let child = self.children[i];
                        child.lemma_inserted_well_branched(rest, value);
                        child.lemma_inserted_accepts(rest, value, rest);
                        assert forall|j: int| 0 <= j < after.children.len() implies (
                        #[trigger] after.children[j]).label.len() > 0
                            && after.children[j].well_branched() by {
                            if j != i {
                                assert(after.children[j] == self.children[j]);
                            }
                        }
                        assert forall|j1: int, j2: int|
                            0 <= j1 < j2 < after.children.len() implies (
                        #[trigger] after.children[j1]).label[0] != (
                        #[trigger] after.children[j2]).label[0] by {
                            assert(after.children[j1].label[0] == self.children[j1].label[0]);
                            assert(after.children[j2].label[0] == self.children[j2].label[0]);
                            assert(self.children[j1].label[0] != self.children[j2].label[0]);
                        }
                    },
                    None => {
                        let leaf = Self::leaf(rest, value);
                        assert(leaf.well_branched());
                        assert forall|j: int| 0 <= j < after.children.len() implies (
                        #[trigger] after.children[j]).label.len() > 0
                            && after.children[j].well_branched() by {
                            if j < self.children.len() {
                                assert(after.children[j] == self.children[j]);
                            } else {
                                assert(after.children[j] == leaf);
                            }
                        }
                        assert forall|j1: int, j2: int|
                            0 <= j1 < j2 < after.children.len() implies (
                        #[trigger] after.children[j1]).label[0] != (
                        #[trigger] after.children[j2]).label[0] by {
                            assert(after.children[j1] == self.children[j1]);
                            if j2 < self.children.len() {
                                assert(after.children[j2] == self.children[j2]);
                                assert(self.children[j1].label[0] != self.children[j2].label[0]);
                            } else {
                                assert(after.children[j2] == leaf);
                                assert(self.children[j1].label[0] != rest[0]);
                            }
                        }
                    },
                }
            },
            Cut::BothBegin => {},
            Cut::BothMiddle(_) => {
                let m = crate::cut::common_len(self.label, key) as int;
                assert(after.children[0] == self.lower(m));
                assert(after.children[1] == Self::leaf(key.skip(m), value));
                assert(after.children[0].well_branched());
                assert(after.children[1].well_branched());
                assert(after.children[0].label[0] == self.label[m]);
                assert(after.children[1].label[0] == key[m]);
            },
            Cut::BothEnd => {},
        }
    }

    /// Insertion leaves no node without value and children: where every node
    /// below this one holds a value or has children, and this node does so
    /// too or has no label, the same holds after an insertion, and this
    /// node then holds a value or has children.
    pub proof fn lemma_inserted_pruned(self, key: Seq<u8>, value: T)
        requires
            self.pruned(),
            self.live() || self.label.len() == 0,
            self.accepts(key),
        ensures
            self.inserted(key, value).pruned(),
            self.inserted(key, value).live(),
        decreases self,
    {
        let after = self.inserted(key, value);
        lemma_cut(self.label, key);
        match classify(self.label, key) {
            Cut::Parent(_) => {
                assert(after.children[0].pruned());
                assert(after.children[0].live());
            },
            Cut::Child(_) => {
                let rest = key.skip(self.label.len() as int);
                Self::lemma_child_for(self.children, rest);
                match Self::child_for(self.children, rest) {
                    Some(i) => {
                        self.children[i].lemma_inserted_pruned(rest, value);
                        assert forall|j: int| 0 <= j < after.children.len() implies (
                        #[trigger] after.children[j]).live() && after.children[j].pruned() by {
                            if j != i {
                                assert(after.children[j] == self.children[j]);
                            }
                        }
                    },
                    None => {
                        let leaf = Self::leaf(rest, value);
                        assert(leaf.pruned());
                        assert forall|j: int| 0 <= j < after.children.len() implies (
                        #[trigger] after.children[j]).live() && after.children[j].pruned() by {
                            if j < self.children.len() {
                                assert(after.children[j] == self.children[j]);
                            } else {
                                assert(after.children[j] == leaf);
                            }
                        }
                    },
                }
            },
            Cut::BothBegin => {},
            Cut::BothMiddle(_) => {
                let m = crate::cut::common_len(self.label, key) as int;
                assert(after.children[0] == self.lower(m));
                assert(after.children[1] == Self::leaf(key.skip(m), value));
                assert(after.children[0].pruned());
                assert(after.children[1].pruned());
            },
            Cut::BothEnd => {},
        }
    }

    /// Where every node below this one holds a value or has children, the
    /// same holds after a removal exactly if the removal strands no node.
    pub proof fn lemma_removed_pruned(self, key: Seq<u8>)
        requires
            self.pruned(),
        ensures
            self.removed(key).pruned() <==> !self.strands(key),
        decreases self,
    {
        let after = self.removed(key);
        if classify(self.label, key) is Child {
            let rest = key.skip(self.label.len() as int);
            Self::lemma_child_for(self.children, rest);
            match Self::child_for(self.children, rest) {
                Some(i) => {
                    let child = self.children[i];
                    child.lemma_removed_pruned(rest);
                    child.lemma_removal_flag(rest);
                    let last = self.children.len() - 1;
                    match child.removal(rest) {
                        Some((_, true)) => {
                            assert forall|j: int| 0 <= j < after.children.len() implies (
                            #[trigger] after.children[j]).live() && after.children[j].pruned() by {
                                if j == i {
                                    assert(after.children[j] == self.children[last]);
                                } else {
                                    assert(after.children[j] == self.children[j]);
                                }
                            }
                        },
                        Some((_, false)) => {
                            assert(after.children[i] == child.removed(rest));
                            if child.removed(rest).live() && child.removed(rest).pruned() {
                                assert forall|j: int| 0 <= j < after.children.len() implies (
                                #[trigger] after.children[j]).live()
                                    && after.children[j].pruned() by {
                                    if j != i {
                                        assert(after.children[j] == self.children[j]);
                                    }
                                }
                            }
                            lemma_cut(child.label, rest);
                        },
                        None => {
                            child.lemma_removal_lookup(rest);
                            child.lemma_removed_absent(rest);
                            assert(after.children =~= self.children);
                        },
                    }
                },
                None => {},
            }
        }
    }

    /// A node put in the place of the node at which `key` ends, with the
    /// same label and children, changes what `key` maps to and nothing else;
    /// it keeps the radix property, and where it holds a value it leaves no
    /// node without value and children.
    pub proof fn lemma_with_value(self, key: Seq<u8>, value: Option<T>, other: Seq<u8>)
        requires
            self.node_at(key) is Some,
        ensures
            self.with_node_at(key, self.node_at(key)->0.with_value(value)).lookup(other)
                == if other == key {
                value
            } else {
                self.lookup(other)
            },
            self.with_node_at(key, self.node_at(key)->0.with_value(value)).label == self.label,
            self.well_branched() ==> self.with_node_at(
                key,
                self.node_at(key)->0.with_value(value),
            ).well_branched(),
            self.pruned() && value is Some ==> self.with_node_at(
                key,
                self.node_at(key)->0.with_value(value),
            ).pruned(),
            value is Some ==> self.with_node_at(
                key,
                self.node_at(key)->0.with_value(value),
            ).live(),
        decreases self,
    {
        let node = self.node_at(key)->0;
        let after = self.with_node_at(key, node.with_value(value));
        lemma_cut(self.label, key);
        lemma_cut(self.label, other);
        match classify(self.label, key) {
            Cut::Child(_) => {
                let l = self.label.len() as int;
                let rest_key = key.skip(l);
                Self::lemma_child_for(self.children, rest_key);
                let i = Self::child_for(self.children, rest_key)->0;
                let child = self.children[i];
                child.lemma_with_value(rest_key, value, other.skip(l));
                assert forall|j: int| 0 <= j < self.children.len() implies (
                #[trigger] after.children[j]).label == self.children[j].label by {
                    if j != i {
                        assert(after.children[j] == self.children[j]);
                    }
                }
                if classify(self.label, other) is Child {
                    let rest = other.skip(l);
                    assert(self.label == other.take(l));
                    lemma_take_skip(key, other, l);
                    assert forall|j: int| 0 <= j < self.children.len() implies (
                    #[trigger] after.children[j]).accepts(rest) == self.children[j].accepts(
                        rest,
                    ) by {
                        assert(after.children[j].label == self.children[j].label);
                    }
                    Self::lemma_child_for_alike(after.children, self.children, rest);
                    Self::lemma_child_for(self.children, rest);
                    match Self::child_for(self.children, rest) {
                        Some(j) => {
                            if j != i {
                                assert(after.children[j] == self.children[j]);
                            }
                        },
                        None => {},
                    }
                }
                if self.well_branched() {
                    assert forall|j: int| 0 <= j < after.children.len() implies (
                    #[trigger] after.children[j]).label.len() > 0
                        && after.children[j].well_branched() by {
                        if j != i {
                            assert(after.children[j] == self.children[j]);
                        }
                    }
                    assert forall|j1: int, j2: int|
                        0 <= j1 < j2 < after.children.len() implies (
                    #[trigger] after.children[j1]).label[0] != (
                    #[trigger] after.children[j2]).label[0] by {
                        assert(after.children[j1].label == self.children[j1].label);
                        assert(after.children[j2].label == self.children[j2].label);
                        assert(self.children[j1].label[0] != self.children[j2].label[0]);
                    }
                }
                if self.pruned() && value is Some {
                    assert forall|j: int| 0 <= j < after.children.len() implies (
                    #[trigger] after.children[j]).live() && after.children[j].pruned() by {
                        if j != i {
                            assert(after.children[j] == self.children[j]);
                        }
                    }
                }
            },
            _ => {},
        }
    }

    /// Insertion adds one entry to what the tree maps, or replaces one.
    pub proof fn lemma_inserted_entries(self, key: Seq<u8>, value: T)
        requires
            self.accepts(key),
        ensures
            self.inserted(key, value).entries() == self.entries().insert(key, value),
    {
        let after = self.inserted(key, value);
        assert forall|other: Seq<u8>| #[trigger] after.lookup(other) == if other == key {
            Some(value)
        } else {
            self.lookup(other)
        } by {
            self.lemma_inserted_lookup(key, value, other);
        }
        assert(after.entries() =~= self.entries().insert(key, value));
    }

    /// Removal takes one entry out of what the tree maps, if the key has one.
    pub proof fn lemma_removed_entries(self, key: Seq<u8>)
        requires
            self.well_branched(),
        ensures
            self.removed(key).entries() == self.entries().remove(key),
    {
        let after = self.removed(key);
        assert forall|other: Seq<u8>| #[trigger] after.lookup(other) == if other == key {
            None
        } else {
            self.lookup(other)
        } by {
            self.lemma_removed_lookup(key, other);
        }
        assert(after.entries() =~= self.entries().remove(key));
    }

    /// A new value in the place of the one that `key` maps to replaces one
    /// entry of what the tree maps.
    pub proof fn lemma_with_value_at_entries(self, key: Seq<u8>, value: T)
        requires
            self.lookup(key) is Some,
        ensures
            self.with_value_at(key, value).entries() == self.entries().insert(key, value),
    {
        let after = self.with_value_at(key, value);
        assert forall|other: Seq<u8>| #[trigger] after.lookup(other) == if other == key {
            Some(value)
        } else {
            self.lookup(other)
        } by {
            self.lemma_with_value(key, Some(value), other);
        }
        assert(after.entries() =~= self.entries().insert(key, value));
    }

    /// A second insertion of a key changes the value that the first one left
    /// and nothing else: no second node is made for the key.
    pub proof fn lemma_inserted_twice(self, key: Seq<u8>, first: T, second: T)
        ensures
            self.inserted(key, first).inserted(key, second) == self.inserted(key, second),
        decreases self,
    {
        let once = self.inserted(key, first);
        let twice = once.inserted(key, second);
        let direct = self.inserted(key, second);
        lemma_cut(self.label, key);
        lemma_cut(once.label, key);
        match classify(self.label, key) {
            Cut::Parent(_) => {
                assert(twice.children =~= direct.children);
            },
            Cut::Child(_) => {
                let rest = key.skip(self.label.len() as int);
                Self::lemma_child_for(self.children, rest);
                Self::lemma_child_for(once.children, rest);
                match Self::child_for(self.children, rest) {
                    Some(i) => {
                        let child = self.children[i];
                        assert forall|j: int| 0 <= j < self.children.len() implies (
                        #[trigger] once.children[j]).accepts(rest) == self.children[j].accepts(
                            rest,
                        ) by {
                            if j == i {
                                child.lemma_inserted_accepts(rest, first, rest);
                            }
                        }
                        Self::lemma_child_for_alike(once.children, self.children, rest);
                        child.lemma_inserted_twice(rest, first, second);
                        assert(twice.children =~= direct.children);
                    },
                    None => {
                        let leaf = Self::leaf(rest, first);
                        assert(once.children.drop_last() =~= self.children);
                        assert(once.children.last() == leaf);
                        assert(classify(rest, rest) is BothEnd);
                        assert(leaf.inserted(rest, second) == Self::leaf(rest, second));
                        assert(twice.children =~= direct.children);
                    },
                }
            },
            Cut::BothBegin => {},
            Cut::BothMiddle(_) => {
                let m = crate::cut::common_len(self.label, key) as int;
                let rest = key.skip(m);
                let lower = self.lower(m);
                let leaf = Self::leaf(rest, first);
                assert(once.label.len() == m);
                assert(once.label.is_prefix_of(key)) by {
                    assert(key.subrange(0, m) == key.take(m));
                }
                assert(classify(once.label, key) is Child);
                Self::lemma_child_for(once.children, rest);
                lower.lemma_accepts(rest);
                assert(once.children[0] == lower);
                assert(once.children[1] == leaf);
                assert(classify(rest, rest) is BothEnd);
                assert(Self::child_for(once.children, rest) == Some(1int));
                assert(leaf.inserted(rest, second) == Self::leaf(rest, second));
                assert(twice.children =~= direct.children);
            },
            Cut::BothEnd => {},
        }
    }
}

impl<T> Tree<T> {
    /// A key that a path spells begins with the label of the path's first node.
    proof fn lemma_spells_prefix(self, key: Seq<u8>, value: T)
        requires
            self.spells(key, value),
        ensures
            self.label.is_prefix_of(key),
    {
        if key == self.label {
            assert(key.subrange(0, key.len() as int) =~= key);
        }
    }
}

} // verus!
