//! The cut classifier: how a node's label relates to the unconsumed part of a key.

use vstd::prelude::*;

verus! {

/// The relation between a label and a key suffix. Every operation of the tree
/// dispatches on it.
#[derive(Clone, Copy, Debug, PartialEq, Eq, Structural)]
pub enum Cut {
    /// The key is a strict prefix of the label; the payload is the key's length.
    Parent(usize),
    /// The label is a strict prefix of the key; the payload is the label's length.
    Child(usize),
    /// Both are non-empty and their first bytes differ.
    BothBegin,
    /// Both share a non-empty prefix of the given length and then diverge.
    BothMiddle(usize),
    /// Label and key are equal.
    BothEnd,
}

/// Length of the longest common prefix of `a` and `b`.
pub open spec fn common_len(a: Seq<u8>, b: Seq<u8>) -> nat
    decreases a.len(),
{
    if a.len() == 0 || b.len() == 0 || a[0] != b[0] {
        0
    } else {
        1 + common_len(a.skip(1), b.skip(1))
    }
}

/// The cut of `label` against `key`.
pub open spec fn classify(label: Seq<u8>, key: Seq<u8>) -> Cut {
    if label == key {
        Cut::BothEnd
    } else if label.is_prefix_of(key) {
        Cut::Child(label.len() as usize)
    } else if key.is_prefix_of(label) {
        Cut::Parent(key.len() as usize)
    } else if label[0] != key[0] {
        Cut::BothBegin
    } else {
        Cut::BothMiddle(common_len(label, key) as usize)
    }
}

/// What a cut says of the label and the key that it was made from.
pub open spec fn describes(cut: Cut, label: Seq<u8>, key: Seq<u8>) -> bool {
    match cut {
        Cut::Parent(p) => p == key.len() && p < label.len() && label.take(p as int) == key,
        Cut::Child(c) => c == label.len() && c < key.len() && key.take(c as int) == label,
        Cut::BothBegin => label.len() > 0 && key.len() > 0 && label[0] != key[0],
        Cut::BothMiddle(m) => 0 < m < label.len() && m < key.len() && label.take(m as int)
            == key.take(m as int) && label[m as int] != key[m as int],
        Cut::BothEnd => label == key,
    }
}

/// `common_len(a, b)` is the only length up to which `a` and `b` agree and at
/// which they stop agreeing.
pub proof fn lemma_common_len(a: Seq<u8>, b: Seq<u8>, n: int)
    requires
        0 <= n <= a.len(),
        n <= b.len(),
        a.take(n) == b.take(n),
        n == a.len() || n == b.len() || a[n] != b[n],
    ensures
        common_len(a, b) == n,
    decreases n,
{
    if n == 0 {
    } else {
        assert(a[0] == a.take(n)[0]);
        assert(b[0] == b.take(n)[0]);
        assert(a.skip(1).take(n - 1) == a.take(n).skip(1));
        assert(b.skip(1).take(n - 1) == b.take(n).skip(1));
        lemma_common_len(a.skip(1), b.skip(1), n - 1);
    }
}

/// The two sequences agree up to `common_len`, and differ there if both go on.
pub proof fn lemma_common_len_agrees(a: Seq<u8>, b: Seq<u8>)
    ensures
        common_len(a, b) <= a.len(),
        common_len(a, b) <= b.len(),
        a.take(common_len(a, b) as int) == b.take(common_len(a, b) as int),
        common_len(a, b) < a.len() && common_len(a, b) < b.len() ==> a[common_len(a, b) as int]
            != b[common_len(a, b) as int],
    decreases a.len(),
{
    if a.len() == 0 || b.len() == 0 || a[0] != b[0] {
        assert(a.take(0) == b.take(0));
    } else {
        lemma_common_len_agrees(a.skip(1), b.skip(1));
        let m = common_len(a.skip(1), b.skip(1)) as int;
        assert(a.take(m + 1) == seq![a[0]] + a.skip(1).take(m));
        assert(b.take(m + 1) == seq![b[0]] + b.skip(1).take(m));
    }
}

/// Two sequences that agree on their first `n` elements are equal exactly if
/// they agree on the rest.
pub proof fn lemma_take_skip(a: Seq<u8>, b: Seq<u8>, n: int)
    requires
        0 <= n <= a.len(),
        n <= b.len(),
        a.take(n) == b.take(n),
    ensures
        a == b <==> a.skip(n) == b.skip(n),
        forall|i: int| 0 <= i < n ==> a[i] == b[i],
{
    assert forall|i: int| 0 <= i < n implies a[i] == b[i] by {
        assert(a[i] == a.take(n)[i]);
        assert(b[i] == b.take(n)[i]);
    }
    if a.skip(n) == b.skip(n) {
        assert(a.len() == b.len()) by {
            assert(a.skip(n).len() == a.len() - n);
            assert(b.skip(n).len() == b.len() - n);
        }
        assert forall|i: int| 0 <= i < a.len() implies a[i] == b[i] by {
            if i >= n {
                assert(a[i] == a.skip(n)[i - n]);
                assert(b[i] == b.skip(n)[i - n]);
            }
        }
        assert(a =~= b);
    }
}

/// What each outcome of `classify` says about the label and the key.
pub proof fn lemma_cut(label: Seq<u8>, key: Seq<u8>)
    ensures
        match classify(label, key) {
            Cut::Parent(_) => key.len() < label.len() && label.take(key.len() as int) == key,
            Cut::Child(_) => label.len() < key.len() && key.take(label.len() as int) == label,
            Cut::BothBegin => label.len() > 0 && key.len() > 0 && label[0] != key[0],
            Cut::BothMiddle(_) => 0 < common_len(label, key) < label.len() && common_len(label, key)
                < key.len() && label.take(common_len(label, key) as int) == key.take(
                common_len(label, key) as int,
            ) && label[common_len(label, key) as int] != key[common_len(label, key) as int],
            Cut::BothEnd => label == key,
        },
{
    lemma_common_len_agrees(label, key);
    if label == key {
    } else if label.is_prefix_of(key) {
        assert(label.len() < key.len()) by {
            if label.len() == key.len() {
                assert(key.take(key.len() as int) == key);
            }
        }
    } else if key.is_prefix_of(label) {
        assert(key.len() < label.len()) by {
            if label.len() == key.len() {
                assert(label.take(label.len() as int) == label);
            }
        }
    } else {
        assert(label.len() > 0) by {
            if label.len() == 0 {
                assert(key.take(0) == label);
            }
        }
        assert(key.len() > 0) by {
            if key.len() == 0 {
                assert(label.take(0) == key);
            }
        }
        if label[0] == key[0] {
            let m = common_len(label, key) as int;
            assert(m < label.len()) by {
                if m == label.len() {
                    assert(label.take(m) == label);
                }
            }
            assert(m < key.len()) by {
                if m == key.len() {
                    assert(key.take(m) == key);
                }
            }
        }
    }
}

/// For a label and a key that fit in memory, `classify` gives a cut that
/// describes them, and it is the only cut that does.
pub proof fn lemma_classify(label: Seq<u8>, key: Seq<u8>)
    requires
        label.len() <= usize::MAX,
        key.len() <= usize::MAX,
    ensures
        describes(classify(label, key), label, key),
        forall|cut: Cut| describes(cut, label, key) ==> cut == classify(label, key),
{
    lemma_cut(label, key);
    assert forall|cut: Cut| describes(cut, label, key) implies cut == classify(label, key) by {
        match cut {
            Cut::Parent(p) => {
                assert(key.is_prefix_of(label)) by {
                    assert(label.subrange(0, p as int) == label.take(p as int));
                }
                if label.is_prefix_of(key) {
                }
            },
            Cut::Child(c) => {
                assert(label.is_prefix_of(key)) by {
                    assert(key.subrange(0, c as int) == key.take(c as int));
                }
            },
            Cut::BothBegin => {
                lemma_both_begin(label, key);
            },
            Cut::BothMiddle(m) => {
                lemma_both_begin(label, key);
                lemma_common_len(label, key, m as int);
                assert(label[0] == label.take(m as int)[0]);
                assert(key[0] == key.take(m as int)[0]);
                if label.is_prefix_of(key) {
                    assert(key.subrange(0, label.len() as int)[m as int] == key[m as int]);
                }
                if key.is_prefix_of(label) {
                    assert(label.subrange(0, key.len() as int)[m as int] == label[m as int]);
                }
            },
            Cut::BothEnd => {},
        }
    }
}

/// The cut is `BothBegin` exactly where both are non-empty and start with
/// different bytes.
pub proof fn lemma_both_begin(label: Seq<u8>, key: Seq<u8>)
    ensures
        classify(label, key) == Cut::BothBegin <==> label.len() > 0 && key.len() > 0 && label[0]
            != key[0],
{
    if label.len() > 0 && key.len() > 0 && label[0] != key[0] {
        if label.is_prefix_of(key) {
            assert(label[0] == key.subrange(0, label.len() as int)[0]);
        }
        if key.is_prefix_of(label) {
            assert(key[0] == label.subrange(0, key.len() as int)[0]);
        }
    } else if label.len() == 0 {
        assert(label.is_prefix_of(key));
    } else if key.len() == 0 {
        assert(key.is_prefix_of(label));
    }
}

/// Classifies `label` against `key` by scanning both up to the first mismatch.
pub fn cut_key(label: &[u8], key: &[u8]) -> (cut: Cut)
    ensures
        describes(cut, label@, key@),
        cut == classify(label@, key@),
{
    let mut i: usize = 0;
    while i < label.len() && i < key.len() && label[i] == key[i]
        invariant
            i <= label@.len(),
            i <= key@.len(),
            label@.take(i as int) == key@.take(i as int),
        decreases label@.len() - i,
    {
        assert(label@.take(i as int + 1) == label@.take(i as int).push(label@[i as int]));
        assert(key@.take(i as int + 1) == key@.take(i as int).push(key@[i as int]));
        i += 1;
    }
    let label_len = label.len();
    let key_len = key.len();
    proof {
        lemma_common_len(label@, key@, i as int);
        lemma_classify(label@, key@);
        if i == label@.len() {
            assert(label@.take(i as int) == label@);
        }
        if i == key@.len() {
            assert(key@.take(i as int) == key@);
        }
    }
    if i < label_len && i < key_len {
        if i == 0 {
            Cut::BothBegin
        } else {
            Cut::BothMiddle(i)
        }
    } else if label_len < key_len {
        Cut::Child(label_len)
    } else if label_len == key_len {
        Cut::BothEnd
    } else {
        Cut::Parent(key_len)
    }
}

/// With a common beginning of length `n` taken off both, a label is a
/// prefix of a key exactly if it was one before.
pub proof fn lemma_prefix_shift(label: Seq<u8>, key: Seq<u8>, n: int)
    requires
        0 <= n <= label.len(),
        n <= key.len(),
        label.take(n) == key.take(n),
    ensures
        label.skip(n).is_prefix_of(key.skip(n)) <==> label.is_prefix_of(key),
        label.len() <= key.len() ==> key.skip(n).skip(label.len() - n) == key.skip(
            label.len() as int,
        ),
{
    let l = label.len() as int;
    lemma_take_skip(label, key, n);
    if l <= key.len() {
        assert(key.skip(n).skip(l - n) =~= key.skip(l));
        assert(key.skip(n).subrange(0, l - n) =~= key.subrange(0, l).skip(n));
        assert(key.subrange(0, l).take(n) =~= key.take(n));
        lemma_take_skip(label, key.subrange(0, l), n);
    }
}

} // verus!
