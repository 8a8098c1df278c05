//! Sequences of operations, run on a radix tree and on a plain map.

use vstd::prelude::*;
use crate::rax::Rax;

verus! {

/// One operation on a map from byte strings to values.
#[derive(Debug)]
pub enum Operation<T> {
    /// Map the key to the value.
    Insert(Vec<u8>, T),
    /// Unmap the key and answer what it was mapped to.
    Remove(Vec<u8>),
    /// Answer what the key is mapped to.
    Get(Vec<u8>),
}

/// What a plain map answers when asked for `key`.
pub open spec fn answer_of<T>(map: Map<Seq<u8>, T>, key: Seq<u8>) -> Option<T> {
    if map.contains_key(key) {
        Some(map[key])
    } else {
        None
    }
}

/// What a plain map does with one operation: the map that it leaves, and
/// what it answers.
pub open spec fn reference_step<T>(map: Map<Seq<u8>, T>, op: Operation<T>) -> (
    Map<Seq<u8>, T>,
    Option<T>,
) {
    match op {
        Operation::Insert(key, value) => (map.insert(key@, value), None),
        Operation::Remove(key) => (map.remove(key@), answer_of(map, key@)),
        Operation::Get(key) => (map, answer_of(map, key@)),
    }
}

/// What a plain map does with a sequence of operations: the map that it
/// leaves, and its answers in order.
pub open spec fn reference_run<T>(map: Map<Seq<u8>, T>, ops: Seq<Operation<T>>) -> (
    Map<Seq<u8>, T>,
    Seq<Option<T>>,
)
    decreases ops.len(),
{
    if ops.len() == 0 {
        (map, Seq::empty())
    } else {
        let (before, answers) = reference_run(map, ops.drop_last());
        let (after, answer) = reference_step(before, ops.last());
        (after, answers.push(answer))
    }
}

impl<T: Copy> Rax<T> {
    /// Performs one operation. The tree answers what a plain map answers,
    /// and stands for the map that a plain map is left as.
    pub fn apply(&mut self, op: &Operation<T>) -> (answer: Option<T>)
        ensures
            (final(self)@, answer) == reference_step(old(self)@, *op),
    {
        match op {
            Operation::Insert(key, value) => {
                self.insert(key.as_slice(), *value);
                None
            },
            Operation::Remove(key) => self.remove(key.as_slice()),
            Operation::Get(key) => match self.get(key.as_slice()) {
                Some(value) => Some(*value),
                None => None,
            },
        }
    }

    /// Performs a sequence of operations in order. At every step the tree
    /// answers what a plain map answers, and in the end it stands for the map
    /// that a plain map is left as.
    pub fn replay(&mut self, ops: &[Operation<T>]) -> (answers: Vec<Option<T>>)
        ensures
            (final(self)@, answers@) == reference_run(old(self)@, ops@),
    {
        let mut answers: Vec<Option<T>> = Vec::new();
        let mut i: usize = 0;
        while i < ops.len()
            invariant
                i <= ops@.len(),
                (self@, answers@) == reference_run(old(self)@, ops@.take(i as int)),
            decreases ops@.len() - i,
        {
            let answer = self.apply(&ops[i]);
            answers.push(answer);
            proof {
                assert(ops@.take(i as int + 1).drop_last() == ops@.take(i as int));
                assert(ops@.take(i as int + 1).last() == ops@[i as int]);
            }
            i += 1;
        }
        proof {
            assert(ops@.take(i as int) == ops@);
        }
        answers
    }
}

} // verus!
