//! The node of a Huffman code tree.

use vstd::prelude::*;
use vstd::std_specs::cmp::{PartialEqSpecImpl, PartialOrdSpecImpl};
use core::cmp::Ordering;

verus! {

/// A tree node: a leaf carries a byte, an internal node two children. Both
/// carry a frequency.
pub struct Node {
    pub left: Option<Box<Node>>,
    pub right: Option<Box<Node>>,
    pub byte: Option<u8>,
    pub freq: u64,
}

impl Node {
    /// A node without children.
    pub open spec fn is_leaf(&self) -> bool {
        self.left is None && self.right is None
    }

    /// A well-formed code tree: a leaf carries a byte; an internal node has
    /// two well-formed children, no byte, and the sum of their frequencies
    /// as its own.
    pub open spec fn is_tree(&self) -> bool
        decreases self,
    {
        match (self.left, self.right) {
            (None, None) => self.byte is Some,
            (Some(l), Some(r)) => {
                &&& self.byte is None
                &&& l.is_tree()
                &&& r.is_tree()
                &&& self.freq == l.freq + r.freq
            },
            _ => false,
        }
    }

    /// Generates a new node
    pub fn new(byte: u8, freq: u64) -> (node: Node)
        ensures
            node == (Node { left: None, right: None, byte: Some(byte), freq }),
            node.is_tree(),
    {
        Node { left: None, right: None, byte: Some(byte), freq }
    }

    /// Generates a new huffman node
    pub fn new_huffman(left: Node, right: Node, freq: u64) -> (node: Node)
        ensures
            node == (Node {
                left: Some(Box::new(left)),
                right: Some(Box::new(right)),
                byte: None,
                freq,
            }),
    {
        Node { left: Some(Box::new(left)), right: Some(Box::new(right)), byte: None, freq }
    }

    /// The frequency of the node.
    pub fn get_freq(&self) -> (freq: u64)
        ensures
            freq == self.freq,
    {
        self.freq
    }

    /// The byte of a leaf.
    pub fn get_byte(&self) -> (byte: Option<u8>)
        ensures
            byte == self.byte,
    {
        self.byte
    }

    /// The left child, if there is one.
    pub fn get_left(&self) -> (left: Option<&Node>)
        ensures
            match left {
                Some(node) => self.left == Some(Box::new(*node)),
                None => self.left is None,
            },
    {
        match &self.left {
            Some(node) => Some(&**node),
            None => None,
        }
    }

    /// The right child, if there is one.
    pub fn get_right(&self) -> (right: Option<&Node>)
        ensures
            match right {
                Some(node) => self.right == Some(Box::new(*node)),
                None => self.right is None,
            },
    {
        match &self.right {
            Some(node) => Some(&**node),
            None => None,
        }
    }

    /// Makes `n` the left child, in place of any there was.
    pub fn set_left(&mut self, n: Node)
        ensures
            *final(self) == (Node { left: Some(Box::new(n)), ..*old(self) }),
    {
        self.left = Some(Box::new(n));
    }

    /// Makes `n` the right child, in place of any there was.
    pub fn set_right(&mut self, n: Node)
        ensures
            *final(self) == (Node { right: Some(Box::new(n)), ..*old(self) }),
    {
        self.right = Some(Box::new(n));
    }
}

impl PartialEq for Node {
    /// Two nodes are equal when their frequencies are.
    fn eq(&self, other: &Self) -> (r: bool) {
        self.freq == other.freq
    }
}

impl PartialEqSpecImpl for Node {
    open spec fn obeys_eq_spec() -> bool {
        true
    }

    open spec fn eq_spec(&self, other: &Self) -> bool {
        self.freq == other.freq
    }
}

impl PartialOrd for Node {
    /// The rarer node is the greater one, so that a max-heap hands out the
    /// lowest frequency first.
    fn partial_cmp(&self, other: &Self) -> (r: Option<Ordering>) {
        if self.freq < other.freq {
            Some(Ordering::Greater)
        } else if self.freq == other.freq {
            Some(Ordering::Equal)
        } else {
            Some(Ordering::Less)
        }
    }
}

impl PartialOrdSpecImpl for Node {
    open spec fn obeys_partial_cmp_spec() -> bool {
        true
    }

    open spec fn partial_cmp_spec(&self, other: &Self) -> Option<Ordering> {
        if self.freq < other.freq {
            Some(Ordering::Greater)
        } else if self.freq == other.freq {
            Some(Ordering::Equal)
        } else {
            Some(Ordering::Less)
        }
    }
}

} // verus!
