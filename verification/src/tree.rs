//! The mathematical model of a prefix-code tree: its shape, the codes it
//! assigns, how bits walk it, and its wire form.

use vstd::prelude::*;
use vstd::arithmetic::power2::lemma2_to64;
use crate::bits::{be_bits, be_value, lemma_be_bits_len, lemma_value_of_bits};
use crate::node::Node;

verus! {

/// The shape of a code tree: where the leaves are and which byte each
/// carries.
pub enum Shape {
    Leaf(u8),
    Fork(Box<Shape>, Box<Shape>),
}

impl Node {
    /// The shape of the tree below this node. A node with two children is a
    /// fork; any other is a leaf.
    pub open spec fn shape(&self) -> Shape
        decreases self,
    {
        match (self.left, self.right) {
            (Some(l), Some(r)) => Shape::Fork(Box::new(l.shape()), Box::new(r.shape())),
            _ => Shape::Leaf(
                match self.byte {
                    Some(b) => b,
                    None => 0,
                },
            ),
        }
    }

    /// The summed frequency of the leaves that carry `byte`.
    pub open spec fn weight_of(&self, byte: u8) -> nat
        decreases self,
    {
        match (self.left, self.right) {
            (Some(l), Some(r)) => l.weight_of(byte) + r.weight_of(byte),
            _ => if self.byte == Some(byte) {
                self.freq as nat
            } else {
                0
            },
        }
    }
}

impl Shape {
    /// The number of leaves.
    pub open spec fn leaves(self) -> nat
        decreases self,
    {
        match self {
            Shape::Leaf(_) => 1,
            Shape::Fork(l, r) => l.leaves() + r.leaves(),
        }
    }

    /// The number of leaves that carry `byte`.
    pub open spec fn occurs(self, byte: u8) -> nat
        decreases self,
    {
        match self {
            Shape::Leaf(b) => if b == byte {
                1
            } else {
                0
            },
            Shape::Fork(l, r) => l.occurs(byte) + r.occurs(byte),
        }
    }

    /// The length of the longest path from the root to a leaf.
    pub open spec fn height(self) -> nat
        decreases self,
    {
        match self {
            Shape::Leaf(_) => 0,
            Shape::Fork(l, r) => 1 + if l.height() >= r.height() {
                l.height()
            } else {
                r.height()
            },
        }
    }

    /// The path to the leaf of `byte`: `false` for a step to the left, `true`
    /// for one to the right. Where several leaves carry the byte, the last
    /// one in left-to-right order counts.
    pub open spec fn path_to(self, byte: u8) -> Option<Seq<bool>>
        decreases self,
    {
        match self {
            Shape::Leaf(b) => if b == byte {
                Some(Seq::empty())
            } else {
                None
            },
            Shape::Fork(l, r) => match r.path_to(byte) {
                Some(c) => Some(seq![true] + c),
                None => match l.path_to(byte) {
                    Some(c) => Some(seq![false] + c),
                    None => None,
                },
            },
        }
    }

    /// The code of `byte`: its path, or the single bit `0` in a tree that is
    /// one leaf.
    pub open spec fn code_of(self, byte: u8) -> Option<Seq<bool>> {
        match self {
            Shape::Leaf(b) => if b == byte {
                Some(seq![false])
            } else {
                None
            },
            Shape::Fork(_, _) => self.path_to(byte),
        }
    }

    /// Follows `bits` from this node down to a leaf: the byte found and the
    /// number of bits used, or `None` where the bits end first.
    pub open spec fn walk(self, bits: Seq<bool>) -> Option<(u8, nat)>
        decreases self,
    {
        match self {
            Shape::Leaf(b) => Some((b, 0)),
            Shape::Fork(l, r) => if bits.len() == 0 {
                None
            } else {
                match (if bits[0] { *r } else { *l }).walk(bits.skip(1)) {
                    Some((b, n)) => Some((b, n + 1)),
                    None => None,
                }
            },
        }
    }

    /// Decodes one symbol from the front of `bits`. A tree that is one leaf
    /// spends one bit on each symbol.
    pub open spec fn symbol(self, bits: Seq<bool>) -> Option<(u8, nat)> {
        match self {
            Shape::Leaf(b) => if bits.len() == 0 {
                None
            } else {
                Some((b, 1))
            },
            Shape::Fork(_, _) => self.walk(bits),
        }
    }

    /// Decodes up to `count` symbols from `bits`, stopping early where the
    /// bits end.
    pub open spec fn symbols(self, bits: Seq<bool>, count: nat) -> Seq<u8>
        decreases count,
    {
        if count == 0 {
            Seq::empty()
        } else {
            match self.symbol(bits) {
                None => Seq::empty(),
                Some((b, n)) => seq![b] + self.symbols(bits.skip(n as int), (count - 1) as nat),
            }
        }
    }

    /// The codes of the bytes of `data`, one after the other.
    pub open spec fn encoded(self, data: Seq<u8>) -> Seq<bool>
        decreases data.len(),
    {
        if data.len() == 0 {
            Seq::empty()
        } else {
            self.encoded(data.drop_last()) + match self.code_of(data.last()) {
                Some(c) => c,
                None => Seq::empty(),
            }
        }
    }

    /// Whether every byte of `data` has a leaf.
    pub open spec fn covers(self, data: Seq<u8>) -> bool {
        forall|i: int| 0 <= i < data.len() ==> self.occurs(#[trigger] data[i]) > 0
    }

    /// The wire form of the tree, in pre-order: a fork is the bit `0`
    /// followed by its left and its right subtree, a leaf is the bit `1`
    /// followed by the eight bits of its byte.
    pub open spec fn wire(self) -> Seq<bool>
        decreases self,
    {
        match self {
            Shape::Leaf(b) => seq![true] + be_bits(b as nat, 8),
            Shape::Fork(l, r) => seq![false] + l.wire() + r.wire(),
        }
    }
}

/// What reading a tree from bits comes to.
pub enum Parsed {
    /// A tree, and the number of bits it took.
    Tree(Shape, nat),
    /// The bits ended inside the tree.
    Truncated,
    /// The tree runs deeper than allowed.
    TooDeep,
}

/// Reads a tree of height `depth` at most from the front of `bits`.
pub open spec fn parse(bits: Seq<bool>, depth: nat) -> Parsed
    decreases depth,
{
    if bits.len() == 0 {
        Parsed::Truncated
    } else if bits[0] {
        if bits.len() < 9 {
            Parsed::Truncated
        } else {
            Parsed::Tree(Shape::Leaf(be_value(bits.subrange(1, 9)) as u8), 9)
        }
    } else if depth == 0 {
        Parsed::TooDeep
    } else {
        match parse(bits.skip(1), (depth - 1) as nat) {
            Parsed::Tree(l, n) => match parse(bits.skip((1 + n) as int), (depth - 1) as nat) {
                Parsed::Tree(r, m) => Parsed::Tree(Shape::Fork(Box::new(l), Box::new(r)), 1 + n + m),
                other => other,
            },
            other => other,
        }
    }
}

/// A byte has a path exactly if it has a leaf.
pub proof fn lemma_path_exists(s: Shape, byte: u8)
    ensures
        s.path_to(byte) is Some <==> s.occurs(byte) > 0,
        s.code_of(byte) is Some <==> s.occurs(byte) > 0,
        s.path_to(byte) is Some ==> s.path_to(byte)->0.len() <= s.height(),
    decreases s,
{
    match s {
        Shape::Leaf(_) => {},
        Shape::Fork(l, r) => {
            lemma_path_exists(*l, byte);
            lemma_path_exists(*r, byte);
        },
    }
}

/// A tree is lower than it has leaves.
pub proof fn lemma_height(s: Shape)
    ensures
        s.height() < s.leaves(),
    decreases s,
{
    match s {
        Shape::Leaf(_) => {},
        Shape::Fork(l, r) => {
            lemma_height(*l);
            lemma_height(*r);
        },
    }
}

/// Walking along the path of a byte arrives at that byte and uses exactly
/// the path.
pub proof fn lemma_walk_path(s: Shape, byte: u8, rest: Seq<bool>)
    requires
        s.path_to(byte) is Some,
    ensures
        s.walk(s.path_to(byte)->0 + rest) == Some((byte, s.path_to(byte)->0.len())),
    decreases s,
{
    match s {
        Shape::Leaf(_) => {},
        Shape::Fork(l, r) => {
            let path = s.path_to(byte)->0;
            let bits = path + rest;
            if r.path_to(byte) is Some {
                lemma_walk_path(*r, byte, rest);
                assert(bits.skip(1) =~= r.path_to(byte)->0 + rest);
            } else {
                lemma_walk_path(*l, byte, rest);
                assert(bits.skip(1) =~= l.path_to(byte)->0 + rest);
            }
        },
    }
}

/// The code of a byte decodes to that byte and is used up exactly.
pub proof fn lemma_symbol_code(s: Shape, byte: u8, rest: Seq<bool>)
    requires
        s.occurs(byte) > 0,
    ensures
        s.code_of(byte) is Some,
        s.symbol(s.code_of(byte)->0 + rest) == Some((byte, s.code_of(byte)->0.len())),
{
    lemma_path_exists(s, byte);
    match s {
        Shape::Leaf(_) => {},
        Shape::Fork(_, _) => {
            lemma_walk_path(s, byte, rest);
        },
    }
}

/// Whether `a` is the start of `b`.
pub open spec fn is_prefix(a: Seq<bool>, b: Seq<bool>) -> bool {
    a.len() <= b.len() && b.subrange(0, a.len() as int) == a
}

/// The codes of a tree are prefix-free: the code of one byte never starts
/// the code of another.
pub proof fn lemma_prefix_free(s: Shape, a: u8, b: u8)
    requires
        a != b,
        s.code_of(a) is Some,
        s.code_of(b) is Some,
    ensures
        !is_prefix(s.code_of(a)->0, s.code_of(b)->0),
{
    let ca = s.code_of(a)->0;
    let cb = s.code_of(b)->0;
    if is_prefix(ca, cb) {
        let rest = cb.skip(ca.len() as int);
        assert(ca + rest =~= cb);
        lemma_path_exists(s, a);
        lemma_path_exists(s, b);
        lemma_symbol_code(s, a, rest);
        lemma_symbol_code(s, b, Seq::empty());
        assert(cb + Seq::<bool>::empty() =~= cb);
    }
}

/// Encoding byte by byte from the front.
pub proof fn lemma_encoded_front(s: Shape, data: Seq<u8>)
    requires
        data.len() > 0,
    ensures
        s.encoded(data) == (match s.code_of(data[0]) {
            Some(c) => c,
            None => Seq::empty(),
        }) + s.encoded(data.skip(1)),
    decreases data.len(),
{
    let first = match s.code_of(data[0]) {
        Some(c) => c,
        None => Seq::empty(),
    };
    if data.len() == 1 {
        assert(data.drop_last() =~= Seq::<u8>::empty());
        assert(data.skip(1) =~= Seq::<u8>::empty());
        assert(s.encoded(data) =~= first + s.encoded(data.skip(1)));
    } else {
        let last = match s.code_of(data.last()) {
            Some(c) => c,
            None => Seq::empty(),
        };
        lemma_encoded_front(s, data.drop_last());
        assert(data.drop_last().skip(1) =~= data.skip(1).drop_last());
        assert(s.encoded(data) =~= first + (s.encoded(data.skip(1).drop_last()) + last));
    }
}

/// Decoding the codes of `data` gives `data` back, whatever follows them.
pub proof fn lemma_symbols_encoded(s: Shape, data: Seq<u8>, rest: Seq<bool>)
    requires
        s.covers(data),
    ensures
        s.symbols(s.encoded(data) + rest, data.len()) == data,
    decreases data.len(),
{
    if data.len() == 0 {
        assert(s.symbols(s.encoded(data) + rest, 0) =~= data);
    } else {
        let tail = data.skip(1);
        assert(s.occurs(data[0]) > 0);
        assert(s.covers(tail)) by {
            assert forall|i: int| 0 <= i < tail.len() implies s.occurs(#[trigger] tail[i]) > 0 by {
                assert(tail[i] == data[i + 1]);
            }
        }
        lemma_encoded_front(s, data);
        let code = s.code_of(data[0])->0;
        lemma_symbol_code(s, data[0], s.encoded(tail) + rest);
        assert(s.encoded(data) + rest =~= code + (s.encoded(tail) + rest));
        assert((s.encoded(data) + rest).skip(code.len() as int) =~= s.encoded(tail) + rest);
        lemma_symbols_encoded(s, tail, rest);
        assert(seq![data[0]] + tail =~= data);
    }
}

/// The wire form of a tree has at least nine bits.
pub proof fn lemma_wire_len(s: Shape)
    ensures
        s.wire().len() >= 9,
    decreases s,
{
    match s {
        Shape::Leaf(b) => {
            lemma_be_bits_len(b as nat, 8);
        },
        Shape::Fork(l, r) => {
            lemma_wire_len(*l);
            lemma_wire_len(*r);
        },
    }
}

/// Reading the wire form of a tree gives the tree back, whatever follows
/// it, provided the tree is no higher than allowed.
pub proof fn lemma_parse_wire(s: Shape, rest: Seq<bool>, depth: nat)
    requires
        s.height() <= depth,
    ensures
        parse(s.wire() + rest, depth) == Parsed::Tree(s, s.wire().len()),
    decreases s,
{
    let bits = s.wire() + rest;
    lemma_wire_len(s);
    match s {
        Shape::Leaf(b) => {
            lemma2_to64();
            lemma_be_bits_len(b as nat, 8);
            lemma_value_of_bits(b as nat, 8);
            assert(bits.subrange(1, 9) =~= be_bits(b as nat, 8));
        },
        Shape::Fork(l, r) => {
            let d = (depth - 1) as nat;
            lemma_parse_wire(*l, r.wire() + rest, d);
            lemma_parse_wire(*r, rest, d);
            assert(bits.skip(1) =~= l.wire() + (r.wire() + rest));
            assert(bits.skip((1 + l.wire().len()) as int) =~= r.wire() + rest);
        },
    }
}

} // verus!
