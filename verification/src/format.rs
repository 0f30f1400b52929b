//! The blob: how a tree and a coded text lie in the bytes, and what a reader
//! makes of any bytes. These are definitions only; the executable writer and
//! reader are held to them, and `proofs` shows that they fit together.
//!
//! Layout, in write order:
//!
//! ```text
//! [u32 symbol count]      big-endian
//! [shape digits]          one bit per node, padded with zero bits to a byte
//! [u32 symbol] x leaves   big-endian code points
//! [payload digits]        the codes of the text, padded to a byte
//! ```
use crate::channel::{align_up, be_bytes, be_word, bit_at, pack_bits};
use crate::node::Node;
use crate::symbol::is_scalar;
use vstd::prelude::*;

verus! {

/// The symbol list: four bytes a symbol, each its code point, big-endian.
pub open spec fn symbol_bytes(symbols: Seq<char>) -> Seq<u8> {
    Seq::new(4 * symbols.len(), |j: int| be_bytes(symbols[j / 4] as u32)[j % 4])
}

/// The digits of a text under a code table: the codes of its symbols, one
/// after the other.
pub open spec fn payload(codes: Map<char, Seq<char>>, text: Seq<char>) -> Seq<char>
    decreases text.len(),
{
    if text.len() == 0 {
        Seq::empty()
    } else {
        codes[text[0]] + payload(codes, text.drop_first())
    }
}

/// The bytes of a blob with the given symbol count, shape digits, symbol
/// list and payload digits.
pub open spec fn blob(count: u32, shape: Seq<char>, symbols: Seq<char>, digits: Seq<char>) -> Seq<
    u8,
> {
    be_bytes(count) + pack_bits(shape) + symbol_bytes(symbols) + pack_bits(digits)
}

/// The leaf that stands in a tree read from shape bits until its symbol is
/// filled in.
pub open spec fn placeholder() -> Node {
    Node { freq: 0, c: Some('\0'), r: None, l: None }
}

/// The internal node over two subtrees.
pub open spec fn joined(right: Node, left: Node) -> Node {
    Node {
        freq: (right.freq + left.freq) as u32,
        c: None,
        r: Some(Box::new(right)),
        l: Some(Box::new(left)),
    }
}

/// The tree shape that starts at bit `p` of `data`, with the bit position
/// after it: a one bit is a leaf, a zero bit an internal node followed by
/// its right and then its left subtree. `None` where the bits run out first.
///
/// The two bounds on where the right subtree ends are there for the
/// recursion to be seen to end; a subtree that parses always meets them.
pub open spec fn parsed_shape(data: Seq<u8>, p: nat) -> Option<(Node, nat)>
    decreases 8 * data.len() - p,
{
    if p >= 8 * data.len() {
        None
    } else if bit_at(data, p) {
        Some((placeholder(), p + 1))
    } else {
        let first = parsed_shape(data, p + 1);
        if first is None || first.unwrap().1 <= p || first.unwrap().1 > 8 * data.len() {
            None
        } else {
            match parsed_shape(data, first.unwrap().1) {
                None => None,
                Some((left, p2)) => Some((joined(first.unwrap().0, left), p2)),
            }
        }
    }
}

/// `populated` on a child that may be missing.
pub open spec fn populated_child(child: Option<Box<Node>>, data: Seq<u8>, p: nat) -> Option<
    (Option<Box<Node>>, nat),
>
    decreases child,
{
    match child {
        None => Some((None, p)),
        Some(n) => match populated(*n, data, p) {
            None => None,
            Some((m, q)) => Some((Some(Box::new(m)), q)),
        },
    }
}

/// The tree `t` with the symbol of every leaf replaced by the next word of
/// the symbol list, which is read from bit `p` of `data` on, and the bit
/// position after the words read. Leaves are visited in pre-order, right
/// before left; each word starts on the next byte boundary. `None` where
/// the bytes run out or a word is no code point.
pub open spec fn populated(t: Node, data: Seq<u8>, p: nat) -> Option<(Node, nat)>
    decreases t,
{
    match t.c {
        Some(_) => {
            let q = align_up(p);
            let word = be_word(data, q as int / 8);
            if q / 8 + 4 <= data.len() && is_scalar(word) {
                Some((Node { freq: t.freq, c: Some(word as char), r: t.r, l: t.l }, q + 32))
            } else {
                None
            }
        },
        None => match populated_child(t.r, data, p) {
            None => None,
            Some((r, p1)) => match populated_child(t.l, data, p1) {
                None => None,
                Some((l, p2)) => Some((Node { freq: t.freq, c: None, r, l }, p2)),
            },
        },
    }
}

/// What a walk from node `t` down to a leaf gives, steered by the bits of
/// `data` from bit `p` on (one goes right, zero goes left): the symbol of the
/// leaf and the bit position after the bits used. `None` where the bits run
/// out first, or the walk comes to a child that is missing, as it never does
/// in a strictly binary tree.
pub open spec fn walked(t: Node, data: Seq<u8>, p: nat) -> Option<(char, nat)>
    decreases t,
{
    match t.c {
        Some(c) => Some((c, p)),
        None => if p >= 8 * data.len() {
            None
        } else {
            match (if bit_at(data, p) {
                t.r
            } else {
                t.l
            }) {
                Some(child) => walked(*child, data, p + 1),
                None => None,
            }
        },
    }
}

/// One symbol decoded with tree `t` from bit `p` of `data` on. A tree that is
/// a single leaf has the one-bit code for its symbol: one bit is taken,
/// whatever its value. Any other tree is walked from the root.
pub open spec fn decoded_symbol(t: Node, data: Seq<u8>, p: nat) -> Option<(char, nat)> {
    match t.c {
        Some(c) => if p >= 8 * data.len() {
            None
        } else {
            Some((c, (p + 1) as nat))
        },
        None => walked(t, data, p),
    }
}

/// The text of `count` symbols decoded with tree `t` from bit `p` of `data`
/// on. `None` where the bits run out first.
pub open spec fn decoded_text(t: Node, data: Seq<u8>, p: nat, count: nat) -> Option<Seq<char>>
    decreases count,
{
    if count == 0 {
        Some(Seq::empty())
    } else {
        match decoded_symbol(t, data, p) {
            None => None,
            Some((first, p1)) => match decoded_text(t, data, p1, (count - 1) as nat) {
                None => None,
                Some(rest) => Some(seq![first] + rest),
            },
        }
    }
}

/// The text that a reader makes of `data` from bit `p` on: the symbol count,
/// the tree shape, after a pad to the byte boundary the symbols of the
/// leaves, and then as many symbols of text as the count says. `None` where
/// the data is cut short or holds a word that is no code point.
pub open spec fn decoded(data: Seq<u8>, p: nat) -> Option<Seq<char>> {
    let q = align_up(p);
    if q / 8 + 4 > data.len() {
        None
    } else {
        match parsed_shape(data, q + 32) {
            None => None,
            Some((shape, p1)) => match populated(shape, data, align_up(p1)) {
                None => None,
                Some((tree, p2)) => decoded_text(tree, data, p2, be_word(data, q as int / 8) as nat),
            },
        }
    }
}

} // verus!
