//! The code tree.
use crate::channel::{
    align_up, buffer_bytes, lemma_align_up, next_bit, next_word, read_cursor, write_cursor,
};
use crate::error::HuffmanError;
use crate::format::{decoded_symbol, populated, walked};
use crate::table::table_insert;
use bytebuffer::ByteBuffer;
use fxhash::FxHashMap;
use vstd::prelude::*;

verus! {

/// A node of the code tree. A leaf carries a symbol in `c` and has no
/// children; an internal node carries none and has both a right child `r`
/// and a left child `l`. `freq` is how often the symbols below the node occur.
#[derive(Debug, PartialEq, Eq)]
pub struct Node {
    pub freq: u32,
    pub c: Option<char>,
    pub r: Option<Box<Node>>,
    pub l: Option<Box<Node>>,
}

/// The code given to a symbol reached by the edge path `path`: the path
/// itself, except that the empty path, which only a tree of a single leaf
/// has, stands for the one-digit code `0`.
pub open spec fn code_for(path: Seq<char>) -> Seq<char> {
    if path.len() == 0 {
        seq!['0']
    } else {
        path
    }
}

/// The view of a code table: each symbol with its code as a sequence of the
/// digits `'0'` and `'1'`.
pub open spec fn code_view(m: Map<char, String>) -> Map<char, Seq<char>> {
    Map::new(|c: char| m.contains_key(c), |c: char| m[c]@)
}

impl Node {
    /// Whether the node counts as a leaf: it carries a symbol.
    pub open spec fn is_leaf(self) -> bool {
        self.c is Some
    }

    /// The tree is strictly binary: a leaf has no children, an internal node
    /// has two, and its frequency is the sum of theirs.
    pub open spec fn wf(self) -> bool
        decreases self,
    {
        match self.c {
            Some(_) => self.r is None && self.l is None,
            None => match (self.r, self.l) {
                (Some(r), Some(l)) => r.wf() && l.wf() && self.freq == r.freq + l.freq,
                _ => false,
            },
        }
    }

    /// The shape digits: in pre-order, right before left, `'1'` for a leaf
    /// and `'0'` for an internal node.
    pub open spec fn shape(self) -> Seq<char>
        decreases self,
    {
        if self.c is Some {
            seq!['1']
        } else {
            seq!['0'] + (match self.r {
                Some(r) => r.shape(),
                None => Seq::empty(),
            }) + (match self.l {
                Some(l) => l.shape(),
                None => Seq::empty(),
            })
        }
    }

    /// The symbols of the leaves, in pre-order, right before left.
    pub open spec fn symbols(self) -> Seq<char>
        decreases self,
    {
        match self.c {
            Some(c) => seq![c],
            None => (match self.r {
                Some(r) => r.symbols(),
                None => Seq::empty(),
            }) + (match self.l {
                Some(l) => l.symbols(),
                None => Seq::empty(),
            }),
        }
    }

    /// The code table of the tree below a node that is reached by the edge
    /// path `path`: a right edge is the digit `'1'`, a left edge `'0'`.
    /// Where a symbol sits on several leaves, the last one in pre-order,
    /// right before left, gives its code.
    pub open spec fn codes(self, path: Seq<char>) -> Map<char, Seq<char>>
        decreases self,
    {
        match self.c {
            Some(c) => map![c => code_for(path)],
            None => (match self.r {
                Some(r) => r.codes(path.push('1')),
                None => Map::empty(),
            }).union_prefer_right(
                match self.l {
                    Some(l) => l.codes(path.push('0')),
                    None => Map::empty(),
                },
            ),
        }
    }

    /// A leaf for symbol `c` that occurs `freq` times.
    pub fn leaf(c: char, freq: u32) -> (node: Node)
        ensures
            node == (Node { freq, c: Some(c), r: None, l: None }),
    {
        Node { freq, c: Some(c), l: None, r: None }
    }

    /// An internal node over the two given subtrees, with the sum of their
    /// frequencies.
    pub fn node(right: Option<Node>, left: Option<Node>) -> (node: Node)
        requires
            right is Some,
            left is Some,
            right.unwrap().freq + left.unwrap().freq <= u32::MAX,
        ensures
            node == (Node {
                freq: (right.unwrap().freq + left.unwrap().freq) as u32,
                c: None,
                r: Some(Box::new(right.unwrap())),
                l: Some(Box::new(left.unwrap())),
            }),
    {
        let right = right.unwrap();
        let left = left.unwrap();
        Node { freq: right.freq + left.freq, c: None, l: Some(Box::new(left)), r: Some(Box::new(right)) }
    }

    /// Records the code of every symbol below this node in `map`, `s` being
    /// the edge path that leads to the node.
    pub fn get_codes(&self, s: String, map: &mut FxHashMap<char, String>)
        ensures
            code_view(final(map)@) == code_view(old(map)@).union_prefer_right(self.codes(s@)),
        decreases self,
    {
        match self.c {
            Some(c) => {
                let mut code = s;
                if code.as_str().is_empty() {
                    code.push('0');
                }
                assert(code@ =~= code_for(s@));
                table_insert(map, c, code);
                assert(code_view(map@) =~= code_view(old(map)@).union_prefer_right(
                    self.codes(s@),
                ));
            },
            None => {
                let ghost before = code_view(map@);
                if let Some(node) = &self.r {
                    let mut temp = s.clone();
                    temp.push('1');
                    node.get_codes(temp, map);
                }
                let ghost middle = code_view(map@);
                if let Some(node) = &self.l {
                    let mut temp = s.clone();
                    temp.push('0');
                    node.get_codes(temp, map);
                }
                assert(code_view(map@) =~= before.union_prefer_right(self.codes(s@)));
            },
        }
    }

    /// Appends the shape digits of the tree to `s`.
    pub fn save_tree(&self, s: &mut String)
        ensures
            final(s)@ == old(s)@ + self.shape(),
        decreases self,
    {
        if self.c.is_some() {
            s.push('1');
        } else {
            s.push('0');
            if let Some(node) = &self.r {
                node.save_tree(s);
            }
            if let Some(node) = &self.l {
                node.save_tree(s);
            }
        }
    }

    /// Fills the symbol of every leaf with the next word of the symbol list
    /// read from `byte_buffer`, leaves taken in the order in which
    /// `save_tree` visits them. Fails where the buffer ends before a word,
    /// or a word is no code point.
    pub fn populate_tree(self, byte_buffer: &mut ByteBuffer) -> (r: Result<Node, HuffmanError>)
        ensures
            buffer_bytes(*final(byte_buffer)) == buffer_bytes(*old(byte_buffer)),
            write_cursor(*final(byte_buffer)) == (if self.symbols().len() > 0 {
                align_up(write_cursor(*old(byte_buffer)))
            } else {
                write_cursor(*old(byte_buffer))
            }),
            match r {
                Ok(tree) => populated(
                    self,
                    buffer_bytes(*old(byte_buffer)),
                    read_cursor(*old(byte_buffer)),
                ) == Some((tree, read_cursor(*final(byte_buffer)))),
                Err(e) => e == HuffmanError::Corrupt && self.symbols().len() > 0 && populated(
                    self,
                    buffer_bytes(*old(byte_buffer)),
                    read_cursor(*old(byte_buffer)),
                ) is None,
            },
        decreases self,
    {
        let Node { freq, c, r, l } = self;
        match c {
            Some(_) => {
                let word = match next_word(byte_buffer) {
                    Some(word) => word,
                    None => {
                        return Err(HuffmanError::Corrupt);
                    },
                };
                match char::from_u32(word) {
                    Some(symbol) => Ok(Node { freq, c: Some(symbol), r, l }),
                    None => Err(HuffmanError::Corrupt),
                }
            },
            None => {
                proof {
                    lemma_align_up(0, write_cursor(*byte_buffer));
                }
                let right = match r {
                    Some(node) => match (*node).populate_tree(byte_buffer) {
                        Ok(filled) => Some(Box::new(filled)),
                        Err(e) => {
                            return Err(e);
                        },
                    },
                    None => None,
                };
                let left = match l {
                    Some(node) => match (*node).populate_tree(byte_buffer) {
                        Ok(filled) => Some(Box::new(filled)),
                        Err(e) => {
                            return Err(e);
                        },
                    },
                    None => None,
                };
                Ok(Node { freq, c: None, r: right, l: left })
            },
        }
    }

    /// Walks from this node of a strictly binary tree down to a leaf,
    /// steered by bits read from `byte_buffer` (one goes right, zero goes
    /// left), and appends the symbol of the leaf to `output`. Fails where
    /// the buffer ends before a leaf is reached; `output` is then as it was.
    pub fn decode_bytearray(&self, output: &mut String, byte_buffer: &mut ByteBuffer) -> (r: Result<
        (),
        HuffmanError,
    >)
        requires
            self.wf(),
        ensures
            buffer_bytes(*final(byte_buffer)) == buffer_bytes(*old(byte_buffer)),
            write_cursor(*final(byte_buffer)) == write_cursor(*old(byte_buffer)),
            match r {
                Ok(_) => walked(
                    *self,
                    buffer_bytes(*old(byte_buffer)),
                    read_cursor(*old(byte_buffer)),
                ) matches Some((found, p)) && final(output)@ == old(output)@.push(found)
                    && read_cursor(*final(byte_buffer)) == p,
                Err(e) => e == HuffmanError::Corrupt && walked(
                    *self,
                    buffer_bytes(*old(byte_buffer)),
                    read_cursor(*old(byte_buffer)),
                ) is None && final(output)@ == old(output)@,
            },
        decreases self,
    {
        match self.c {
            Some(c) => {
                output.push(c);
                Ok(())
            },
            None => {
                let bit = match next_bit(byte_buffer) {
                    Some(bit) => bit,
                    None => {
                        return Err(HuffmanError::Corrupt);
                    },
                };
                let child = if bit {
                    &self.r
                } else {
                    &self.l
                };
                match child {
                    Some(node) => node.decode_bytearray(output, byte_buffer),
                    None => Err(HuffmanError::Corrupt),
                }
            },
        }
    }

    /// Decodes one symbol of text with this node as the root of a strictly
    /// binary tree and appends it to `output`. A root that is a leaf takes
    /// one bit from the buffer for its symbol; any other root starts a walk.
    /// Fails where the buffer ends first; `output` is then as it was.
    pub fn decode_symbol(&self, output: &mut String, byte_buffer: &mut ByteBuffer) -> (r: Result<
        (),
        HuffmanError,
    >)
        requires
            self.wf(),
        ensures
            buffer_bytes(*final(byte_buffer)) == buffer_bytes(*old(byte_buffer)),
            write_cursor(*final(byte_buffer)) == write_cursor(*old(byte_buffer)),
            match r {
                Ok(_) => decoded_symbol(
                    *self,
                    buffer_bytes(*old(byte_buffer)),
                    read_cursor(*old(byte_buffer)),
                ) matches Some((found, p)) && final(output)@ == old(output)@.push(found)
                    && read_cursor(*final(byte_buffer)) == p,
                Err(e) => e == HuffmanError::Corrupt && decoded_symbol(
                    *self,
                    buffer_bytes(*old(byte_buffer)),
                    read_cursor(*old(byte_buffer)),
                ) is None && final(output)@ == old(output)@,
            },
    {
        match self.c {
            Some(c) => {
                match next_bit(byte_buffer) {
                    Some(_) => {
                        output.push(c);
                        Ok(())
                    },
                    None => Err(HuffmanError::Corrupt),
                }
            },
            None => self.decode_bytearray(output, byte_buffer),
        }
    }

    /// Appends the symbols of the leaves to `characters`, in the order in
    /// which `save_tree` visits them.
    pub fn get_character_order(&self, characters: &mut String)
        ensures
            final(characters)@ == old(characters)@ + self.symbols(),
        decreases self,
    {
        match self.c {
            Some(c) => characters.push(c),
            None => {
                if let Some(right) = &self.r {
                    right.get_character_order(characters);
                }
                if let Some(left) = &self.l {
                    left.get_character_order(characters);
                }
            },
        }
    }
}

} // verus!
