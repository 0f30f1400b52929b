//! Huffman coding of text into a compact binary blob, and back.
//!
//! [`encode`] counts the symbols of a text, builds the code tree, and writes the
//! tree followed by the coded text into a byte buffer; [`decode`] reads such a
//! buffer and returns the text. The bit-level buffer is `bytebuffer::ByteBuffer`
//! and the tables are `fxhash::FxHashMap`s.
use crate::channel::{buffer_bytes, next_word, read_cursor, write_cursor};
use crate::error::HuffmanError;
use crate::format::{blob, decoded, decoded_symbol, decoded_text, payload};
use crate::node::{code_view, Node};
use crate::proofs::{
    lemma_code_table, lemma_frequencies_add_up, lemma_leaves, lemma_populated_wf, lemma_round_trip,
};
use crate::queue::{filled, merged, ordered, symbol_set, total_freq};
use crate::utils::{
    count_characters, encode_contents, frequencies, get_heap, get_leaves, leaf_symbols, leaves_of,
    lemma_parsed_shape_bounds, pad, rebuild_tree,
};
use bytebuffer::ByteBuffer;
use fxhash::FxHashMap;
use vstd::prelude::*;

pub mod channel;
pub mod error;
pub mod format;
pub mod node;
pub mod proofs;
pub mod queue;
pub mod symbol;
pub mod table;
pub mod utils;

verus! {

/// Compresses a text into a blob that holds the code tree and the coded
/// text. Fails on the empty text, which has no symbol to build a tree from.
///
/// The tree is the one that merging builds from the leaves of the frequency
/// table of the text, listed in ascending order of frequency. Where all
/// frequencies differ there is one such list, and the bytes are fixed; among
/// symbols of one frequency the order is the one in which the frequency
/// table hands them out. Whatever the order, the blob decodes to the text.
pub fn encode(contents: &String) -> (r: Result<ByteBuffer, HuffmanError>)
    requires
        contents@.len() <= u32::MAX,
    ensures
        r is Err <==> contents@.len() == 0,
        r is Err ==> r == Err::<ByteBuffer, HuffmanError>(HuffmanError::EmptyAlphabet),
        r matches Ok(b) ==> read_cursor(b) == 0 && write_cursor(b) == 8 * buffer_bytes(b).len()
            && decoded(buffer_bytes(b), 0) == Some(contents@) && exists|leaves: Seq<Node>|
            #[trigger] leaves_of(leaves, frequencies(contents@)) && ordered(leaves) && ({
                let tree = merged(filled(Seq::empty(), leaves))[0];
                &&& tree.wf()
                &&& tree.freq == contents@.len()
                &&& tree.symbols().to_set() == contents@.to_set()
                &&& buffer_bytes(b) == blob(
                    contents@.len() as u32,
                    tree.shape(),
                    tree.symbols(),
                    payload(tree.codes(Seq::empty()), contents@),
                )
            }),
{
    // 1. Count characters by frequency
    let map = count_characters(contents);

    // 2. Sort the entries by frequency
    let leaves = get_leaves(map);
    proof {
        lemma_leaves(leaves@, frequencies(contents@));
        lemma_frequencies_add_up(contents@, leaf_symbols(leaves@));
        if leaves@.len() > 0 {
            assert(leaf_symbols(leaves@).to_set().contains(leaf_symbols(leaves@)[0]));
        }
        if contents@.len() > 0 {
            assert(contents@.to_set().contains(contents@[0]));
        }
    }
    let ghost listed = leaves@;

    // 3. Build the tree
    let heap = get_heap(leaves);
    if heap.len() == 0 {
        return Err(HuffmanError::EmptyAlphabet);
    }
    let root = &heap[0];
    proof {
        assert(heap@[0].wf());
        assert(total_freq(heap@.drop_first()) == 0);
        assert forall|c: char| root.symbols().to_set().contains(c) <==> symbol_set(heap@).contains(
            c,
        ) by {
            if root.symbols().contains(c) {
                assert(heap@[0].symbols().contains(c));
            }
        }
        assert(root.symbols().to_set() =~= contents@.to_set());
        lemma_code_table(*root);
    }

    // 3a. Get the codes
    let mut codes: FxHashMap<char, String> = FxHashMap::default();
    root.get_codes(String::new(), &mut codes);
    assert(code_view(codes@) =~= root.codes(Seq::empty()));

    // 3b. Get the characters
    let mut characters = String::new();
    root.get_character_order(&mut characters);
    assert(characters@ =~= root.symbols());

    // 4. Encode the tree structure into binary digits
    let mut binary_string = String::new();
    root.save_tree(&mut binary_string);
    assert(binary_string@ =~= root.shape());

    // 5. Build the buffer
    proof {
        assert forall|i: int| 0 <= i < contents@.len() implies root.symbols().contains(
            #[trigger] contents@[i],
        ) && codes@.contains_key(contents@[i]) by {
            assert(contents@.to_set().contains(contents@[i]));
            assert(root.symbols().to_set().contains(contents@[i]));
            assert(code_view(codes@).contains_key(contents@[i]));
        }
        lemma_round_trip(*root, contents@);
    }
    let blob = encode_contents(&binary_string, &characters, contents, codes);
    assert(leaves_of(listed, frequencies(contents@)) && *root == merged(
        filled(Seq::empty(), listed),
    )[0]);
    blob
}

/// Decodes a blob into the text it holds, reading from the read cursor of
/// `byte_buffer` on. Fails where the blob is cut short or holds a word that
/// is no code point where a symbol is expected.
pub fn decode(byte_buffer: ByteBuffer) -> (r: Result<String, HuffmanError>)
    ensures
        match r {
            Ok(text) => decoded(buffer_bytes(byte_buffer), read_cursor(byte_buffer)) == Some(text@),
            Err(e) => e == HuffmanError::Corrupt && decoded(
                buffer_bytes(byte_buffer),
                read_cursor(byte_buffer),
            ) is None,
        },
{
    let ghost data = buffer_bytes(byte_buffer);
    let ghost origin = read_cursor(byte_buffer);
    let mut buffer = byte_buffer;
    let len = match next_word(&mut buffer) {
        Some(len) => len,
        None => {
            return Err(HuffmanError::Corrupt);
        },
    };

    let ghost p0 = read_cursor(buffer);
    let tree = match rebuild_tree(&mut buffer) {
        Ok(tree) => tree,
        Err(e) => {
            return Err(e);
        },
    };
    pad(&mut buffer);

    // 2. Load the characters into the tree
    let ghost shape = tree;
    let ghost p1 = read_cursor(buffer);
    let tree = match tree.populate_tree(&mut buffer) {
        Ok(tree) => tree,
        Err(e) => {
            return Err(e);
        },
    };
    proof {
        lemma_parsed_shape_bounds(data, p0);
        lemma_populated_wf(shape, data, p1);
    }

    // 3. Traverse the tree and decode the source file into a string
    let mut out_string = String::new();
    let ghost start = read_cursor(buffer);
    let mut i: u32 = 0;
    assert(Seq::<char>::empty() + out_string@ =~= out_string@);
    assert(decoded(data, origin) == decoded_text(tree, data, start, len as nat));
    while i < len
        invariant
            i <= len,
            tree.wf(),
            data == buffer_bytes(byte_buffer),
            origin == read_cursor(byte_buffer),
            decoded(data, origin) == decoded_text(tree, data, start, len as nat),
            buffer_bytes(buffer) == data,
            decoded_text(tree, data, start, len as nat) == (match decoded_text(
                tree,
                data,
                read_cursor(buffer),
                (len - i) as nat,
            ) {
                Some(rest) => Some(out_string@ + rest),
                None => None,
            }),
        decreases len - i,
    {
        let ghost before = out_string@;
        let ghost p = read_cursor(buffer);
        match tree.decode_symbol(&mut out_string, &mut buffer) {
            Ok(_) => {},
            Err(e) => {
                return Err(e);
            },
        }
        proof {
            let (first, p1) = decoded_symbol(tree, data, p).unwrap();
            match decoded_text(tree, data, p1, (len - i - 1) as nat) {
                Some(rest) => {
                    assert(before + (seq![first] + rest) =~= before.push(first) + rest);
                },
                None => {},
            }
        }
        i += 1;
    }
    assert(out_string@ + Seq::<char>::empty() =~= out_string@);
    Ok(out_string)
}

} // verus!
