use bytebuffer::ByteBuffer;
use fxhash::FxHashMap;
use huffman::channel::{next_bit, next_word};
use huffman::error::HuffmanError;
use huffman::node::Node;
use huffman::utils::{
    count_characters, encode_contents, get_heap, get_leaves, pad, rebuild_tree,
};
use huffman::{decode, encode};

fn blob_of(text: &str) -> Vec<u8> {
    encode(&text.to_string()).unwrap().to_bytes()
}

fn text_of(bytes: &[u8]) -> Result<String, HuffmanError> {
    decode(ByteBuffer::from_bytes(bytes))
}

#[test]
fn test_encoding() {
    // easy tree
    let contents = "mmmmaao".to_string();
    let map = count_characters(&contents);
    let leaves = get_leaves(map);
    let heap = get_heap(leaves);
    let mut characters: String = "".to_string();
    heap[0].get_character_order(&mut characters);
    let mut codes: FxHashMap<char, String> = FxHashMap::default();
    heap[0].get_codes("".to_string(), &mut codes);
    let mut binary_string = "".to_string();
    heap[0].save_tree(&mut binary_string);

    let mut byte_buffer: ByteBuffer =
        encode_contents(&binary_string, &characters, &contents, codes).unwrap();

    let mut byte;

    // 4 (length) + 1 (tree) + 4 * 3 (chars) + 2 (data) = 19 bytes
    println!("{:?}", byte_buffer.to_bytes());
    assert_eq!(19, byte_buffer.len());

    // length 7
    byte = next_word(&mut byte_buffer).unwrap();

    assert_eq!(7, byte);

    // tree 00111 -> 56
    let mut byte_8 = byte_buffer.read_u8();

    assert_eq!(56, byte_8);

    // chars 'o', 'a', 'm'
    byte = next_word(&mut byte_buffer).unwrap();

    assert_eq!('o' as u32, byte);

    byte = next_word(&mut byte_buffer).unwrap();

    assert_eq!('a' as u32, byte);

    byte = next_word(&mut byte_buffer).unwrap();

    assert_eq!('m' as u32, byte);

    // text 0000 1010 11 -> 10, 192
    byte_8 = byte_buffer.read_u8();

    assert_eq!(10, byte_8);

    byte_8 = byte_buffer.read_u8();

    assert_eq!(192, byte_8);
}

#[test]
fn test_tree_from_bytes() {
    /*

        Test that tree shape is:

            None, 7
            /     \
        m, 4    None, 3
                /       \
              a, 2      o, 1
    */

    let bytes = [0, 0, 0, 7, 56, 0, 0, 0, 'o' as u8, 0, 0, 0, 'a' as u8, 0, 0, 0, 'm' as u8];

    let mut byte_buffer = ByteBuffer::new();
    byte_buffer.write_bytes(&bytes);
    let size = next_word(&mut byte_buffer).unwrap();
    assert_eq!(7, size);
    let mut root = rebuild_tree(&mut byte_buffer).unwrap();
    root = root.populate_tree(&mut byte_buffer).unwrap();

    assert!(root.c.is_none());

    let left = root.l.as_ref().unwrap();
    assert_eq!('m', left.c.unwrap());

    let right = root.r.as_ref().unwrap();
    assert!(right.c.is_none());

    let right_left = right.l.as_ref().unwrap();
    assert_eq!('a', right_left.c.unwrap());

    let right_right = right.r.as_ref().unwrap();
    assert_eq!('o', right_right.c.unwrap());
}

#[test]
fn the_bytes_of_a_small_blob() {
    assert_eq!(
        vec![0, 0, 0, 7, 56, 0, 0, 0, b'o', 0, 0, 0, b'a', 0, 0, 0, b'm', 10, 192],
        blob_of("mmmmaao")
    );
}

#[test]
fn the_bytes_of_a_blob_of_one_symbol() {
    assert_eq!(vec![0, 0, 0, 4, 0x80, 0, 0, 0, b'a', 0x00], blob_of("aaaa"));
    assert_eq!(vec![0, 0, 0, 1, 0x80, 0, 0, 0x20, 0xAC, 0x00], blob_of("€"));
}

#[test]
fn a_payload_of_whole_bytes_gets_no_padding() {
    // shape 0 0 1 1 1, codes c = 0, a = 10 and b = 11: 16 digits of payload
    let blob = blob_of("ccccccccaaab");
    assert_eq!(4 + 1 + 12 + 2, blob.len());
    assert_eq!(&[0x00, 0xAB], &blob[17..]);
}

#[test]
fn the_length_of_a_blob_adds_up() {
    for text in ["mmmmaao", "ll tt oo aa", "a", "ab", "hello, world", "äöü€𝄞 äö"] {
        let contents = text.to_string();
        let heap = get_heap(get_leaves(count_characters(&contents)));
        let mut shape = String::new();
        heap[0].save_tree(&mut shape);
        let mut codes: FxHashMap<char, String> = FxHashMap::default();
        heap[0].get_codes(String::new(), &mut codes);
        let digits: usize = contents.chars().map(|c| codes[&c].len()).sum();
        let leaves = (shape.len() + 1) / 2;
        assert_eq!(
            4 + (shape.len() + 7) / 8 + 4 * leaves + (digits + 7) / 8,
            blob_of(text).len()
        );
    }
}

#[test]
fn what_is_encoded_decodes_to_itself() {
    for text in [
        "mmmmaao",
        "ll tt oo aa",
        "a",
        "aaaa",
        "ab",
        "The cake is a lie!",
        "abracadabra alakazam",
        "äöü€𝄞 äö — naïve café",
        "\0\n\t\u{10FFFF}\u{D7FF}\u{E000}",
        "aaaaaaaaaaaaaaaaaaaaaaaaaaaaaaaaaaaaaaaabbbbbbbbbbbbbbbbbbbbcccccccccdddde",
    ] {
        let blob = encode(&text.to_string()).unwrap();
        assert_eq!(Ok(text.to_string()), decode(blob), "text {:?}", text);
        assert_eq!(Ok(text.to_string()), text_of(&blob_of(text)), "text {:?}", text);
    }
}

#[test]
fn a_long_text_decodes_to_itself() {
    let mut text = String::new();
    for i in 0..5000u32 {
        text.push(char::from_u32(0x61 + (i * i + 7 * i) % 23).unwrap());
        if i % 7 == 0 {
            text.push(' ');
        }
    }
    assert_eq!(Ok(text.clone()), decode(encode(&text).unwrap()));
}

#[test]
fn the_last_symbol_is_decoded_too() {
    let decoded = text_of(&blob_of("mmmmaao")).unwrap();
    assert_eq!(7, decoded.chars().count());
    assert_eq!(Some('o'), decoded.chars().last());
}

#[test]
fn the_empty_text_is_not_encoded() {
    assert_eq!(HuffmanError::EmptyAlphabet, encode(&String::new()).unwrap_err());
}

#[test]
fn a_blob_cut_in_the_symbol_list_is_corrupt() {
    let blob = blob_of("mmmmaao");
    for len in 5..17 {
        assert_eq!(Err(HuffmanError::Corrupt), text_of(&blob[..len]), "cut at {}", len);
    }
}

#[test]
fn a_blob_cut_anywhere_is_corrupt() {
    let blob = blob_of("ll tt oo aa");
    for len in 0..blob.len() {
        assert_eq!(Err(HuffmanError::Corrupt), text_of(&blob[..len]), "cut at {}", len);
    }
    assert_eq!(Ok("ll tt oo aa".to_string()), text_of(&blob));
}

#[test]
fn a_shape_that_does_not_end_is_corrupt() {
    assert_eq!(Err(HuffmanError::Corrupt), text_of(&[0, 0, 0, 1, 0, 0, 0, 0]));
    let mut buffer = ByteBuffer::from_bytes(&[0b0101_0000]);
    assert_eq!(Err(HuffmanError::Corrupt), rebuild_tree(&mut buffer));
}

#[test]
fn a_word_that_is_no_code_point_is_corrupt() {
    // one leaf, whose symbol would be the surrogate D800
    assert_eq!(Err(HuffmanError::Corrupt), text_of(&[0, 0, 0, 1, 0x80, 0, 0, 0xD8, 0, 0]));
    assert_eq!(Err(HuffmanError::Corrupt), text_of(&[0, 0, 0, 1, 0x80, 0, 0x11, 0, 0, 0]));
    assert_eq!(Ok("\u{D7FF}".to_string()), text_of(&[0, 0, 0, 1, 0x80, 0, 0, 0xD7, 0xFF, 0]));
}

#[test]
fn a_count_beyond_the_payload_is_corrupt() {
    let mut blob = blob_of("mmmmaao");
    blob[3] = 200;
    assert_eq!(Err(HuffmanError::Corrupt), text_of(&blob));
}

#[test]
fn a_count_below_the_payload_gives_the_first_symbols() {
    let mut blob = blob_of("mmmmaao");
    blob[3] = 5;
    assert_eq!(Ok("mmmma".to_string()), text_of(&blob));
    blob[3] = 0;
    assert_eq!(Ok(String::new()), text_of(&blob));
}

#[test]
fn a_single_leaf_takes_one_bit_for_each_symbol() {
    assert_eq!(Ok("aaaaaaaa".to_string()), text_of(&[0, 0, 0, 8, 0x80, 0, 0, 0, b'a', 0x00]));
    assert_eq!(Ok("aaaaaaaa".to_string()), text_of(&[0, 0, 0, 8, 0x80, 0, 0, 0, b'a', 0xFF]));
    assert_eq!(Err(HuffmanError::Corrupt), text_of(&[0, 0, 0, 9, 0x80, 0, 0, 0, b'a', 0x00]));
}

#[test]
fn decoding_starts_at_the_read_cursor() {
    let mut bytes = vec![0xAA, 0xBB];
    bytes.extend(blob_of("ll tt oo aa"));
    let mut buffer = ByteBuffer::from_bytes(&bytes);
    assert_eq!(0xAA, buffer.read_u8());
    assert!(buffer.read_bit());
    assert_eq!(Ok("ll tt oo aa".to_string()), decode(buffer));
}

#[test]
fn a_symbol_without_a_code_is_reported() {
    let mut codes: FxHashMap<char, String> = FxHashMap::default();
    codes.insert('a', "0".to_string());
    let result = encode_contents(
        &"011".to_string(),
        &"ab".to_string(),
        &"aab".to_string(),
        codes,
    );
    assert_eq!(HuffmanError::UnmappedSymbol, result.unwrap_err());
}

#[test]
fn contents_are_written_as_given() {
    let mut codes: FxHashMap<char, String> = FxHashMap::default();
    codes.insert('x', "1".to_string());
    codes.insert('y', "01".to_string());
    codes.insert('z', "0x1".to_string());
    let buffer = encode_contents(
        &"0110011001".to_string(),
        &"é".to_string(),
        &"xyzx".to_string(),
        codes,
    )
    .unwrap();
    assert_eq!(
        vec![0, 0, 0, 4, 0b0110_0110, 0b0100_0000, 0, 0, 0, 0xE9, 0b1010_0110],
        buffer.to_bytes()
    );
    assert_eq!(0, buffer.get_rpos());
    assert_eq!(11, buffer.get_wpos());
}

#[test]
fn empty_contents_are_written_as_a_count_of_zero() {
    let codes: FxHashMap<char, String> = FxHashMap::default();
    let buffer =
        encode_contents(&String::new(), &String::new(), &String::new(), codes).unwrap();
    assert_eq!(vec![0, 0, 0, 0], buffer.to_bytes());
}

#[test]
fn the_pad_moves_both_cursors_to_the_next_byte() {
    let mut buffer = ByteBuffer::from_bytes(&[0xF0, 0x0F]);
    buffer.write_bit(true);
    assert!(buffer.read_bit());
    pad(&mut buffer);
    assert_eq!(1, buffer.get_rpos());
    assert_eq!(3, buffer.get_wpos());
    assert_eq!(vec![0xF0, 0x0F, 0x80], buffer.to_bytes());
    pad(&mut buffer);
    assert_eq!(1, buffer.get_rpos());
    assert_eq!(3, buffer.get_wpos());
    assert_eq!(0x0F, buffer.read_u8());
}

#[test]
fn a_shape_is_read_right_before_left() {
    let mut buffer = ByteBuffer::from_bytes(&[0b0101_1000, 0xFF]);
    let tree = rebuild_tree(&mut buffer).unwrap();
    let hole = || Node::leaf('\0', 0);
    let expected = Node::node(Some(hole()), Some(Node::node(Some(hole()), Some(hole()))));
    assert_eq!(expected, tree);
    assert_eq!(0, buffer.get_rpos());
    assert!(!buffer.read_bit());
    assert!(!buffer.read_bit());
    assert!(!buffer.read_bit());
    assert_eq!(1, buffer.get_rpos());
}

#[test]
fn leaves_are_filled_in_the_order_of_the_symbol_list() {
    let text = "abracadabra alakazam";
    let heap = get_heap(get_leaves(count_characters(&text.to_string())));
    let mut written = String::new();
    heap[0].get_character_order(&mut written);
    let mut shape = String::new();
    heap[0].save_tree(&mut shape);

    let mut buffer = encode(&text.to_string()).unwrap();
    assert_eq!(text.chars().count() as u32, next_word(&mut buffer).unwrap());
    let tree = rebuild_tree(&mut buffer).unwrap();
    let tree = tree.populate_tree(&mut buffer).unwrap();
    let mut read = String::new();
    tree.get_character_order(&mut read);
    assert_eq!(written, read);
    let mut read_shape = String::new();
    tree.save_tree(&mut read_shape);
    assert_eq!(shape, read_shape);
}

#[test]
fn filling_a_tree_keeps_its_frequencies() {
    let tree = Node::node(Some(Node::leaf('?', 3)), Some(Node::leaf('?', 4)));
    let mut buffer = ByteBuffer::from_bytes(&[0xFF, 0, 0, 0, b'r', 0, 1, 0xF6, 0x00]);
    assert!(buffer.read_bit());
    let tree = tree.populate_tree(&mut buffer).unwrap();
    assert_eq!(Node::node(Some(Node::leaf('r', 3)), Some(Node::leaf('\u{1F600}', 4))), tree);
    assert_eq!(9, buffer.get_rpos());
}

#[test]
fn filling_a_tree_from_too_few_words_fails() {
    let tree = Node::node(Some(Node::leaf('?', 0)), Some(Node::leaf('?', 0)));
    let mut buffer = ByteBuffer::from_bytes(&[0, 0, 0, b'r', 0, 0, 0]);
    assert_eq!(Err(HuffmanError::Corrupt), tree.populate_tree(&mut buffer));
}

#[test]
fn a_walk_goes_right_on_one_and_left_on_zero() {
    let tree = Node::node(
        Some(Node::node(Some(Node::leaf('o', 1)), Some(Node::leaf('a', 2)))),
        Some(Node::leaf('m', 4)),
    );
    let mut buffer = ByteBuffer::from_bytes(&[0b0101_1000]);
    let mut out = "-".to_string();
    assert_eq!(Ok(()), tree.decode_bytearray(&mut out, &mut buffer));
    assert_eq!(Ok(()), tree.decode_bytearray(&mut out, &mut buffer));
    assert_eq!(Ok(()), tree.decode_bytearray(&mut out, &mut buffer));
    assert_eq!(Ok(()), tree.decode_symbol(&mut out, &mut buffer));
    assert_eq!("-maom", out);
    assert_eq!(Ok(()), tree.decode_symbol(&mut out, &mut buffer));
    assert_eq!(Ok(()), tree.decode_symbol(&mut out, &mut buffer));
    assert_eq!("-maommm", out);
    assert_eq!(Err(HuffmanError::Corrupt), tree.decode_symbol(&mut out, &mut buffer));
    assert_eq!(Err(HuffmanError::Corrupt), tree.decode_bytearray(&mut out, &mut buffer));
    assert_eq!("-maommm", out);
}

#[test]
fn a_walk_that_ends_in_the_middle_of_a_code_fails() {
    let tree = Node::node(
        Some(Node::node(Some(Node::leaf('o', 1)), Some(Node::leaf('a', 2)))),
        Some(Node::leaf('m', 4)),
    );
    let mut buffer = ByteBuffer::from_bytes(&[0b0000_0001]);
    let mut out = String::new();
    for _ in 0..7 {
        assert_eq!(Ok(()), tree.decode_bytearray(&mut out, &mut buffer));
    }
    assert_eq!(Err(HuffmanError::Corrupt), tree.decode_bytearray(&mut out, &mut buffer));
    assert_eq!("mmmmmmm", out);
}

#[test]
fn a_walk_from_a_leaf_takes_no_bit() {
    let leaf = Node::leaf('q', 1);
    let mut buffer = ByteBuffer::new();
    let mut out = String::new();
    assert_eq!(Ok(()), leaf.decode_bytearray(&mut out, &mut buffer));
    assert_eq!("q", out);
    assert_eq!(Err(HuffmanError::Corrupt), leaf.decode_symbol(&mut out, &mut buffer));
    assert_eq!("q", out);
}

#[test]
fn a_word_is_read_most_significant_byte_first() {
    let mut buffer = ByteBuffer::from_bytes(&[0xFF, 0x01, 0x02, 0x03, 0x04, 0xFE, 0xDC, 0xBA, 0x98]);
    assert!(buffer.read_bit());
    assert_eq!(0x0102_0304, next_word(&mut buffer).unwrap());
    assert_eq!(5, buffer.get_rpos());
    assert_eq!(0xFEDC_BA98, next_word(&mut buffer).unwrap());
    assert_eq!(9, buffer.get_rpos());
    assert_eq!(None, next_word(&mut buffer));
}

#[test]
fn a_word_is_not_read_from_fewer_than_four_bytes() {
    let mut buffer = ByteBuffer::from_bytes(&[0x80, 1, 2, 3]);
    assert_eq!(Some(true), next_bit(&mut buffer));
    assert_eq!(None, next_word(&mut buffer));
    assert_eq!(1, buffer.get_rpos());
    assert_eq!(1, buffer.read_u8());
    let mut short = ByteBuffer::from_bytes(&[1, 2, 3]);
    assert_eq!(None, next_word(&mut short));
    assert_eq!(0, short.get_rpos());
}

#[test]
fn bits_are_read_from_the_most_significant_on() {
    let mut buffer = ByteBuffer::from_bytes(&[0b1010_0001, 0b1000_0000]);
    let mut bits = String::new();
    while let Some(bit) = next_bit(&mut buffer) {
        bits.push(if bit { '1' } else { '0' });
    }
    assert_eq!("1010000110000000", bits);
    assert_eq!(None, next_bit(&mut buffer));
    assert_eq!(2, buffer.get_rpos());
    assert_eq!(None, next_bit(&mut ByteBuffer::new()));
}

#[test]
fn every_failure_has_a_message_of_its_own() {
    assert_eq!("cannot encode an empty text", HuffmanError::EmptyAlphabet.message());
    assert_eq!("corrupt or truncated input", HuffmanError::Corrupt.message());
    assert_eq!("symbol missing from the code table", HuffmanError::UnmappedSymbol.message());
}
