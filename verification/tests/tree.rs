use fxhash::FxHashMap;
use huffman::node::Node;
use huffman::queue::queue_push;
use huffman::utils::{count_characters, get_heap, get_leaves};

fn tree_of(text: &str) -> Node {
    let map = count_characters(&text.to_string());
    let leaves = get_leaves(map);
    let mut heap = get_heap(leaves);
    assert_eq!(1, heap.len());
    heap.remove(0)
}

fn codes_of(root: &Node) -> FxHashMap<char, String> {
    let mut codes: FxHashMap<char, String> = FxHashMap::default();
    root.get_codes("".to_string(), &mut codes);
    codes
}

#[test]
fn test_tree() {
    /*

        Test that tree shape is:

            None, 7
            /     \
        m, 4    None, 3
                /       \
              a, 2      o, 1
    */

    // basic tree
    let contents = "mmmmaao".to_string();
    let map = count_characters(&contents);
    let leaves = get_leaves(map);
    let heap = get_heap(leaves);

    let root = &heap[0];

    assert!(root.c.is_none());

    let left = root.l.as_ref().unwrap();
    assert_eq!('m', left.c.unwrap());

    let right = root.r.as_ref().unwrap();
    assert!(right.c.is_none());

    let right_left = right.l.as_ref().unwrap();
    assert_eq!('a', right_left.c.unwrap());

    let right_right = right.r.as_ref().unwrap();
    assert_eq!('o', right_right.c.unwrap());

    /*

                Test that tree shape is:

                    None, 11
                    /       \
            None, 7       None, 4
            /    \      /       \
        None, 4   ' '  ?, 2      ?, 2
        /     \
      ?, 2    ?, 2
    */

    // more complex tree
    let contents = "ll tt oo aa".to_string();
    let map = count_characters(&contents);
    let leaves = get_leaves(map);
    let heap = get_heap(leaves);

    let root = &heap[0];

    assert!(root.c.is_none());

    let left = root.l.as_ref().unwrap();
    assert!(left.c.is_none());

    let right = root.r.as_ref().unwrap();
    assert!(right.c.is_none());

    let right_left = right.l.as_ref().unwrap();
    assert!(right_left.c.is_some());

    let right_right = right.r.as_ref().unwrap();
    assert!(right_right.c.is_some());

    let left_right = left.r.as_ref().unwrap();
    assert_eq!(' ', left_right.c.unwrap());

    let left_left = left.l.as_ref().unwrap();
    assert!(left_left.c.is_none());

    let left_left_left = left_left.l.as_ref().unwrap();
    assert!(left_left_left.c.is_some());

    let left_left_right = left_left.r.as_ref().unwrap();
    assert!(left_left_right.c.is_some());
}

#[test]
fn test_tree_representation() {
    let contents = "mmmmaao".to_string();
    let map = count_characters(&contents);
    let leaves = get_leaves(map);
    let heap = get_heap(leaves);

    let mut tree_string = "".to_string();

    heap[0].save_tree(&mut tree_string);

    assert_eq!("00111", tree_string);

    let contents = "ll tt oo aa".to_string();
    let map = count_characters(&contents);
    let leaves = get_leaves(map);
    let heap = get_heap(leaves);

    let mut tree_string = "".to_string();

    heap[0].save_tree(&mut tree_string);

    assert_eq!("001101011", tree_string);
}

#[test]
fn test_codes() {
    // easy encoding
    let contents = "mmmmaao".to_string();
    let map = count_characters(&contents);
    let leaves = get_leaves(map);
    let heap = get_heap(leaves);

    let mut codes: FxHashMap<char, String> = FxHashMap::default();
    heap[0].get_codes("".to_string(), &mut codes);

    assert_eq!("0", codes.get(&'m').unwrap());
    assert_eq!("10", codes.get(&'a').unwrap());
    assert_eq!("11", codes.get(&'o').unwrap());
    assert!(codes.get(&'f').is_none());

    // harder encoding
    let contents = "ll aa oo tt".to_string();
    let map = count_characters(&contents);
    let leaves = get_leaves(map);
    let heap = get_heap(leaves);

    let mut codes: FxHashMap<char, String> = FxHashMap::default();
    heap[0].get_codes("".to_string(), &mut codes);

    assert_eq!("01", codes.get(&' ').unwrap());
    assert!(codes.get(&'f').is_none());
}

#[test]
fn leaf_and_node_build_the_nodes_they_name() {
    let leaf = Node::leaf('x', 9);
    assert_eq!(Node { freq: 9, c: Some('x'), r: None, l: None }, leaf);

    let node = Node::node(Some(Node::leaf('r', 2)), Some(Node::leaf('l', 5)));
    assert_eq!(7, node.freq);
    assert_eq!(None, node.c);
    assert_eq!(Node::leaf('r', 2), **node.r.as_ref().unwrap());
    assert_eq!(Node::leaf('l', 5), **node.l.as_ref().unwrap());
}

#[test]
fn the_whole_tree_of_a_small_text() {
    let expected = Node::node(
        Some(Node::node(Some(Node::leaf('o', 1)), Some(Node::leaf('a', 2)))),
        Some(Node::leaf('m', 4)),
    );
    assert_eq!(expected, tree_of("mmmmaao"));
}

#[test]
fn the_root_counts_every_symbol_of_the_text() {
    let text = "a man a plan a canal panama";
    let root = tree_of(text);
    assert_eq!(text.chars().count() as u32, root.freq);
    let mut symbols = String::new();
    root.get_character_order(&mut symbols);
    let mut found: Vec<char> = symbols.chars().collect();
    found.sort();
    assert_eq!(vec![' ', 'a', 'c', 'l', 'm', 'n', 'p'], found);
}

#[test]
fn no_leaves_give_no_tree() {
    assert!(get_heap(Vec::new()).is_empty());
}

#[test]
fn one_leaf_is_the_whole_tree() {
    let heap = get_heap(vec![Node::leaf('z', 3)]);
    assert_eq!(vec![Node::leaf('z', 3)], heap);
}

#[test]
fn leaves_out_of_order_are_merged_lowest_first() {
    let heap = get_heap(vec![Node::leaf('m', 4), Node::leaf('o', 1), Node::leaf('a', 2)]);
    let expected = Node::node(
        Some(Node::node(Some(Node::leaf('o', 1)), Some(Node::leaf('a', 2)))),
        Some(Node::leaf('m', 4)),
    );
    assert_eq!(vec![expected], heap);
}

#[test]
fn among_equal_frequencies_the_first_to_come_leaves_first() {
    let heap = get_heap(vec![
        Node::leaf('a', 1),
        Node::leaf('b', 1),
        Node::leaf('c', 1),
        Node::leaf('d', 1),
    ]);
    let ab = Node::node(Some(Node::leaf('a', 1)), Some(Node::leaf('b', 1)));
    let cd = Node::node(Some(Node::leaf('c', 1)), Some(Node::leaf('d', 1)));
    assert_eq!(vec![Node::node(Some(ab), Some(cd))], heap);
}

#[test]
fn a_pushed_node_goes_behind_its_equals() {
    let mut queue = vec![Node::leaf('a', 1), Node::leaf('b', 2), Node::leaf('c', 2), Node::leaf('d', 5)];
    queue_push(&mut queue, Node::leaf('x', 2));
    let symbols: String = queue.iter().map(|n| n.c.unwrap()).collect();
    assert_eq!("abcxd", symbols);
    queue_push(&mut queue, Node::leaf('y', 0));
    queue_push(&mut queue, Node::leaf('z', 9));
    let symbols: String = queue.iter().map(|n| n.c.unwrap()).collect();
    assert_eq!("yabcxdz", symbols);
}

#[test]
fn symbols_come_in_the_order_of_the_shape() {
    let root = tree_of("mmmmaao");
    let mut symbols = "<".to_string();
    root.get_character_order(&mut symbols);
    assert_eq!("<oam", symbols);
    let mut shape = "<".to_string();
    root.save_tree(&mut shape);
    assert_eq!("<00111", shape);
}

#[test]
fn a_single_leaf_has_the_code_zero() {
    let root = tree_of("aaaa");
    assert_eq!(Node::leaf('a', 4), root);
    let codes = codes_of(&root);
    assert_eq!(1, codes.len());
    assert_eq!("0", codes[&'a']);
    let mut shape = String::new();
    root.save_tree(&mut shape);
    assert_eq!("1", shape);
}

#[test]
fn codes_follow_the_path_given() {
    let root = Node::node(Some(Node::leaf('r', 1)), Some(Node::leaf('l', 1)));
    let mut codes: FxHashMap<char, String> = FxHashMap::default();
    codes.insert('k', "kept".to_string());
    root.get_codes("01".to_string(), &mut codes);
    assert_eq!(3, codes.len());
    assert_eq!("011", codes[&'r']);
    assert_eq!("010", codes[&'l']);
    assert_eq!("kept", codes[&'k']);
}

#[test]
fn a_symbol_on_two_leaves_takes_the_code_of_the_left_one() {
    let root = Node::node(
        Some(Node::leaf('s', 1)),
        Some(Node::node(Some(Node::leaf('t', 1)), Some(Node::leaf('s', 1)))),
    );
    let codes = codes_of(&root);
    assert_eq!("00", codes[&'s']);
    assert_eq!("01", codes[&'t']);
}

#[test]
fn no_code_is_a_prefix_of_another() {
    for text in ["mmmmaao", "ll tt oo aa", "abracadabra alakazam", "aaaabbbccd e", "äöü€𝄞 äö"] {
        let codes = codes_of(&tree_of(text));
        for (a, code_a) in &codes {
            assert!(!code_a.is_empty());
            assert!(code_a.chars().all(|d| d == '0' || d == '1'));
            for (b, code_b) in &codes {
                if a != b {
                    assert!(!code_b.starts_with(code_a.as_str()));
                }
            }
        }
    }
}
