use fxhash::FxHashMap;
use huffman::node::Node;
use huffman::utils::{count_characters, get_leaves};

#[test]
fn test_counting() {
    let map = count_characters(&"mmmmaao".to_string());
    assert_eq!(4, map.get(&'m').unwrap().clone());
    assert_eq!(2, map.get(&'a').unwrap().clone());
    assert_eq!(1, map.get(&'o').unwrap().clone());
    assert!(map.get(&'f').is_none());
}

#[test]
fn counting_the_empty_text_gives_an_empty_table() {
    let map = count_characters(&String::new());
    assert!(map.is_empty());
}

#[test]
fn counts_sum_to_the_length_of_the_text() {
    let text = "the quick brown fox jumps over the lazy dog, twice: the quick brown fox".to_string();
    let map = count_characters(&text);
    let sum: u32 = map.values().sum();
    assert_eq!(text.chars().count() as u32, sum);
    for c in text.chars() {
        assert!(map.contains_key(&c));
    }
    for k in map.keys() {
        assert!(text.contains(*k));
        assert_eq!(text.chars().filter(|c| c == k).count() as u32, map[k]);
    }
}

#[test]
fn counting_takes_symbols_not_bytes() {
    let map = count_characters(&"ééé€€a".to_string());
    assert_eq!(3, map.len());
    assert_eq!(3, map[&'é']);
    assert_eq!(2, map[&'€']);
    assert_eq!(1, map[&'a']);
}

#[test]
fn leaves_come_in_ascending_order_of_frequency() {
    let map = count_characters(&"mmmmaao".to_string());
    let leaves = get_leaves(map);
    assert_eq!(
        vec![Node::leaf('o', 1), Node::leaf('a', 2), Node::leaf('m', 4)],
        leaves
    );
}

#[test]
fn leaves_carry_every_symbol_once() {
    let map = count_characters(&"ll tt oo aa".to_string());
    let leaves = get_leaves(map);
    assert_eq!(5, leaves.len());
    let mut symbols: Vec<char> = leaves.iter().map(|n| n.c.unwrap()).collect();
    symbols.sort();
    assert_eq!(vec![' ', 'a', 'l', 'o', 't'], symbols);
    for pair in leaves.windows(2) {
        assert!(pair[0].freq <= pair[1].freq);
    }
    for leaf in &leaves {
        assert!(leaf.r.is_none());
        assert!(leaf.l.is_none());
        assert_eq!(if leaf.c == Some(' ') { 3 } else { 2 }, leaf.freq);
    }
}

#[test]
fn leaves_of_an_empty_table_are_none() {
    let map: FxHashMap<char, u32> = FxHashMap::default();
    assert!(get_leaves(map).is_empty());
}
