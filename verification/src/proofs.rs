//! What holds of the codec as a whole: a blob that was written decodes to
//! the text it was written from, codes are prefix-free, frequencies add up,
//! and a tree read back has every symbol on the leaf it came from.
use crate::channel::{
    align_up, be_bytes, be_word, bit_at, digit, lemma_align_up, lemma_be_word_of_bytes,
    lemma_pack_bits_bit, pack_bits,
};
use crate::format::{
    blob, decoded, decoded_symbol, decoded_text, joined, parsed_shape, payload, placeholder,
    populated, symbol_bytes, walked,
};
use crate::node::{code_for, Node};
use crate::symbol::is_scalar;
use crate::queue::{all_wf, ordered, symbol_set, total_freq};
use crate::utils::{
    frequencies, leaf_symbols, leaves_of, lemma_occurrences, lemma_parsed_shape_bounds, occurrences,
};
use vstd::prelude::*;

verus! {

/// The bits of `data` from bit `p` on are the digits `s`.
pub open spec fn holds_digits(data: Seq<u8>, p: nat, s: Seq<char>) -> bool {
    &&& p + s.len() <= 8 * data.len()
    &&& forall|i: int| 0 <= i < s.len() ==> bit_at(data, (p + i) as nat) == (#[trigger] s[i] == '1')
}

/// The bytes of `data` from bit `p` on, a byte boundary, are the symbol list
/// `s`.
pub open spec fn holds_symbols(data: Seq<u8>, p: nat, s: Seq<char>) -> bool {
    &&& p % 8 == 0
    &&& p / 8 + 4 * s.len() <= data.len()
    &&& forall|i: int|
        0 <= i < s.len() ==> be_word(data, p as int / 8 + 4 * i) == (#[trigger] s[i]) as u32
}

/// The shape of `t` as a reader sees it before the symbols are filled in:
/// every leaf a placeholder, every frequency zero.
pub open spec fn skeleton(t: Node) -> Node
    decreases t,
{
    match (t.c, t.r, t.l) {
        (None, Some(r), Some(l)) => joined(skeleton(*r), skeleton(*l)),
        _ => placeholder(),
    }
}

/// The tree `t` as a reader has it after the symbols are filled in: the
/// same shape and symbols, every frequency zero.
pub open spec fn stripped(t: Node) -> Node
    decreases t,
{
    match (t.c, t.r, t.l) {
        (None, Some(r), Some(l)) => joined(stripped(*r), stripped(*l)),
        _ => Node { freq: 0, c: t.c, r: None, l: None },
    }
}

/// The tree `t` with the symbols of its leaves replaced by those of `s`, in
/// pre-order, right before left.
pub open spec fn relabeled(t: Node, s: Seq<char>) -> Node
    decreases t,
{
    match (t.c, t.r, t.l) {
        (None, Some(r), Some(l)) => Node {
            freq: t.freq,
            c: None,
            r: Some(Box::new(relabeled(*r, s.take(r.symbols().len() as int)))),
            l: Some(Box::new(relabeled(*l, s.skip(r.symbols().len() as int)))),
        },
        _ => Node { freq: t.freq, c: Some(s[0]), r: t.r, l: t.l },
    }
}

/// The edge path from the root of `t` to the leaf that gives symbol `c` its
/// code: the last leaf in pre-order that carries `c`.
pub open spec fn trail(t: Node, c: char) -> Seq<char>
    decreases t,
{
    match (t.c, t.r, t.l) {
        (None, Some(r), Some(l)) => if l.symbols().contains(c) {
            seq!['0'] + trail(*l, c)
        } else {
            seq!['1'] + trail(*r, c)
        },
        _ => Seq::empty(),
    }
}

/// The code of symbol `c` under tree `t`: the path to its leaf, or the one
/// digit `0` where the tree is a single leaf.
pub open spec fn code_of(t: Node, c: char) -> Seq<char> {
    code_for(trail(t, c))
}

/// Digits held in a row are held one part after the other.
pub proof fn lemma_holds_digits_split(data: Seq<u8>, p: nat, a: Seq<char>, b: Seq<char>)
    requires
        holds_digits(data, p, a + b),
    ensures
        holds_digits(data, p, a),
        holds_digits(data, p + a.len(), b),
{
    let s = a + b;
    assert forall|i: int| 0 <= i < a.len() implies bit_at(data, (p + i) as nat) == (#[trigger] a[i]
        == '1') by {
        assert(s[i] == a[i]);
    }
    assert forall|i: int| 0 <= i < b.len() implies bit_at(data, (p + a.len() + i) as nat) == (
    #[trigger] b[i] == '1') by {
        assert(s[a.len() + i] == b[i]);
    }
}

/// Symbols held in a row are held one part after the other.
pub proof fn lemma_holds_symbols_split(data: Seq<u8>, p: nat, s: Seq<char>, k: int)
    requires
        holds_symbols(data, p, s),
        0 <= k <= s.len(),
    ensures
        holds_symbols(data, p, s.take(k)),
        holds_symbols(data, (p + 32 * k) as nat, s.skip(k)),
{
    assert forall|i: int| 0 <= i < s.take(k).len() implies be_word(data, p as int / 8 + 4 * i) == (
    #[trigger] s.take(k)[i]) as u32 by {
        assert(s.take(k)[i] == s[i]);
    }
    let q = (p + 32 * k) as nat;
    assert forall|i: int| 0 <= i < s.skip(k).len() implies be_word(data, q as int / 8 + 4 * i) == (
    #[trigger] s.skip(k)[i]) as u32 by {
        assert(s.skip(k)[i] == s[k + i]);
        assert(q as int / 8 + 4 * i == p as int / 8 + 4 * (k + i));
    }
}

/// A strictly binary tree has a leaf, and as many shape digits as nodes.
pub proof fn lemma_wf_sizes(t: Node)
    requires
        t.wf(),
    ensures
        t.symbols().len() >= 1,
        t.shape().len() == 2 * t.symbols().len() - 1,
    decreases t,
{
    match (t.c, t.r, t.l) {
        (None, Some(r), Some(l)) => {
            lemma_wf_sizes(*r);
            lemma_wf_sizes(*l);
        },
        _ => {},
    }
}

/// Reading the shape digits of a tree gives its skeleton.
pub proof fn lemma_shape_parses(t: Node, data: Seq<u8>, p: nat)
    requires
        t.wf(),
        holds_digits(data, p, t.shape()),
    ensures
        parsed_shape(data, p) == Some((skeleton(t), (p + t.shape().len()) as nat)),
    decreases t,
{
    let s = t.shape();
    assert(s[0] == '1' <==> t.c is Some);
    assert(bit_at(data, (p + 0) as nat) == (s[0] == '1'));
    match (t.c, t.r, t.l) {
        (None, Some(r), Some(l)) => {
            let head = seq!['0'] + r.shape();
            assert(s =~= head + l.shape());
            lemma_holds_digits_split(data, p, head, l.shape());
            lemma_holds_digits_split(data, p, seq!['0'], r.shape());
            lemma_shape_parses(*r, data, p + 1);
            lemma_wf_sizes(*r);
            lemma_shape_parses(*l, data, p + 1 + r.shape().len());
        },
        _ => {},
    }
}

/// The layout of a blob: where the count, the shape digits, the symbol list
/// and the payload digits lie in its bytes.
pub proof fn lemma_blob_layout(count: u32, shape: Seq<char>, symbols: Seq<char>, digits: Seq<char>)
    ensures
        ({
            let data = blob(count, shape, symbols, digits);
            let list = 4 + (shape.len() + 7) / 8;
            let body = list + 4 * symbols.len();
            &&& data.len() == body + (digits.len() + 7) / 8
            &&& be_word(data, 0) == count
            &&& holds_digits(data, 32, shape)
            &&& holds_symbols(data, 8 * list, symbols)
            &&& holds_digits(data, 8 * body, digits)
        }),
{
    let data = blob(count, shape, symbols, digits);
    let list = 4 + (shape.len() + 7) / 8;
    let body = list + 4 * symbols.len();
    assert(data.subrange(0, 4) =~= be_bytes(count));
    lemma_be_word_of_bytes(data, 0, count);
    assert forall|i: int| 0 <= i < shape.len() implies bit_at(data, (32 + i) as nat) == (
    #[trigger] shape[i] == '1') by {
        lemma_pack_bits_bit(shape, i as nat);
        assert(data[(32 + i) / 8] == pack_bits(shape)[i / 8]);
        assert((32 + i) % 8 == i % 8);
    }
    assert forall|i: int| 0 <= i < symbols.len() implies be_word(
        data,
        (8 * list) as int / 8 + 4 * i,
    ) == (#[trigger] symbols[i]) as u32 by {
        let at = list + 4 * i;
        let word = be_bytes(symbols[i] as u32);
        assert forall|j: int| 0 <= j < 4 implies data.subrange(at, at + 4)[j] == word[j] by {
            assert(data[at + j] == symbol_bytes(symbols)[4 * i + j]);
            assert((4 * i + j) / 4 == i);
            assert((4 * i + j) % 4 == j);
        }
        assert(data.subrange(at, at + 4) =~= word);
        lemma_be_word_of_bytes(data, at, symbols[i] as u32);
    }
    assert forall|i: int| 0 <= i < digits.len() implies bit_at(data, (8 * body + i) as nat) == (
    #[trigger] digits[i] == '1') by {
        lemma_pack_bits_bit(digits, i as nat);
        assert(data[(8 * body + i) / 8] == pack_bits(digits)[i / 8]);
        assert((8 * body + i) % 8 == i % 8);
    }
}

/// The code point of a symbol is a scalar value, and names the symbol.
pub proof fn lemma_code_point(c: char)
    ensures
        is_scalar(c as u32),
        (c as u32) as char == c,
{
}

/// Filling in a tree from a symbol list relabels its leaves with the list,
/// in pre-order, right before left.
pub proof fn lemma_populated_relabels(t: Node, data: Seq<u8>, p: nat, s: Seq<char>)
    requires
        t.wf(),
        s.len() == t.symbols().len(),
        holds_symbols(data, p, s),
    ensures
        populated(t, data, p) == Some((relabeled(t, s), (p + 32 * s.len()) as nat)),
    decreases t,
{
    lemma_align_up(p / 8, 0);
    match (t.c, t.r, t.l) {
        (None, Some(r), Some(l)) => {
            let k = r.symbols().len() as int;
            lemma_holds_symbols_split(data, p, s, k);
            lemma_populated_relabels(*r, data, p, s.take(k));
            lemma_populated_relabels(*l, data, (p + 32 * k) as nat, s.skip(k));
        },
        _ => {
            lemma_wf_sizes(t);
            lemma_code_point(s[0]);
        },
    }
}

/// A relabeled tree carries the new symbols in order, and keeps its shape.
pub proof fn lemma_relabeled(t: Node, s: Seq<char>)
    requires
        t.wf(),
        s.len() == t.symbols().len(),
    ensures
        relabeled(t, s).symbols() == s,
        relabeled(t, s).shape() == t.shape(),
        relabeled(t, s).wf(),
    decreases t,
{
    match (t.c, t.r, t.l) {
        (None, Some(r), Some(l)) => {
            let k = r.symbols().len() as int;
            lemma_relabeled(*r, s.take(k));
            lemma_relabeled(*l, s.skip(k));
            assert(s.take(k) + s.skip(k) =~= s);
        },
        _ => {
            assert(relabeled(t, s).symbols() =~= s);
        },
    }
}

/// The skeleton of a tree, relabeled with the symbols of the tree, is the
/// tree but for its frequencies.
pub proof fn lemma_skeleton_relabeled(t: Node)
    requires
        t.wf(),
    ensures
        skeleton(t).wf(),
        skeleton(t).freq == 0,
        skeleton(t).symbols().len() == t.symbols().len(),
        relabeled(skeleton(t), t.symbols()) == stripped(t),
    decreases t,
{
    match (t.c, t.r, t.l) {
        (None, Some(r), Some(l)) => {
            lemma_skeleton_relabeled(*r);
            lemma_skeleton_relabeled(*l);
            let k = r.symbols().len() as int;
            assert(t.symbols().take(k) =~= r.symbols());
            assert(t.symbols().skip(k) =~= l.symbols());
        },
        _ => {},
    }
}

/// Filling in a strictly binary tree leaves it strictly binary, with the
/// frequencies it had, and takes four bytes from the next byte boundary on
/// for every leaf.
pub proof fn lemma_populated_wf(t: Node, data: Seq<u8>, p: nat)
    requires
        t.wf(),
        populated(t, data, p) is Some,
    ensures
        populated(t, data, p).unwrap().0.wf(),
        populated(t, data, p).unwrap().0.freq == t.freq,
        populated(t, data, p).unwrap().1 == align_up(p) + 32 * t.symbols().len(),
        align_up(p) / 8 + 4 * t.symbols().len() <= data.len(),
    decreases t,
{
    lemma_align_up(0, p);
    match (t.c, t.r, t.l) {
        (None, Some(r), Some(l)) => {
            lemma_populated_wf(*r, data, p);
            let p1 = populated(*r, data, p).unwrap().1;
            lemma_wf_sizes(*r);
            lemma_align_up(align_up(p) / 8 + 4 * r.symbols().len(), 0);
            lemma_populated_wf(*l, data, p1);
        },
        _ => {},
    }
}

/// Leaves get their symbols in the order of the symbol list: a tree filled
/// in from a list carries the symbol at place `n` of the list on the leaf
/// at place `n` in pre-order, right before left, and keeps its shape.
pub proof fn lemma_leaf_order(tree: Node, data: Seq<u8>, p: nat, list: Seq<char>)
    requires
        tree.wf(),
        list.len() == tree.symbols().len(),
        holds_symbols(data, p, list),
    ensures
        populated(tree, data, p) matches Some((filled, end)) && filled.symbols() == list
            && filled.shape() == tree.shape() && filled.wf() && end == p + 32 * list.len(),
{
    lemma_populated_relabels(tree, data, p, list);
    lemma_relabeled(tree, list);
}

/// The symbol list of a tree puts every symbol back on its own leaf: the
/// shape read from the shape digits of `tree`, filled in from the symbols
/// of `tree`, is `tree` but for its frequencies.
pub proof fn lemma_symbols_restored(tree: Node, data: Seq<u8>, p: nat, q: nat)
    requires
        tree.wf(),
        holds_digits(data, p, tree.shape()),
        holds_symbols(data, q, tree.symbols()),
    ensures
        parsed_shape(data, p) matches Some((shape, _)) && populated(shape, data, q) matches Some(
            (filled, _),
        ) && filled == stripped(tree) && filled.symbols() == tree.symbols() && filled.shape()
            == tree.shape(),
{
    lemma_shape_parses(tree, data, p);
    lemma_skeleton_relabeled(tree);
    lemma_populated_relabels(skeleton(tree), data, q, tree.symbols());
    lemma_stripped(tree);
}

/// Frequencies play no part in the symbols and paths of a tree.
pub proof fn lemma_stripped(t: Node)
    requires
        t.wf(),
    ensures
        stripped(t).wf(),
        stripped(t).freq == 0,
        stripped(t).symbols() == t.symbols(),
        stripped(t).shape() == t.shape(),
        stripped(t).c == t.c,
        forall|c: char| #[trigger] trail(stripped(t), c) == trail(t, c),
    decreases t,
{
    match (t.c, t.r, t.l) {
        (None, Some(r), Some(l)) => {
            lemma_stripped(*r);
            lemma_stripped(*l);
            assert forall|c: char| #[trigger] trail(stripped(t), c) == trail(t, c) by {
                assert(trail(stripped(*r), c) == trail(*r, c));
                assert(trail(stripped(*l), c) == trail(*l, c));
            }
        },
        _ => {},
    }
}

/// Whether a symbol is among those of an internal node is whether it is
/// among those of one of the children.
pub proof fn lemma_symbols_of_children(t: Node, c: char)
    requires
        t.c is None,
        t.r is Some,
        t.l is Some,
    ensures
        t.symbols().contains(c) <==> (t.r.unwrap().symbols().contains(c) || t.l.unwrap().symbols().contains(
            c,
        )),
{
    let a = t.r.unwrap().symbols();
    let b = t.l.unwrap().symbols();
    assert(t.symbols() =~= a + b);
    if (a + b).contains(c) {
        let i = choose|i: int| 0 <= i < (a + b).len() && (a + b)[i] == c;
        if i < a.len() {
            assert(a[i] == c);
        } else {
            assert(b[i - a.len()] == c);
        }
    }
    if a.contains(c) {
        let i = choose|i: int| 0 <= i < a.len() && a[i] == c;
        assert((a + b)[i] == c);
    }
    if b.contains(c) {
        let i = choose|i: int| 0 <= i < b.len() && b[i] == c;
        assert((a + b)[a.len() + i] == c);
    }
}

/// The code table holds exactly the symbols of the tree, each with the path
/// to its leaf behind the path to the node.
pub proof fn lemma_codes(t: Node, path: Seq<char>)
    requires
        t.wf(),
    ensures
        forall|c: char| t.codes(path).contains_key(c) <==> t.symbols().contains(c),
        forall|c: char| #[trigger]
            t.symbols().contains(c) ==> t.codes(path)[c] == code_for(path + trail(t, c)),
    decreases t,
{
    match (t.c, t.r, t.l) {
        (None, Some(r), Some(l)) => {
            lemma_codes(*r, path.push('1'));
            lemma_codes(*l, path.push('0'));
            assert forall|c: char| t.codes(path).contains_key(c) <==> t.symbols().contains(c) by {
                lemma_symbols_of_children(t, c);
            }
            assert forall|c: char| #[trigger] t.symbols().contains(c) implies t.codes(path)[c]
                == code_for(path + trail(t, c)) by {
                lemma_symbols_of_children(t, c);
                if l.symbols().contains(c) {
                    assert(path.push('0') + trail(*l, c) =~= path + trail(t, c));
                } else {
                    assert(path.push('1') + trail(*r, c) =~= path + trail(t, c));
                }
            }
        },
        _ => {
            let own = t.c.unwrap();
            assert(t.symbols() =~= seq![own]);
            assert forall|c: char| t.codes(path).contains_key(c) <==> t.symbols().contains(c) by {
                if c == own {
                    assert(t.symbols()[0] == c);
                }
            }
            assert(path + Seq::<char>::empty() =~= path);
        },
    }
}

/// The code table of a whole tree gives every symbol of the tree its code.
pub proof fn lemma_code_table(t: Node)
    requires
        t.wf(),
    ensures
        t.codes(Seq::empty()).dom() == t.symbols().to_set(),
        forall|c: char| #[trigger]
            t.symbols().contains(c) ==> t.codes(Seq::empty())[c] == code_of(t, c),
{
    lemma_codes(t, Seq::empty());
    assert forall|c: char| #[trigger] t.symbols().contains(c) implies t.codes(Seq::empty())[c]
        == code_of(t, c) by {
        assert(Seq::<char>::empty() + trail(t, c) =~= trail(t, c));
    }
    assert(t.codes(Seq::empty()).dom() =~= t.symbols().to_set());
}

/// A walk steered by the path to the leaf of a symbol ends on that symbol.
pub proof fn lemma_walk(t: Node, c: char, data: Seq<u8>, p: nat)
    requires
        t.wf(),
        t.symbols().contains(c),
        holds_digits(data, p, trail(t, c)),
    ensures
        walked(t, data, p) == Some((c, (p + trail(t, c).len()) as nat)),
    decreases t,
{
    match (t.c, t.r, t.l) {
        (None, Some(r), Some(l)) => {
            lemma_symbols_of_children(t, c);
            let path = trail(t, c);
            assert(bit_at(data, (p + 0) as nat) == (path[0] == '1'));
            if l.symbols().contains(c) {
                lemma_holds_digits_split(data, p, seq!['0'], trail(*l, c));
                lemma_walk(*l, c, data, p + 1);
            } else {
                lemma_holds_digits_split(data, p, seq!['1'], trail(*r, c));
                lemma_walk(*r, c, data, p + 1);
            }
        },
        _ => {
            let i = choose|i: int| 0 <= i < t.symbols().len() && t.symbols()[i] == c;
            assert(t.symbols()[i] == t.c.unwrap());
        },
    }
}

/// The bit position after `count` symbols were decoded with tree `t` from
/// bit `p` of `data` on. `None` where the bits run out first.
pub open spec fn text_end(t: Node, data: Seq<u8>, p: nat, count: nat) -> Option<nat>
    decreases count,
{
    if count == 0 {
        Some(p)
    } else {
        match decoded_symbol(t, data, p) {
            None => None,
            Some((_, p1)) => text_end(t, data, p1, (count - 1) as nat),
        }
    }
}

/// Decoding the codes of a text, one after the other, gives the text, and
/// ends behind the last code.
pub proof fn lemma_text_decodes(t: Node, text: Seq<char>, data: Seq<u8>, p: nat)
    requires
        t.wf(),
        forall|i: int| 0 <= i < text.len() ==> t.symbols().contains(#[trigger] text[i]),
        holds_digits(data, p, payload(t.codes(Seq::empty()), text)),
    ensures
        decoded_text(t, data, p, text.len()) == Some(text),
        text_end(t, data, p, text.len()) == Some(
            (p + payload(t.codes(Seq::empty()), text).len()) as nat,
        ),
    decreases text.len(),
{
    if text.len() > 0 {
        let c = text[0];
        let rest = text.drop_first();
        let code = t.codes(Seq::empty())[c];
        lemma_code_table(t);
        assert(t.symbols().contains(c));
        assert(code == code_of(t, c));
        lemma_holds_digits_split(data, p, code, payload(t.codes(Seq::empty()), rest));
        match t.c {
            Some(own) => {
                let i = choose|i: int| 0 <= i < t.symbols().len() && t.symbols()[i] == c;
                assert(t.symbols()[i] == own);
            },
            None => {
                lemma_walk(t, c, data, p);
            },
        }
        assert(decoded_symbol(t, data, p) == Some((c, (p + code.len()) as nat)));
        assert forall|i: int| 0 <= i < rest.len() implies t.symbols().contains(
            #[trigger] rest[i],
        ) by {
            assert(rest[i] == text[i + 1]);
        }
        lemma_text_decodes(t, rest, data, (p + code.len()) as nat);
        assert(seq![c] + rest =~= text);
    }
}

/// A reader gets back the text from data that hold, in the places of the
/// blob layout, the length of the text, the shape and the symbols of a tree
/// that carries the symbols of the text, and the codes of the text.
pub proof fn lemma_reads_back(tree: Node, text: Seq<char>, data: Seq<u8>)
    requires
        tree.wf(),
        text.len() <= u32::MAX,
        forall|i: int| 0 <= i < text.len() ==> tree.symbols().contains(#[trigger] text[i]),
        data.len() >= 4,
        be_word(data, 0) == text.len(),
        holds_digits(data, 32, tree.shape()),
        holds_symbols(data, (8 * (4 + (tree.shape().len() + 7) / 8)) as nat, tree.symbols()),
        holds_digits(
            data,
            (8 * (4 + (tree.shape().len() + 7) / 8 + 4 * tree.symbols().len())) as nat,
            payload(tree.codes(Seq::empty()), text),
        ),
    ensures
        decoded(data, 0) == Some(text),
{
    let table = tree.codes(Seq::empty());
    let list = (4 + (tree.shape().len() + 7) / 8) as nat;
    let body = (list + 4 * tree.symbols().len()) as nat;
    let p1 = (32 + tree.shape().len()) as nat;
    let read = stripped(tree);
    lemma_align_up(0, 0);
    lemma_align_up(4, tree.shape().len());
    assert(align_up(0) == 0 && align_up(p1) == 8 * list);
    assert(parsed_shape(data, 32) == Some((skeleton(tree), p1))) by {
        lemma_shape_parses(tree, data, 32);
    }
    assert(populated(skeleton(tree), data, 8 * list) == Some((read, 8 * body))) by {
        lemma_skeleton_relabeled(tree);
        lemma_populated_relabels(skeleton(tree), data, 8 * list, tree.symbols());
    }
    assert(decoded_text(read, data, 8 * body, text.len()) == Some(text)) by {
        lemma_stripped(tree);
        lemma_stripped_payload(tree, text);
        lemma_text_decodes(read, text, data, 8 * body);
    }
}

/// A text has the same digits under a tree and under the tree without its
/// frequencies.
pub proof fn lemma_stripped_payload(tree: Node, text: Seq<char>)
    requires
        tree.wf(),
        forall|i: int| 0 <= i < text.len() ==> tree.symbols().contains(#[trigger] text[i]),
    ensures
        payload(stripped(tree).codes(Seq::empty()), text) == payload(
            tree.codes(Seq::empty()),
            text,
        ),
{
    let read = stripped(tree);
    lemma_stripped(tree);
    lemma_code_table(tree);
    lemma_code_table(read);
    assert forall|i: int| 0 <= i < text.len() implies read.codes(Seq::empty())[#[trigger] text[i]]
        == tree.codes(Seq::empty())[text[i]] by {
        assert(read.symbols().contains(text[i]));
        assert(trail(read, text[i]) == trail(tree, text[i]));
    }
    lemma_payload_same(read.codes(Seq::empty()), tree.codes(Seq::empty()), text);
}

/// A reader gets back the text from which a blob was written: for every
/// strictly binary tree that carries the symbols of the text, the blob made
/// of the length of the text, the shape and the symbols of the tree, and the
/// codes of the text under the code table of the tree decodes to the text.
pub proof fn lemma_round_trip(tree: Node, text: Seq<char>)
    requires
        tree.wf(),
        text.len() <= u32::MAX,
        forall|i: int| 0 <= i < text.len() ==> tree.symbols().contains(#[trigger] text[i]),
    ensures
        decoded(
            blob(
                text.len() as u32,
                tree.shape(),
                tree.symbols(),
                payload(tree.codes(Seq::empty()), text),
            ),
            0,
        ) == Some(text),
{
    let digits = payload(tree.codes(Seq::empty()), text);
    let data = blob(text.len() as u32, tree.shape(), tree.symbols(), digits);
    lemma_blob_layout(text.len() as u32, tree.shape(), tree.symbols(), digits);
    lemma_reads_back(tree, text, data);
}

/// A shape that parses from the first bytes of some data parses from all of
/// the data, to the same tree.
pub proof fn lemma_parsed_shape_extends(data: Seq<u8>, k: int, p: nat)
    requires
        0 <= k <= data.len(),
        parsed_shape(data.take(k), p) is Some,
    ensures
        parsed_shape(data, p) == parsed_shape(data.take(k), p),
    decreases 8 * k - p,
{
    let cut = data.take(k);
    assert(cut[p as int / 8] == data[p as int / 8]);
    if !bit_at(cut, p) {
        lemma_parsed_shape_extends(data, k, p + 1);
        lemma_parsed_shape_bounds(cut, p + 1);
        let p1 = parsed_shape(cut, p + 1).unwrap().1;
        lemma_parsed_shape_extends(data, k, p1);
    }
}

/// Digits and symbols held by data are held by every beginning of the data
/// that reaches behind them.
pub proof fn lemma_held_in_cut(data: Seq<u8>, k: int, p: nat, digits: Seq<char>, q: nat, list: Seq<char>)
    requires
        0 <= k <= data.len(),
        holds_digits(data, p, digits),
        p + digits.len() <= 8 * k,
        holds_symbols(data, q, list),
        q / 8 + 4 * list.len() <= k,
    ensures
        holds_digits(data.take(k), p, digits),
        holds_symbols(data.take(k), q, list),
{
    let cut = data.take(k);
    assert forall|i: int| 0 <= i < digits.len() implies bit_at(cut, (p + i) as nat) == (
    #[trigger] digits[i] == '1') by {
        assert(cut[(p + i) / 8] == data[(p + i) / 8]);
    }
    assert forall|i: int| 0 <= i < list.len() implies be_word(cut, q as int / 8 + 4 * i) == (
    #[trigger] list[i]) as u32 by {
        let at = q as int / 8 + 4 * i;
        assert(cut[at] == data[at] && cut[at + 1] == data[at + 1] && cut[at + 2] == data[at + 2]
            && cut[at + 3] == data[at + 3]);
    }
}

/// A walk that comes to a leaf within the first bytes of some data comes to
/// the same leaf within all of the data, and stays within the first bytes
/// if it takes a bit at all.
pub proof fn lemma_walked_extends(t: Node, data: Seq<u8>, k: int, p: nat)
    requires
        0 <= k <= data.len(),
        walked(t, data.take(k), p) is Some,
    ensures
        walked(t, data, p) == walked(t, data.take(k), p),
        t.c is None ==> walked(t, data, p).unwrap().1 <= 8 * k,
    decreases t,
{
    let cut = data.take(k);
    if t.c is None {
        assert(cut[p as int / 8] == data[p as int / 8]);
        let child = if bit_at(cut, p) {
            t.r
        } else {
            t.l
        };
        lemma_walked_extends(*child.unwrap(), data, k, p + 1);
    }
}

/// A text that decodes from the first bytes of some data ends within them.
pub proof fn lemma_text_extends(t: Node, data: Seq<u8>, k: int, p: nat, count: nat)
    requires
        0 <= k <= data.len(),
        p <= 8 * k,
        decoded_text(t, data.take(k), p, count) is Some,
    ensures
        text_end(t, data, p, count) is Some,
        text_end(t, data, p, count).unwrap() <= 8 * k,
    decreases count,
{
    if count > 0 {
        let cut = data.take(k);
        if t.c is None {
            lemma_walked_extends(t, data, k, p);
        }
        let p1 = decoded_symbol(t, cut, p).unwrap().1;
        assert(decoded_symbol(t, data, p) == decoded_symbol(t, cut, p));
        lemma_text_extends(t, data, k, p1, (count - 1) as nat);
    }
}

/// A blob that was cut short does not decode: of the blob written for a
/// text and a strictly binary tree that carries its symbols, no beginning
/// but the whole decodes to anything.
pub proof fn lemma_truncated(tree: Node, text: Seq<char>, k: int)
    requires
        tree.wf(),
        text.len() <= u32::MAX,
        forall|i: int| 0 <= i < text.len() ==> tree.symbols().contains(#[trigger] text[i]),
        0 <= k < blob(
            text.len() as u32,
            tree.shape(),
            tree.symbols(),
            payload(tree.codes(Seq::empty()), text),
        ).len(),
    ensures
        decoded(
            blob(
                text.len() as u32,
                tree.shape(),
                tree.symbols(),
                payload(tree.codes(Seq::empty()), text),
            ).take(k),
            0,
        ) is None,
{
    let digits = payload(tree.codes(Seq::empty()), text);
    let data = blob(text.len() as u32, tree.shape(), tree.symbols(), digits);
    lemma_blob_layout(text.len() as u32, tree.shape(), tree.symbols(), digits);
    lemma_cut_fails(tree, text, data, k);
}

/// `lemma_truncated`, of any data that hold what a blob holds in the places
/// of the blob layout.
proof fn lemma_cut_fails(tree: Node, text: Seq<char>, data: Seq<u8>, k: int)
    requires
        tree.wf(),
        text.len() <= u32::MAX,
        forall|i: int| 0 <= i < text.len() ==> tree.symbols().contains(#[trigger] text[i]),
        0 <= k < data.len(),
        data.len() == 4 + (tree.shape().len() + 7) / 8 + 4 * tree.symbols().len() + (payload(
            tree.codes(Seq::empty()),
            text,
        ).len() + 7) / 8,
        be_word(data, 0) == text.len(),
        holds_digits(data, 32, tree.shape()),
        holds_symbols(data, (8 * (4 + (tree.shape().len() + 7) / 8)) as nat, tree.symbols()),
        holds_digits(
            data,
            (8 * (4 + (tree.shape().len() + 7) / 8 + 4 * tree.symbols().len())) as nat,
            payload(tree.codes(Seq::empty()), text),
        ),
    ensures
        decoded(data.take(k), 0) is None,
{
    let digits = payload(tree.codes(Seq::empty()), text);
    let cut = data.take(k);
    let list = (4 + (tree.shape().len() + 7) / 8) as nat;
    let body = (list + 4 * tree.symbols().len()) as nat;
    let p1 = (32 + tree.shape().len()) as nat;
    let read = stripped(tree);
    lemma_align_up(0, 0);
    lemma_align_up(4, tree.shape().len());
    lemma_align_up(list, 0);
    lemma_skeleton_relabeled(tree);
    if k >= 4 && parsed_shape(cut, 32) is Some {
        assert(parsed_shape(cut, 32) == Some((skeleton(tree), p1)) && p1 <= 8 * k) by {
            lemma_parsed_shape_extends(data, k, 32);
            lemma_shape_parses(tree, data, 32);
            lemma_parsed_shape_bounds(cut, 32);
        }
        if populated(skeleton(tree), cut, 8 * list) is Some {
            assert(k >= body) by {
                lemma_populated_wf(skeleton(tree), cut, 8 * list);
            }
            assert(populated(skeleton(tree), cut, 8 * list) == Some((read, 8 * body))) by {
                lemma_held_in_cut(data, k, 32, tree.shape(), 8 * list, tree.symbols());
                lemma_populated_relabels(skeleton(tree), cut, 8 * list, tree.symbols());
            }
            assert(cut[0] == data[0] && cut[1] == data[1] && cut[2] == data[2] && cut[3]
                == data[3]);
            if decoded_text(read, cut, 8 * body, text.len()) is Some {
                lemma_stripped(tree);
                lemma_stripped_payload(tree, text);
                lemma_text_extends(read, data, k, 8 * body, text.len());
                lemma_text_decodes(read, text, data, 8 * body);
                assert(8 * body + digits.len() <= 8 * k);
                assert(false);
            }
        }
    }
}

/// The digits of a text depend on the code table only through the codes of
/// the symbols of the text.
pub proof fn lemma_payload_same(a: Map<char, Seq<char>>, b: Map<char, Seq<char>>, text: Seq<char>)
    requires
        forall|i: int| 0 <= i < text.len() ==> a[#[trigger] text[i]] == b[text[i]],
    ensures
        payload(a, text) == payload(b, text),
    decreases text.len(),
{
    if text.len() > 0 {
        let rest = text.drop_first();
        assert forall|i: int| 0 <= i < rest.len() implies a[#[trigger] rest[i]] == b[rest[i]] by {
            assert(rest[i] == text[i + 1]);
        }
        lemma_payload_same(a, b, rest);
        assert(a[text[0]] == b[text[0]]);
    }
}

/// No path to the leaf of one symbol runs on into the path to the leaf of
/// another.
pub proof fn lemma_trail_prefix(t: Node, a: char, b: char)
    requires
        t.wf(),
        t.symbols().contains(a),
        t.symbols().contains(b),
        trail(t, a).is_prefix_of(trail(t, b)),
    ensures
        a == b,
    decreases t,
{
    match (t.c, t.r, t.l) {
        (None, Some(r), Some(l)) => {
            lemma_symbols_of_children(t, a);
            lemma_symbols_of_children(t, b);
            let ta = trail(t, a);
            let tb = trail(t, b);
            assert(ta[0] == tb.subrange(0, ta.len() as int)[0]);
            let child = if l.symbols().contains(a) {
                *l
            } else {
                *r
            };
            let ca = trail(child, a);
            let cb = trail(child, b);
            assert(ca.len() <= cb.len());
            assert forall|i: int| 0 <= i < ca.len() implies ca[i] == cb.subrange(
                0,
                ca.len() as int,
            )[i] by {
                assert(ca[i] == ta[i + 1]);
                assert(ta[i + 1] == tb.subrange(0, ta.len() as int)[i + 1]);
            }
            assert(ca =~= cb.subrange(0, ca.len() as int));
            lemma_trail_prefix(child, a, b);
        },
        _ => {
            let own = t.c.unwrap();
            let i = choose|i: int| 0 <= i < t.symbols().len() && t.symbols()[i] == a;
            let j = choose|j: int| 0 <= j < t.symbols().len() && t.symbols()[j] == b;
            assert(t.symbols()[i] == own && t.symbols()[j] == own);
        },
    }
}

/// Codes are prefix-free: in the code table of a strictly binary tree, the
/// code of one symbol is never a prefix of the code of another.
pub proof fn lemma_prefix_free(tree: Node, a: char, b: char)
    requires
        tree.wf(),
        tree.codes(Seq::empty()).contains_key(a),
        tree.codes(Seq::empty()).contains_key(b),
        a != b,
    ensures
        !tree.codes(Seq::empty())[a].is_prefix_of(tree.codes(Seq::empty())[b]),
{
    lemma_code_table(tree);
    assert(tree.symbols().to_set().contains(a) && tree.symbols().to_set().contains(b));
    if tree.c is None {
        if trail(tree, a).is_prefix_of(trail(tree, b)) {
            lemma_trail_prefix(tree, a, b);
        }
    } else {
        lemma_trail_prefix(tree, a, b);
    }
}

/// The sum of the counts that `table` holds for `keys`.
pub open spec fn count_sum(table: Map<char, u32>, keys: Seq<char>) -> nat
    decreases keys.len(),
{
    if keys.len() == 0 {
        0
    } else {
        table[keys[0]] as nat + count_sum(table, keys.drop_first())
    }
}

/// How often the symbols `keys` occur in `text`, all together.
pub open spec fn occurrence_sum(text: Seq<char>, keys: Seq<char>) -> nat
    decreases keys.len(),
{
    if keys.len() == 0 {
        0
    } else {
        occurrences(text, keys[0]) + occurrence_sum(text, keys.drop_first())
    }
}

/// One more symbol of text adds one occurrence if it is among the keys.
proof fn lemma_occurrence_sum_step(text: Seq<char>, keys: Seq<char>)
    requires
        text.len() > 0,
        keys.no_duplicates(),
    ensures
        occurrence_sum(text, keys) == occurrence_sum(text.drop_last(), keys) + (if keys.contains(
            text.last(),
        ) {
            1nat
        } else {
            0nat
        }),
    decreases keys.len(),
{
    if keys.len() > 0 {
        let rest = keys.drop_first();
        assert forall|i: int, j: int| 0 <= i < rest.len() && 0 <= j < rest.len() && i != j implies rest[i]
            != rest[j] by {
            assert(rest[i] == keys[i + 1] && rest[j] == keys[j + 1]);
        }
        lemma_occurrence_sum_step(text, rest);
        let x = text.last();
        if rest.contains(x) {
            let i = choose|i: int| 0 <= i < rest.len() && rest[i] == x;
            assert(keys[i + 1] == x);
        }
        if keys.contains(x) {
            let i = choose|i: int| 0 <= i < keys.len() && keys[i] == x;
            if i > 0 {
                assert(rest[i - 1] == x);
            }
        }
        if keys[0] == x {
            assert(keys.contains(x));
        }
    }
}

/// Keys without duplicates that cover a text occur in it as often as the
/// text is long.
pub proof fn lemma_occurrence_sum(text: Seq<char>, keys: Seq<char>)
    requires
        keys.no_duplicates(),
        forall|i: int| 0 <= i < text.len() ==> keys.contains(#[trigger] text[i]),
    ensures
        occurrence_sum(text, keys) == text.len(),
    decreases text.len(),
{
    if text.len() == 0 {
        assert(text =~= Seq::<char>::empty());
        lemma_occurrence_sum_empty(keys);
    } else {
        let front = text.drop_last();
        assert forall|i: int| 0 <= i < front.len() implies keys.contains(#[trigger] front[i]) by {
            assert(front[i] == text[i]);
        }
        lemma_occurrence_sum(front, keys);
        lemma_occurrence_sum_step(text, keys);
        assert(keys.contains(text[text.len() - 1]));
    }
}

/// Nothing occurs in the empty text.
proof fn lemma_occurrence_sum_empty(keys: Seq<char>)
    ensures
        occurrence_sum(Seq::empty(), keys) == 0,
    decreases keys.len(),
{
    if keys.len() > 0 {
        lemma_occurrence_sum_empty(keys.drop_first());
    }
}

/// The counts of a frequency table are the occurrences in the text.
proof fn lemma_count_sum_occurrences(text: Seq<char>, keys: Seq<char>)
    requires
        text.len() <= u32::MAX,
        forall|i: int| 0 <= i < keys.len() ==> text.contains(#[trigger] keys[i]),
    ensures
        count_sum(frequencies(text), keys) == occurrence_sum(text, keys),
    decreases keys.len(),
{
    if keys.len() > 0 {
        let rest = keys.drop_first();
        assert forall|i: int| 0 <= i < rest.len() implies text.contains(#[trigger] rest[i]) by {
            assert(rest[i] == keys[i + 1]);
        }
        lemma_count_sum_occurrences(text, rest);
        lemma_occurrences(text, keys[0]);
        assert(text.contains(keys[0]));
    }
}

/// Frequencies add up: the keys of the frequency table of a text are the
/// symbols that occur in it, and the counts, each key taken once, sum to the
/// length of the text.
pub proof fn lemma_frequencies_add_up(text: Seq<char>, keys: Seq<char>)
    requires
        text.len() <= u32::MAX,
        keys.no_duplicates(),
        keys.to_set() == frequencies(text).dom(),
    ensures
        frequencies(text).dom() == text.to_set(),
        count_sum(frequencies(text), keys) == text.len(),
{
    assert(frequencies(text).dom() =~= text.to_set());
    assert forall|i: int| 0 <= i < keys.len() implies text.contains(#[trigger] keys[i]) by {
        assert(keys.contains(keys[i]));
        assert(keys.to_set().contains(keys[i]));
    }
    assert forall|i: int| 0 <= i < text.len() implies keys.contains(#[trigger] text[i]) by {
        assert(text.contains(text[i]));
        assert(keys.to_set().contains(text[i]));
    }
    lemma_count_sum_occurrences(text, keys);
    lemma_occurrence_sum(text, keys);
}

/// The leaves made of a frequency table: their frequencies sum to the sum of
/// the counts, their symbols are the keys, and each is a tree of its own.
pub proof fn lemma_leaves(q: Seq<Node>, table: Map<char, u32>)
    requires
        leaves_of(q, table),
    ensures
        total_freq(q) == count_sum(table, leaf_symbols(q)),
        symbol_set(q) == table.dom(),
        all_wf(q),
    decreases q.len(),
{
    assert forall|c: char| symbol_set(q).contains(c) <==> leaf_symbols(q).to_set().contains(c) by {
        if symbol_set(q).contains(c) {
            let i = choose|i: int| 0 <= i < q.len() && #[trigger] q[i].symbols().contains(c);
            let j = choose|j: int| 0 <= j < q[i].symbols().len() && q[i].symbols()[j] == c;
            assert(q[i].c is Some);
            assert(leaf_symbols(q)[i] == c);
        }
        if leaf_symbols(q).contains(c) {
            let i = choose|i: int| 0 <= i < leaf_symbols(q).len() && leaf_symbols(q)[i] == c;
            assert(q[i].c is Some);
            assert(q[i].symbols()[0] == c);
            assert(q[i].symbols().contains(c));
        }
    }
    assert(symbol_set(q) =~= table.dom());
    assert forall|i: int| 0 <= i < q.len() implies (#[trigger] q[i]).wf() by {
        assert(q[i].c is Some);
    }
    lemma_leaf_frequencies(q, table);
}

/// The frequencies of leaves that carry the counts of a table sum to the sum
/// of the counts.
proof fn lemma_leaf_frequencies(q: Seq<Node>, table: Map<char, u32>)
    requires
        forall|i: int|
            0 <= i < q.len() ==> (#[trigger] q[i]).c is Some && q[i].freq == table[q[i].c.unwrap()],
    ensures
        total_freq(q) == count_sum(table, leaf_symbols(q)),
    decreases q.len(),
{
    if q.len() > 0 {
        let rest = q.drop_first();
        assert forall|i: int| 0 <= i < rest.len() implies (#[trigger] rest[i]).c is Some
            && rest[i].freq == table[rest[i].c.unwrap()] by {
            assert(rest[i] == q[i + 1]);
        }
        lemma_leaf_frequencies(rest, table);
        assert(leaf_symbols(rest) =~= leaf_symbols(q).drop_first());
        assert(q[0].c is Some);
    }
}

/// Two lists of the leaves of one table, both in order, agree up to place
/// `i` where no two symbols of the table have the same count.
proof fn lemma_same_leaves_to(a: Seq<Node>, b: Seq<Node>, table: Map<char, u32>, i: int)
    requires
        leaves_of(a, table),
        leaves_of(b, table),
        ordered(a),
        ordered(b),
        forall|x: char, y: char|
            table.contains_key(x) && table.contains_key(y) && x != y ==> table[x] != table[y],
        0 <= i < a.len(),
        a.len() == b.len(),
    ensures
        forall|j: int| 0 <= j <= i ==> a[j] == b[j],
    decreases i,
{
    if i > 0 {
        lemma_same_leaves_to(a, b, table, i - 1);
    }
    let sa = leaf_symbols(a);
    let sb = leaf_symbols(b);
    let x = a[i].c.unwrap();
    let y = b[i].c.unwrap();
    assert(sa[i] == x && sb[i] == y);
    assert(sa.to_set().contains(x) && sb.to_set().contains(y));
    assert(sb.to_set().contains(x) && sa.to_set().contains(y));
    let m = choose|m: int| 0 <= m < sb.len() && sb[m] == x;
    let n = choose|n: int| 0 <= n < sa.len() && sa[n] == y;
    assert(b[m].c == Some(x) && a[n].c == Some(y));
    if m < i {
        assert(a[m] == b[m]);
        assert(sa[m] == sa[i]);
    }
    if n < i {
        assert(a[n] == b[n]);
        assert(sb[n] == sb[i]);
    }
    if m > i {
        assert(sb[m] != sb[i]);
        assert(b[i].freq <= b[m].freq);
        assert(a[i].freq <= a[n].freq);
    }
    assert(m == i);
    assert(a[i].c == b[i].c);
}

/// Where no two symbols of a frequency table have the same count, the table
/// has one list of leaves in ascending order of frequency, and so one tree.
pub proof fn lemma_ordered_leaves_unique(a: Seq<Node>, b: Seq<Node>, table: Map<char, u32>)
    requires
        leaves_of(a, table),
        leaves_of(b, table),
        ordered(a),
        ordered(b),
        forall|x: char, y: char|
            table.contains_key(x) && table.contains_key(y) && x != y ==> table[x] != table[y],
    ensures
        a == b,
{
    leaf_symbols(a).unique_seq_to_set();
    leaf_symbols(b).unique_seq_to_set();
    if a.len() > 0 {
        lemma_same_leaves_to(a, b, table, a.len() - 1);
    }
    assert(a =~= b);
}

} // verus!
