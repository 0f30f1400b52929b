//! The steps of coding and decoding: counting, building the tree, writing
//! the blob, and reading the tree shape back.
use crate::channel::{
    align_up, be_bytes, bit_at, buffer_bytes, grown, lemma_align_up, lemma_pack_bits_push, mask,
    next_bit, pack_bits, read_cursor, write_cursor,
};
use crate::error::HuffmanError;
use crate::format::{blob, joined, parsed_shape, payload, symbol_bytes};
use crate::node::{code_view, Node};
use crate::queue::{
    all_wf, filled, lemma_inserted_ordered, lemma_slot, lemma_symbol_set_insert,
    lemma_symbol_set_merge, lemma_total_freq_bounds, lemma_total_freq_insert, merged, ordered,
    queue_push, slot, symbol_set, total_freq,
};
use crate::table::{table_get, table_insert, table_keys};
use bytebuffer::ByteBuffer;
use fxhash::FxHashMap;
use vstd::prelude::*;

verus! {

/// How often `c` occurs in `text`.
pub open spec fn occurrences(text: Seq<char>, c: char) -> nat
    decreases text.len(),
{
    if text.len() == 0 {
        0
    } else {
        occurrences(text.drop_last(), c) + (if text.last() == c {
            1nat
        } else {
            0nat
        })
    }
}

/// The frequency table of `text`: each symbol that occurs in it, with the
/// number of its occurrences.
pub open spec fn frequencies(text: Seq<char>) -> Map<char, u32> {
    Map::new(|c: char| text.contains(c), |c: char| occurrences(text, c) as u32)
}

/// A symbol occurs at most as often as the text is long, and at least once
/// exactly if the text contains it.
pub proof fn lemma_occurrences(text: Seq<char>, c: char)
    ensures
        occurrences(text, c) <= text.len(),
        text.contains(c) <==> occurrences(text, c) > 0,
    decreases text.len(),
{
    if text.len() > 0 {
        let front = text.drop_last();
        lemma_occurrences(front, c);
        if text.contains(c) {
            let i = choose|i: int| 0 <= i < text.len() && text[i] == c;
            if i < front.len() {
                assert(front[i] == c);
            }
        }
        if front.contains(c) {
            let i = choose|i: int| 0 <= i < front.len() && front[i] == c;
            assert(text[i] == c);
        }
        if text.last() == c {
            assert(text[text.len() - 1] == c);
        }
    }
}

/// The frequency table of a text with one more symbol.
pub proof fn lemma_frequencies_push(text: Seq<char>, c: char)
    requires
        text.len() < u32::MAX,
    ensures
        frequencies(text.push(c)) == frequencies(text).insert(
            c,
            if frequencies(text).contains_key(c) {
                (frequencies(text)[c] + 1) as u32
            } else {
                1u32
            },
        ),
{
    let more = text.push(c);
    assert(more.drop_last() =~= text);
    assert forall|x: char| more.contains(x) <==> (text.contains(x) || x == c) by {
        lemma_occurrences(more, x);
        lemma_occurrences(text, x);
    }
    lemma_occurrences(text, c);
    assert(frequencies(more) =~= frequencies(text).insert(
        c,
        if frequencies(text).contains_key(c) {
            (frequencies(text)[c] + 1) as u32
        } else {
            1u32
        },
    ));
}

/// Counts how often each symbol occurs in `contents`.
pub fn count_characters(contents: &String) -> (map: FxHashMap<char, u32>)
    requires
        contents@.len() <= u32::MAX,
    ensures
        map@ == frequencies(contents@),
{
    let mut map: FxHashMap<char, u32> = FxHashMap::default();
    assert(map@ =~= frequencies(contents@.take(0)));
    for c in it: contents.as_str().chars()
        invariant
            it.seq() == contents@,
            contents@.len() <= u32::MAX,
            map@ == frequencies(contents@.take(it.index() as int)),
    {
        let ghost seen = contents@.take(it.index() as int);
        proof {
            lemma_frequencies_push(seen, c);
            lemma_occurrences(seen, c);
            assert(contents@.take(it.index() + 1) =~= seen.push(c));
        }
        let count = match table_get(&map, c) {
            Some(n) => *n + 1,
            None => 1,
        };
        table_insert(&mut map, c, count);
    }
    assert(contents@.take(contents@.len() as int) =~= contents@);
    map
}

/// The symbols of a list of leaves, in the order of the list.
pub open spec fn leaf_symbols(q: Seq<Node>) -> Seq<char> {
    Seq::new(q.len(), |i: int| q[i].c.unwrap())
}

/// `q` lists the entries of a frequency table as leaves: every node is a
/// leaf that carries a symbol of the table with its frequency, no two carry
/// the same symbol, and every symbol of the table is carried.
pub open spec fn leaves_of(q: Seq<Node>, table: Map<char, u32>) -> bool {
    &&& forall|i: int|
        0 <= i < q.len() ==> (#[trigger] q[i]).c is Some && q[i].r is None && q[i].l is None
            && table.contains_key(q[i].c.unwrap()) && q[i].freq == table[q[i].c.unwrap()]
    &&& leaf_symbols(q).no_duplicates()
    &&& leaf_symbols(q).to_set() == table.dom()
}

/// Putting a new element into a sequence without duplicates leaves it
/// without duplicates and adds the element to its set.
pub proof fn lemma_insert_fresh<A>(s: Seq<A>, k: int, a: A)
    requires
        0 <= k <= s.len(),
        s.no_duplicates(),
        !s.contains(a),
    ensures
        s.insert(k, a).no_duplicates(),
        s.insert(k, a).to_set() == s.to_set().insert(a),
{
    let r = s.insert(k, a);
    assert forall|i: int, j: int| 0 <= i < r.len() && 0 <= j < r.len() && i != j implies r[i]
        != r[j] by {
        let x = if i < k {
            i
        } else {
            i - 1
        };
        let y = if j < k {
            j
        } else {
            j - 1
        };
        if i == k {
            assert(r[j] == s[y]);
        } else if j == k {
            assert(r[i] == s[x]);
        } else {
            assert(r[i] == s[x] && r[j] == s[y]);
        }
    }
    assert forall|x: A| r.to_set().contains(x) <==> s.to_set().insert(a).contains(x) by {
        if r.contains(x) {
            let i = choose|i: int| 0 <= i < r.len() && r[i] == x;
            if i < k {
                assert(s[i] == x);
            } else if i > k {
                assert(s[i - 1] == x);
            }
        }
        if s.contains(x) {
            let i = choose|i: int| 0 <= i < s.len() && s[i] == x;
            if i < k {
                assert(r[i] == x);
            } else {
                assert(r[i + 1] == x);
            }
        }
        if x == a {
            assert(r[k] == x);
        }
    }
    assert(r.to_set() =~= s.to_set().insert(a));
}

/// Makes a leaf of every entry of the frequency table and lists the leaves
/// in ascending order of frequency. The order among leaves of one frequency
/// is the order in which the table hands out its keys.
pub fn get_leaves(map: FxHashMap<char, u32>) -> (leaves: Vec<Node>)
    ensures
        leaves_of(leaves@, map@),
        ordered(leaves@),
{
    let mut leaves: Vec<Node> = Vec::new();
    let keys = table_keys(&map);
    let mut i: usize = 0;
    assert(leaf_symbols(leaves@).to_set() =~= keys@.take(0).to_set());
    while i < keys.len()
        invariant
            i <= keys.len(),
            keys@.no_duplicates(),
            keys@.to_set() == map@.dom(),
            ordered(leaves@),
            forall|j: int|
                0 <= j < leaves@.len() ==> (#[trigger] leaves@[j]).c is Some && leaves@[j].r is None
                    && leaves@[j].l is None && map@.contains_key(leaves@[j].c.unwrap())
                    && leaves@[j].freq == map@[leaves@[j].c.unwrap()],
            leaf_symbols(leaves@).no_duplicates(),
            leaf_symbols(leaves@).to_set() == keys@.take(i as int).to_set(),
        decreases keys.len() - i,
    {
        let k = keys[i];
        assert(keys@.contains(k));
        assert(map@.dom().contains(k));
        let freq = match table_get(&map, k) {
            Some(n) => *n,
            None => 0,
        };
        let ghost before = leaves@;
        let node = Node::leaf(k, freq);
        queue_push(&mut leaves, node);
        proof {
            let at = slot(before, freq);
            lemma_slot(before, freq);
            lemma_inserted_ordered(before, node);
            let seen = keys@.take(i as int);
            if seen.contains(k) {
                let j = choose|j: int| 0 <= j < seen.len() && seen[j] == k;
                assert(keys@[j] == keys@[i as int]);
            }
            assert(!leaf_symbols(before).contains(k)) by {
                if leaf_symbols(before).contains(k) {
                    assert(leaf_symbols(before).to_set().contains(k));
                    assert(seen.to_set().contains(k));
                }
            }
            assert(leaf_symbols(leaves@) =~= leaf_symbols(before).insert(at, k));
            lemma_insert_fresh(leaf_symbols(before), at, k);
            assert(keys@.take(i + 1) =~= seen.insert(i as int, k));
            lemma_insert_fresh(seen, i as int, k);
            assert forall|j: int| 0 <= j < leaves@.len() implies (#[trigger] leaves@[j]).c is Some
                && leaves@[j].r is None && leaves@[j].l is None && map@.contains_key(
                leaves@[j].c.unwrap(),
            ) && leaves@[j].freq == map@[leaves@[j].c.unwrap()] by {
                if j < at {
                    assert(leaves@[j] == before[j]);
                } else if j > at {
                    assert(leaves@[j] == before[j - 1]);
                }
            }
        }
        i += 1;
    }
    assert(keys@.take(keys@.len() as int) =~= keys@);
    leaves
}

/// Builds the code tree: every node of `leaves` joins a priority queue
/// ordered by frequency; then, for as long as the queue holds two trees, the
/// two least frequent leave it, the first as right and the second as left
/// child of a new node, which joins the queue. What is left is the root, or
/// nothing where `leaves` is empty.
pub fn get_heap(leaves: Vec<Node>) -> (heap: Vec<Node>)
    requires
        total_freq(leaves@) <= u32::MAX,
    ensures
        heap@ == merged(filled(Seq::empty(), leaves@)),
        heap@.len() == (if leaves@.len() == 0 {
            0nat
        } else {
            1nat
        }),
        total_freq(heap@) == total_freq(leaves@),
        symbol_set(heap@) == symbol_set(leaves@),
        all_wf(leaves@) ==> all_wf(heap@),
{
    let mut heap: Vec<Node> = Vec::new();
    let ghost all = leaves@;
    assert(all.skip(0) =~= all);
    assert(all.take(0) =~= heap@);
    for node in it: leaves
        invariant
            it.seq() == all,
            heap@.len() == it.index(),
            ordered(heap@),
            filled(heap@, all.skip(it.index() as int)) == filled(Seq::empty(), all),
            total_freq(heap@) == total_freq(all.take(it.index() as int)),
            symbol_set(heap@) == symbol_set(all.take(it.index() as int)),
            all_wf(all) ==> all_wf(heap@),
    {
        let ghost i = it.index() as int;
        let ghost before = heap@;
        queue_push(&mut heap, node);
        proof {
            let k = slot(before, node.freq);
            lemma_slot(before, node.freq);
            lemma_inserted_ordered(before, node);
            assert(all.skip(i).drop_first() =~= all.skip(i + 1));
            assert(all.take(i + 1) =~= all.take(i).insert(i, node));
            lemma_total_freq_insert(before, k, node);
            lemma_total_freq_insert(all.take(i), i, node);
            lemma_symbol_set_insert(before, k, node);
            lemma_symbol_set_insert(all.take(i), i, node);
            if all_wf(all) {
                assert(all[i].wf());
                assert forall|j: int| 0 <= j < heap@.len() implies (#[trigger] heap@[j]).wf() by {
                    if j < k {
                        assert(heap@[j] == before[j]);
                    } else if j > k {
                        assert(heap@[j] == before[j - 1]);
                    }
                }
            }
        }
    }
    assert(all.take(all.len() as int) =~= all);
    assert(all.skip(all.len() as int) =~= Seq::<Node>::empty());
    while heap.len() > 1
        invariant
            ordered(heap@),
            merged(heap@) == merged(filled(Seq::empty(), all)),
            all.len() > 0 ==> heap@.len() > 0,
            all.len() == 0 ==> heap@.len() == 0,
            total_freq(heap@) == total_freq(all),
            total_freq(all) <= u32::MAX,
            symbol_set(heap@) == symbol_set(all),
            all_wf(all) ==> all_wf(heap@),
        decreases heap.len(),
    {
        let ghost before = heap@;
        proof {
            lemma_total_freq_bounds(before);
        }
        let right = heap.remove(0);
        let left = heap.remove(0);
        assert(heap@ =~= before.skip(2));
        let new_node = Node::node(Some(right), Some(left));
        assert(new_node == joined(before[0], before[1]));
        let ghost rest = heap@;
        queue_push(&mut heap, new_node);
        proof {
            let k = slot(rest, new_node.freq);
            lemma_slot(rest, new_node.freq);
            assert(ordered(rest)) by {
                assert forall|i: int, j: int| 0 <= i <= j < rest.len() implies rest[i].freq
                    <= rest[j].freq by {
                    assert(rest[i] == before[i + 2] && rest[j] == before[j + 2]);
                }
            }
            lemma_inserted_ordered(rest, new_node);
            lemma_total_freq_insert(rest, k, new_node);
            lemma_symbol_set_merge(before, k);
            if all_wf(all) {
                assert(before[0].wf() && before[1].wf());
                assert(new_node.wf());
                assert forall|j: int| 0 <= j < heap@.len() implies (#[trigger] heap@[j]).wf() by {
                    if j < k {
                        assert(heap@[j] == rest[j]);
                        assert(rest[j] == before[j + 2]);
                    } else if j > k {
                        assert(heap@[j] == rest[j - 1]);
                        assert(rest[j - 1] == before[j + 1]);
                    }
                }
            }
        }
    }
    heap
}

/// The pad of the blob format: three calls of `flush_bit`, which leave each
/// cursor on the first byte boundary at or after where it stood.
pub fn pad(byte_buffer: &mut ByteBuffer)
    ensures
        buffer_bytes(*final(byte_buffer)) == buffer_bytes(*old(byte_buffer)),
        read_cursor(*final(byte_buffer)) == align_up(read_cursor(*old(byte_buffer))),
        write_cursor(*final(byte_buffer)) == align_up(write_cursor(*old(byte_buffer))),
{
    proof {
        lemma_align_up(0, read_cursor(*byte_buffer));
        lemma_align_up(0, write_cursor(*byte_buffer));
    }
    byte_buffer.flush_bit();
    byte_buffer.flush_bit();
    byte_buffer.flush_bit();
}

/// What `write_bit` does to a buffer that holds `head` followed by the
/// packed digits `s`, with the write cursor behind the last digit: the
/// buffer then holds `head` followed by the packed digits `s` and `c`.
pub proof fn lemma_write_digit(head: Seq<u8>, s: Seq<char>, c: char)
    ensures
        head + pack_bits(s.push(c)) == ({
            let cursor = 8 * head.len() + s.len();
            let w = cursor as int / 8;
            let d = grown(head + pack_bits(s), w + 1);
            if c == '1' {
                d.update(w, d[w] | mask(cursor % 8))
            } else {
                d
            }
        }),
{
    lemma_pack_bits_push(s, c);
    let cursor = 8 * head.len() + s.len();
    let w = cursor as int / 8;
    let v = s.len() as int / 8;
    assert(w == head.len() + v);
    assert(cursor % 8 == s.len() % 8);
    let d = grown(head + pack_bits(s), w + 1);
    let e = grown(pack_bits(s), v + 1);
    assert(d =~= head + e);
    if c == '1' {
        assert(d.update(w, d[w] | mask(cursor % 8)) =~= head + e.update(
            v,
            e[v] | mask(s.len() % 8),
        ));
    }
}

/// What `write_u32` does to a buffer whose write cursor stands at its end:
/// the four bytes of the word are appended.
pub proof fn lemma_write_word(data: Seq<u8>, v: u32)
    ensures
        data + be_bytes(v) == ({
            let w = data.len() as int;
            let d = grown(data, w + 4);
            d.subrange(0, w) + be_bytes(v) + d.subrange(w + 4, d.len() as int)
        }),
{
    let w = data.len() as int;
    let d = grown(data, w + 4);
    assert(d.subrange(0, w) =~= data);
    assert(d.subrange(w + 4, d.len() as int) =~= Seq::<u8>::empty());
    assert(data + be_bytes(v) =~= d.subrange(0, w) + be_bytes(v) + d.subrange(
        w + 4,
        d.len() as int,
    ));
}

/// The symbol list of a list with one more symbol.
pub proof fn lemma_symbol_bytes_push(s: Seq<char>, c: char)
    ensures
        symbol_bytes(s.push(c)) == symbol_bytes(s) + be_bytes(c as u32),
{
    let a = symbol_bytes(s.push(c));
    let b = symbol_bytes(s) + be_bytes(c as u32);
    assert(a.len() == b.len());
    assert forall|j: int| 0 <= j < a.len() implies a[j] == b[j] by {
        if j < 4 * s.len() {
            assert(s.push(c)[j / 4] == s[j / 4]);
        } else {
            assert(j / 4 == s.len());
            assert(j % 4 == j - 4 * s.len());
        }
    }
    assert(a =~= b);
}

/// The digits of a text with one more symbol.
pub proof fn lemma_payload_push(codes: Map<char, Seq<char>>, text: Seq<char>, c: char)
    ensures
        payload(codes, text.push(c)) == payload(codes, text) + codes[c],
    decreases text.len(),
{
    let more = text.push(c);
    if text.len() == 0 {
        assert(more.drop_first() =~= Seq::<char>::empty());
        assert(payload(codes, Seq::<char>::empty()) =~= Seq::<char>::empty());
        assert(more[0] == c);
        assert(payload(codes, more) =~= codes[c]);
        assert(payload(codes, text) + codes[c] =~= codes[c]);
    } else {
        assert(more.drop_first() =~= text.drop_first().push(c));
        lemma_payload_push(codes, text.drop_first(), c);
        assert(payload(codes, more) =~= payload(codes, text) + codes[c]);
    }
}

/// Writes the blob: the number of symbols of `contents`, the shape digits
/// `binary_string`, a pad, the symbols `characters`, the code of every symbol
/// of `contents` as `codes` gives it, and a pad. A digit is written as a one
/// bit where it is `'1'` and as a zero bit otherwise. Fails where a symbol of
/// `contents` has no code.
pub fn encode_contents(
    binary_string: &String,
    characters: &String,
    contents: &String,
    codes: FxHashMap<char, String>,
) -> (r: Result<ByteBuffer, HuffmanError>)
    requires
        contents@.len() <= u32::MAX,
    ensures
        r is Err <==> exists|i: int|
            0 <= i < contents@.len() && !codes@.contains_key(#[trigger] contents@[i]),
        r is Err ==> r == Err::<ByteBuffer, HuffmanError>(HuffmanError::UnmappedSymbol),
        r matches Ok(b) ==> buffer_bytes(b) == blob(
            contents@.len() as u32,
            binary_string@,
            characters@,
            payload(code_view(codes@), contents@),
        ) && read_cursor(b) == 0 && write_cursor(b) == 8 * buffer_bytes(b).len(),
{
    let mut byte_buffer: ByteBuffer = ByteBuffer::new();
    let count = contents.as_str().unicode_len();
    proof {
        lemma_align_up(0, 0);
        lemma_write_word(Seq::<u8>::empty(), count as u32);
    }
    byte_buffer.write_u32(count as u32);
    let ghost head = be_bytes(count as u32);
    assert(buffer_bytes(byte_buffer) =~= head + pack_bits(binary_string@.take(0)));

    for bit in it: binary_string.as_str().chars()
        invariant
            it.seq() == binary_string@,
            head.len() == 4,
            buffer_bytes(byte_buffer) == head + pack_bits(binary_string@.take(it.index() as int)),
            write_cursor(byte_buffer) == 8 * head.len() + it.index(),
            read_cursor(byte_buffer) == 0,
    {
        proof {
            let seen = binary_string@.take(it.index() as int);
            lemma_write_digit(head, seen, bit);
            assert(binary_string@.take(it.index() + 1) =~= seen.push(bit));
        }
        byte_buffer.write_bit(bit == '1');
    }
    assert(binary_string@.take(binary_string@.len() as int) =~= binary_string@);
    proof {
        lemma_align_up(head.len(), binary_string@.len());
        lemma_align_up(0, 0);
    }
    pad(&mut byte_buffer);

    let ghost head = head + pack_bits(binary_string@);
    assert(buffer_bytes(byte_buffer) =~= head + symbol_bytes(characters@.take(0)));
    for c in it: characters.as_str().chars()
        invariant
            it.seq() == characters@,
            buffer_bytes(byte_buffer) == head + symbol_bytes(characters@.take(it.index() as int)),
            write_cursor(byte_buffer) == 8 * buffer_bytes(byte_buffer).len(),
            read_cursor(byte_buffer) == 0,
    {
        proof {
            let seen = characters@.take(it.index() as int);
            lemma_align_up(buffer_bytes(byte_buffer).len(), 0);
            lemma_align_up(0, 0);
            lemma_write_word(buffer_bytes(byte_buffer), c as u32);
            lemma_symbol_bytes_push(seen, c);
            assert(characters@.take(it.index() + 1) =~= seen.push(c));
        }
        byte_buffer.write_u32(c as u32);
    }
    assert(characters@.take(characters@.len() as int) =~= characters@);

    let ghost head = head + symbol_bytes(characters@);
    let ghost table = code_view(codes@);
    assert(buffer_bytes(byte_buffer) =~= head + pack_bits(payload(table, contents@.take(0))));
    for c in it: contents.as_str().chars()
        invariant
            it.seq() == contents@,
            table == code_view(codes@),
            buffer_bytes(byte_buffer) == head + pack_bits(
                payload(table, contents@.take(it.index() as int)),
            ),
            write_cursor(byte_buffer) == 8 * head.len() + payload(
                table,
                contents@.take(it.index() as int),
            ).len(),
            read_cursor(byte_buffer) == 0,
            forall|i: int| 0 <= i < it.index() ==> codes@.contains_key(#[trigger] contents@[i]),
    {
        let ghost seen = contents@.take(it.index() as int);
        let ghost done = payload(table, seen);
        let bits = match table_get(&codes, c) {
            Some(code) => code,
            None => {
                assert(!codes@.contains_key(contents@[it.index() as int]));
                return Err(HuffmanError::UnmappedSymbol);
            },
        };
        assert(done + bits@.take(0) =~= done);
        for bit in inner: bits.as_str().chars()
            invariant
                inner.seq() == bits@,
                buffer_bytes(byte_buffer) == head + pack_bits(done + bits@.take(inner.index() as int)),
                write_cursor(byte_buffer) == 8 * head.len() + done.len() + inner.index(),
                read_cursor(byte_buffer) == 0,
        {
            proof {
                let part = done + bits@.take(inner.index() as int);
                lemma_write_digit(head, part, bit);
                assert(done + bits@.take(inner.index() + 1) =~= part.push(bit));
            }
            byte_buffer.write_bit(bit == '1');
        }
        proof {
            assert(bits@.take(bits@.len() as int) =~= bits@);
            lemma_payload_push(table, seen, c);
            assert(contents@.take(it.index() + 1) =~= seen.push(c));
        }
    }
    assert(contents@.take(contents@.len() as int) =~= contents@);
    proof {
        lemma_align_up(head.len(), payload(table, contents@).len());
        lemma_align_up(0, 0);
    }
    pad(&mut byte_buffer);
    assert(buffer_bytes(byte_buffer) =~= blob(
        contents@.len() as u32,
        binary_string@,
        characters@,
        payload(table, contents@),
    ));
    Ok(byte_buffer)
}

/// A parsed shape ends after where it starts and inside the data; it is
/// strictly binary, and its frequency is zero.
pub proof fn lemma_parsed_shape_bounds(data: Seq<u8>, p: nat)
    requires
        parsed_shape(data, p) is Some,
    ensures
        p < parsed_shape(data, p).unwrap().1 <= 8 * data.len(),
        parsed_shape(data, p).unwrap().0.freq == 0,
        parsed_shape(data, p).unwrap().0.wf(),
    decreases 8 * data.len() - p,
{
    if !bit_at(data, p) {
        lemma_parsed_shape_bounds(data, p + 1);
        let p1 = parsed_shape(data, p + 1).unwrap().1;
        lemma_parsed_shape_bounds(data, p1);
    }
}

/// Reads a tree shape from `byte_buffer`: a one bit is a leaf, still without
/// its symbol, a zero bit an internal node followed by its right and then
/// its left subtree. Fails where the buffer ends before the shape does.
pub fn rebuild_tree(byte_buffer: &mut ByteBuffer) -> (r: Result<Node, HuffmanError>)
    ensures
        buffer_bytes(*final(byte_buffer)) == buffer_bytes(*old(byte_buffer)),
        write_cursor(*final(byte_buffer)) == write_cursor(*old(byte_buffer)),
        match r {
            Ok(tree) => parsed_shape(
                buffer_bytes(*old(byte_buffer)),
                read_cursor(*old(byte_buffer)),
            ) == Some((tree, read_cursor(*final(byte_buffer)))),
            Err(e) => e == HuffmanError::Corrupt && parsed_shape(
                buffer_bytes(*old(byte_buffer)),
                read_cursor(*old(byte_buffer)),
            ) is None,
        },
    decreases 8 * buffer_bytes(*old(byte_buffer)).len() - read_cursor(*old(byte_buffer)),
{
    let ghost data = buffer_bytes(*byte_buffer);
    let ghost p = read_cursor(*byte_buffer);
    let leaf = match next_bit(byte_buffer) {
        Some(bit) => bit,
        None => {
            return Err(HuffmanError::Corrupt);
        },
    };
    if leaf {
        return Ok(Node::leaf(0 as char, 0));
    }
    let right = match rebuild_tree(byte_buffer) {
        Ok(tree) => tree,
        Err(e) => {
            return Err(e);
        },
    };
    proof {
        lemma_parsed_shape_bounds(data, p + 1);
    }
    let ghost p1 = read_cursor(*byte_buffer);
    let left = match rebuild_tree(byte_buffer) {
        Ok(tree) => tree,
        Err(e) => {
            return Err(e);
        },
    };
    proof {
        lemma_parsed_shape_bounds(data, p1);
    }
    Ok(Node::node(Some(right), Some(left)))
}

} // verus!
