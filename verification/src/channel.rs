//! The bit channel: what this crate relies on from `bytebuffer::ByteBuffer`,
//! and the arithmetic of bits and bytes built on it.
//!
//! Nothing in the first half of this file is proved. The buffer is an opaque
//! value to the verifier; three names stand for its state, and each method
//! that the codec calls has a contract over them, written after the method's
//! source in bytebuffer 0.2.1.
use bytebuffer::ByteBuffer;
use vstd::prelude::*;

verus! {

/// `bytebuffer::ByteBuffer`, of which the verifier sees nothing but the
/// three names below.
#[verifier::external_type_specification]
#[verifier::external_body]
pub struct ExByteBuffer(ByteBuffer);

/// The bytes held by the buffer, first byte first (its private `data`).
pub uninterp spec fn buffer_bytes(b: ByteBuffer) -> Seq<u8>;

/// The read cursor counted in bits from the start of the buffer: eight times
/// the byte index `rpos`, plus the number `rbit` (0 to 7) of bits already
/// taken from that byte.
pub uninterp spec fn read_cursor(b: ByteBuffer) -> nat;

/// The write cursor counted in bits from the start of the buffer: eight times
/// the byte index `wpos`, plus the number `wbit` (0 to 7) of bits already
/// put into that byte.
pub uninterp spec fn write_cursor(b: ByteBuffer) -> nat;

/// The first byte boundary at or after bit position `p`.
pub open spec fn align_up(p: nat) -> nat {
    ((p + 7) / 8 * 8) as nat
}

/// The byte with only bit `k` set, bit 0 being the most significant.
pub open spec fn mask(k: nat) -> u8 {
    0x80u8 >> (k as u8)
}

/// Bit `p` of `data`, counting from the most significant bit of byte 0.
pub open spec fn bit_at(data: Seq<u8>, p: nat) -> bool {
    data[(p / 8) as int] & mask(p % 8) != 0
}

/// `n` zero bytes.
pub open spec fn zeros(n: int) -> Seq<u8> {
    Seq::new(n as nat, |i: int| 0u8)
}

/// `data`, lengthened with zero bytes to `size` bytes if it is shorter.
pub open spec fn grown(data: Seq<u8>, size: int) -> Seq<u8> {
    if size > data.len() {
        data + zeros(size - data.len())
    } else {
        data
    }
}

/// The four bytes of `v`, most significant first.
pub open spec fn be_bytes(v: u32) -> Seq<u8> {
    seq![
        (v / 0x100_0000) as u8,
        (v / 0x1_0000 % 0x100) as u8,
        (v / 0x100 % 0x100) as u8,
        (v % 0x100) as u8,
    ]
}

/// The 32-bit word whose four bytes, most significant first, start at byte
/// `i` of `data`.
pub open spec fn be_word(data: Seq<u8>, i: int) -> u32 {
    (data[i] * 0x100_0000 + data[i + 1] * 0x1_0000 + data[i + 2] * 0x100 + data[i + 3]) as u32
}

/// `ByteBuffer::new`: an empty buffer with both cursors at its start.
pub assume_specification[ ByteBuffer::new ]() -> (b: ByteBuffer)
    ensures
        buffer_bytes(b) == Seq::<u8>::empty(),
        read_cursor(b) == 0,
        write_cursor(b) == 0,
;

/// `ByteBuffer::len`: the number of bytes held.
pub assume_specification[ ByteBuffer::len ](b: &ByteBuffer) -> (n: usize)
    ensures
        n == buffer_bytes(*b).len(),
;

/// `ByteBuffer::get_rpos`: the index of the byte that the read cursor is in.
pub assume_specification[ ByteBuffer::get_rpos ](b: &ByteBuffer) -> (rpos: usize)
    ensures
        rpos == read_cursor(*b) / 8,
;

/// `ByteBuffer::flush_bit`: moves each cursor that stands inside a byte to the
/// start of the next byte; the bytes stay as they are.
pub assume_specification[ ByteBuffer::flush_bit ](b: &mut ByteBuffer)
    ensures
        buffer_bytes(*final(b)) == buffer_bytes(*old(b)),
        read_cursor(*final(b)) == align_up(read_cursor(*old(b))),
        write_cursor(*final(b)) == align_up(write_cursor(*old(b))),
;

/// `ByteBuffer::read_bit`: the bit under the read cursor, which then moves on
/// by one bit. The method indexes the byte under the cursor, so that byte has
/// to exist.
pub assume_specification[ ByteBuffer::read_bit ](b: &mut ByteBuffer) -> (bit: bool)
    requires
        read_cursor(*old(b)) / 8 < buffer_bytes(*old(b)).len(),
    ensures
        bit == bit_at(buffer_bytes(*old(b)), read_cursor(*old(b))),
        buffer_bytes(*final(b)) == buffer_bytes(*old(b)),
        read_cursor(*final(b)) == read_cursor(*old(b)) + 1,
        write_cursor(*final(b)) == write_cursor(*old(b)),
;

/// `ByteBuffer::read_u8`: flushes both cursors as `flush_bit` does, then
/// hands out the byte under the read cursor and moves the cursor past it.
/// The method asserts that the byte exists.
pub assume_specification[ ByteBuffer::read_u8 ](b: &mut ByteBuffer) -> (v: u8)
    requires
        align_up(read_cursor(*old(b))) / 8 < buffer_bytes(*old(b)).len(),
    ensures
        v == buffer_bytes(*old(b))[align_up(read_cursor(*old(b))) as int / 8],
        buffer_bytes(*final(b)) == buffer_bytes(*old(b)),
        read_cursor(*final(b)) == align_up(read_cursor(*old(b))) + 8,
        write_cursor(*final(b)) == align_up(write_cursor(*old(b))),
;

/// `ByteBuffer::write_bit`: makes sure that the byte under the write cursor
/// exists (new bytes are zero), sets the bit under the cursor if `bit` is
/// true and leaves it alone otherwise, then moves the write cursor on by one
/// bit.
pub assume_specification[ ByteBuffer::write_bit ](b: &mut ByteBuffer, bit: bool)
    ensures
        buffer_bytes(*final(b)) == ({
            let w = write_cursor(*old(b)) as int / 8;
            let d = grown(buffer_bytes(*old(b)), w + 1);
            if bit {
                d.update(w, d[w] | mask(write_cursor(*old(b)) % 8))
            } else {
                d
            }
        }),
        write_cursor(*final(b)) == write_cursor(*old(b)) + 1,
        read_cursor(*final(b)) == read_cursor(*old(b)),
;

/// `ByteBuffer::write_u32`: flushes both cursors as `flush_bit` does, makes
/// sure that four bytes exist from the write cursor on (new bytes are zero),
/// overwrites them with `val`, most significant byte first, and moves the
/// write cursor past them.
pub assume_specification[ ByteBuffer::write_u32 ](b: &mut ByteBuffer, val: u32)
    ensures
        buffer_bytes(*final(b)) == ({
            let w = align_up(write_cursor(*old(b))) as int / 8;
            let d = grown(buffer_bytes(*old(b)), w + 4);
            d.subrange(0, w) + be_bytes(val) + d.subrange(w + 4, d.len() as int)
        }),
        write_cursor(*final(b)) == align_up(write_cursor(*old(b))) + 32,
        read_cursor(*final(b)) == align_up(read_cursor(*old(b))),
;

/// Reads the next bit, if the buffer holds one more: `None` where the read
/// cursor stands at or behind the end of the bytes.
pub fn next_bit(b: &mut ByteBuffer) -> (r: Option<bool>)
    ensures
        buffer_bytes(*final(b)) == buffer_bytes(*old(b)),
        write_cursor(*final(b)) == write_cursor(*old(b)),
        match r {
            Some(bit) => read_cursor(*old(b)) < 8 * buffer_bytes(*old(b)).len() && bit == bit_at(
                buffer_bytes(*old(b)),
                read_cursor(*old(b)),
            ) && read_cursor(*final(b)) == read_cursor(*old(b)) + 1,
            None => read_cursor(*old(b)) >= 8 * buffer_bytes(*old(b)).len() && read_cursor(
                *final(b),
            ) == read_cursor(*old(b)),
        },
{
    if b.get_rpos() >= b.len() {
        None
    } else {
        Some(b.read_bit())
    }
}

/// Reads the next 32-bit word, most significant byte first, from the next
/// byte boundary on, if the buffer holds four more bytes there: `None` where
/// it does not. Both cursors move to their next byte boundary either way.
///
/// The word is put together from four single bytes: `ByteBuffer::read_u32`
/// of bytebuffer 0.2.1 reads it through a pointer that wants the bytes
/// aligned in memory, which no caller can see to.
pub fn next_word(b: &mut ByteBuffer) -> (r: Option<u32>)
    ensures
        buffer_bytes(*final(b)) == buffer_bytes(*old(b)),
        write_cursor(*final(b)) == align_up(write_cursor(*old(b))),
        match r {
            Some(v) => align_up(read_cursor(*old(b))) / 8 + 4 <= buffer_bytes(*old(b)).len() && v
                == be_word(buffer_bytes(*old(b)), align_up(read_cursor(*old(b))) as int / 8)
                && read_cursor(*final(b)) == align_up(read_cursor(*old(b))) + 32,
            None => align_up(read_cursor(*old(b))) / 8 + 4 > buffer_bytes(*old(b)).len()
                && read_cursor(*final(b)) == align_up(read_cursor(*old(b))),
        },
{
    proof {
        lemma_align_up(0, read_cursor(*b));
        lemma_align_up(0, write_cursor(*b));
        lemma_align_up(align_up(read_cursor(*b)) / 8 + 1, 0);
        lemma_align_up(align_up(read_cursor(*b)) / 8 + 2, 0);
        lemma_align_up(align_up(read_cursor(*b)) / 8 + 3, 0);
    }
    b.flush_bit();
    let len = b.len();
    if len < 4 || b.get_rpos() > len - 4 {
        return None;
    }
    let b0: u32 = b.read_u8() as u32;
    let b1: u32 = b.read_u8() as u32;
    let b2: u32 = b.read_u8() as u32;
    let b3: u32 = b.read_u8() as u32;
    Some(b0 * 0x100_0000 + b1 * 0x1_0000 + b2 * 0x100 + b3)
}

/// Whether digit `i` of `s` is a one. Any character but `'1'`, and any index
/// outside `s`, counts as zero.
pub open spec fn digit(s: Seq<char>, i: int) -> bool {
    0 <= i < s.len() && s[i] == '1'
}

/// The byte that has bit `k` set if `b` holds, and no other bit.
pub open spec fn bit_value(b: bool, k: nat) -> u8 {
    if b {
        mask(k)
    } else {
        0u8
    }
}

/// The byte made of the eight digits of `s` from index `base` on, the first
/// digit in the most significant bit.
pub open spec fn packed_byte(s: Seq<char>, base: int) -> u8 {
    bit_value(digit(s, base), 0) | bit_value(digit(s, base + 1), 1) | bit_value(
        digit(s, base + 2),
        2,
    ) | bit_value(digit(s, base + 3), 3) | bit_value(digit(s, base + 4), 4) | bit_value(
        digit(s, base + 5),
        5,
    ) | bit_value(digit(s, base + 6), 6) | bit_value(digit(s, base + 7), 7)
}

/// The digits of `s` packed eight to a byte, first digit first; the last byte
/// is filled up with zero bits.
pub open spec fn pack_bits(s: Seq<char>) -> Seq<u8> {
    Seq::new(((s.len() + 7) / 8) as nat, |i: int| packed_byte(s, 8 * i))
}

/// Bit `j` of a packed byte is the digit it was made from.
pub proof fn lemma_packed_byte_bit(s: Seq<char>, base: int, j: nat)
    requires
        j < 8,
    ensures
        (packed_byte(s, base) & mask(j) != 0) == digit(s, base + j),
{
    let b0 = digit(s, base);
    let b1 = digit(s, base + 1);
    let b2 = digit(s, base + 2);
    let b3 = digit(s, base + 3);
    let b4 = digit(s, base + 4);
    let b5 = digit(s, base + 5);
    let b6 = digit(s, base + 6);
    let b7 = digit(s, base + 7);
    let k = j as u8;
    assert(((if b0 { 0x80u8 >> 0u8 } else { 0u8 }) | (if b1 { 0x80u8 >> 1u8 } else { 0u8 }) | (if b2 {
        0x80u8 >> 2u8
    } else {
        0u8
    }) | (if b3 { 0x80u8 >> 3u8 } else { 0u8 }) | (if b4 { 0x80u8 >> 4u8 } else { 0u8 }) | (if b5 {
        0x80u8 >> 5u8
    } else {
        0u8
    }) | (if b6 { 0x80u8 >> 6u8 } else { 0u8 }) | (if b7 { 0x80u8 >> 7u8 } else { 0u8 })) & (0x80u8
        >> k) != 0 <==> (k == 0 && b0 || k == 1 && b1 || k == 2 && b2 || k == 3 && b3 || k == 4 && b4
        || k == 5 && b5 || k == 6 && b6 || k == 7 && b7)) by (bit_vector)
        requires
            k < 8,
    ;
}

/// Setting bit `k` of a packed byte gives the byte packed from the same
/// digits with digit `k` turned into a one.
pub proof fn lemma_packed_byte_set(s: Seq<char>, t: Seq<char>, base: int, k: nat)
    requires
        k < 8,
        forall|i: int| base <= i < base + 8 ==> #[trigger] digit(t, i) == (digit(s, i) || i == base + k),
    ensures
        packed_byte(t, base) == packed_byte(s, base) | mask(k),
{
    let b0 = digit(s, base);
    let b1 = digit(s, base + 1);
    let b2 = digit(s, base + 2);
    let b3 = digit(s, base + 3);
    let b4 = digit(s, base + 4);
    let b5 = digit(s, base + 5);
    let b6 = digit(s, base + 6);
    let b7 = digit(s, base + 7);
    assert(digit(t, base + 0) == (b0 || 0 == k));
    assert(digit(t, base + 1) == (b1 || 1 == k));
    assert(digit(t, base + 2) == (b2 || 2 == k));
    assert(digit(t, base + 3) == (b3 || 3 == k));
    assert(digit(t, base + 4) == (b4 || 4 == k));
    assert(digit(t, base + 5) == (b5 || 5 == k));
    assert(digit(t, base + 6) == (b6 || 6 == k));
    assert(digit(t, base + 7) == (b7 || 7 == k));
    let k = k as u8;
    assert(((if b0 || k == 0 { 0x80u8 >> 0u8 } else { 0u8 }) | (if b1 || k == 1 { 0x80u8 >> 1u8 } else {
        0u8
    }) | (if b2 || k == 2 { 0x80u8 >> 2u8 } else { 0u8 }) | (if b3 || k == 3 { 0x80u8 >> 3u8 } else {
        0u8
    }) | (if b4 || k == 4 { 0x80u8 >> 4u8 } else { 0u8 }) | (if b5 || k == 5 { 0x80u8 >> 5u8 } else {
        0u8
    }) | (if b6 || k == 6 { 0x80u8 >> 6u8 } else { 0u8 }) | (if b7 || k == 7 { 0x80u8 >> 7u8 } else {
        0u8
    })) == ((if b0 { 0x80u8 >> 0u8 } else { 0u8 }) | (if b1 { 0x80u8 >> 1u8 } else { 0u8 }) | (if b2 {
        0x80u8 >> 2u8
    } else {
        0u8
    }) | (if b3 { 0x80u8 >> 3u8 } else { 0u8 }) | (if b4 { 0x80u8 >> 4u8 } else { 0u8 }) | (if b5 {
        0x80u8 >> 5u8
    } else {
        0u8
    }) | (if b6 { 0x80u8 >> 6u8 } else { 0u8 }) | (if b7 { 0x80u8 >> 7u8 } else { 0u8 })) | (0x80u8
        >> k)) by (bit_vector)
        requires
            k < 8,
    ;
}

/// A byte packed from digits that are all zero is zero.
pub proof fn lemma_packed_byte_zero(s: Seq<char>, base: int)
    requires
        forall|i: int| base <= i < base + 8 ==> !#[trigger] digit(s, i),
    ensures
        packed_byte(s, base) == 0,
{
    assert(!digit(s, base + 0));
    assert(!digit(s, base + 1));
    assert(!digit(s, base + 2));
    assert(!digit(s, base + 3));
    assert(!digit(s, base + 4));
    assert(!digit(s, base + 5));
    assert(!digit(s, base + 6));
    assert(!digit(s, base + 7));
    assert(0u8 | 0u8 | 0u8 | 0u8 | 0u8 | 0u8 | 0u8 | 0u8 == 0u8) by (bit_vector);
}

/// Two digit strings that agree on the eight digits from `base` on pack to
/// the same byte there.
pub proof fn lemma_packed_byte_same(s: Seq<char>, t: Seq<char>, base: int)
    requires
        forall|i: int| base <= i < base + 8 ==> #[trigger] digit(t, i) == digit(s, i),
    ensures
        packed_byte(t, base) == packed_byte(s, base),
{
    assert(digit(t, base + 0) == digit(s, base + 0));
    assert(digit(t, base + 1) == digit(s, base + 1));
    assert(digit(t, base + 2) == digit(s, base + 2));
    assert(digit(t, base + 3) == digit(s, base + 3));
    assert(digit(t, base + 4) == digit(s, base + 4));
    assert(digit(t, base + 5) == digit(s, base + 5));
    assert(digit(t, base + 6) == digit(s, base + 6));
    assert(digit(t, base + 7) == digit(s, base + 7));
}

/// Reading bit `p` of packed digits gives digit `p` back.
pub proof fn lemma_pack_bits_bit(s: Seq<char>, p: nat)
    requires
        p < 8 * pack_bits(s).len(),
    ensures
        bit_at(pack_bits(s), p) == digit(s, p as int),
{
    lemma_packed_byte_bit(s, 8 * (p as int / 8), p % 8);
}

/// Packing one more digit is what `write_bit` does to the packed bytes: the
/// byte under the cursor is made to exist, and its bit is set for a one.
pub proof fn lemma_pack_bits_push(s: Seq<char>, c: char)
    ensures
        pack_bits(s.push(c)) == ({
            let w = s.len() as int / 8;
            let d = grown(pack_bits(s), w + 1);
            if c == '1' {
                d.update(w, d[w] | mask(s.len() % 8))
            } else {
                d
            }
        }),
{
    let t = s.push(c);
    let n = s.len() as int;
    let w = n / 8;
    let k = (n % 8) as nat;
    let d = grown(pack_bits(s), w + 1);
    let e = if c == '1' {
        d.update(w, d[w] | mask(k))
    } else {
        d
    };
    assert(pack_bits(t).len() == e.len());
    assert forall|i: int| 0 <= i < e.len() implies pack_bits(t)[i] == e[i] by {
        if i < w {
            lemma_packed_byte_same(s, t, 8 * i);
        } else {
            assert(i == w);
            if k == 0 {
                lemma_packed_byte_zero(s, 8 * w);
            }
            assert(d[w] == packed_byte(s, 8 * w));
            if c == '1' {
                lemma_packed_byte_set(s, t, 8 * w, k);
            } else {
                lemma_packed_byte_same(s, t, 8 * w);
            }
        }
    }
    assert(pack_bits(t) =~= e);
}

/// A big-endian word read back from its own four bytes is the word.
pub proof fn lemma_be_word_of_bytes(data: Seq<u8>, i: int, v: u32)
    requires
        0 <= i,
        i + 4 <= data.len(),
        data.subrange(i, i + 4) == be_bytes(v),
    ensures
        be_word(data, i) == v,
{
    let b = be_bytes(v);
    assert(data[i] == data.subrange(i, i + 4)[0]);
    assert(data[i + 1] == data.subrange(i, i + 4)[1]);
    assert(data[i + 2] == data.subrange(i, i + 4)[2]);
    assert(data[i + 3] == data.subrange(i, i + 4)[3]);
    assert(b[0] == (v / 0x100_0000) as u8);
    assert(b[1] == (v / 0x1_0000 % 0x100) as u8);
    assert(b[2] == (v / 0x100 % 0x100) as u8);
    assert(b[3] == (v % 0x100) as u8);
}

/// The next byte boundary after `n` bits that start on byte `h`.
pub proof fn lemma_align_up(h: nat, n: nat)
    ensures
        align_up(8 * h + n) == 8 * (h + (n + 7) / 8),
        align_up(8 * h) == 8 * h,
        align_up(align_up(n)) == align_up(n),
        n <= align_up(n) < n + 8,
        align_up(n) % 8 == 0,
{
}

} // verus!
