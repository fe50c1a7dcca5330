//! Buffers as 32-bit words: decoding little-endian bytes, packing a colour
//! into one word, and bringing per-splat rows into compact order. A word may
//! hold an integer or the bit pattern of a float; nothing here reads it.

use vstd::prelude::*;

verus! {

/// The 32-bit word that four bytes spell, lowest byte first.
pub open spec fn word_le(b0: u8, b1: u8, b2: u8, b3: u8) -> u32 {
    (b0 + 0x100 * b1 + 0x1_0000 * b2 + 0x100_0000 * b3) as u32
}

/// The words that a buffer of bytes spells, four bytes each; up to three
/// bytes left over at the end are not read.
pub open spec fn words_le(bytes: Seq<u8>) -> Seq<u32> {
    Seq::new(
        (bytes.len() / 4) as nat,
        |i: int| word_le(bytes[4 * i], bytes[4 * i + 1], bytes[4 * i + 2], bytes[4 * i + 3]),
    )
}

/// The word of four bytes, lowest byte first.
pub fn word_from_le(b0: u8, b1: u8, b2: u8, b3: u8) -> (word: u32)
    ensures
        word == word_le(b0, b1, b2, b3),
{
    let w0: u32 = b0 as u32;
    let w1: u32 = b1 as u32;
    let w2: u32 = b2 as u32;
    let w3: u32 = b3 as u32;
    assert(w0 | (w1 << 8) | (w2 << 16) | (w3 << 24) == w0 + 0x100 * w1 + 0x1_0000 * w2 + 0x100_0000
        * w3) by (bit_vector)
        requires
            w0 <= 0xff,
            w1 <= 0xff,
            w2 <= 0xff,
            w3 <= 0xff,
    ;
    w0 | (w1 << 8) | (w2 << 16) | (w3 << 24)
}

/// Reads a buffer of bytes as little-endian 32-bit words.
pub fn read_buffer_as_u32(data: &[u8]) -> (words: Vec<u32>)
    ensures
        words@ == words_le(data@),
{
    let n = data.len() / 4;
    let mut words: Vec<u32> = Vec::with_capacity(n);
    let mut i: usize = 0;
    while i < n
        invariant
            n == data@.len() / 4,
            data@.len() <= usize::MAX,
            0 <= i <= n,
            words.len() == i,
            forall|k: int|
                0 <= k < i ==> #[trigger] words[k] == word_le(
                    data@[4 * k],
                    data@[4 * k + 1],
                    data@[4 * k + 2],
                    data@[4 * k + 3],
                ),
        decreases n - i,
    {
        assert(4 * i + 3 < data@.len());
        let at = 4 * i;
        words.push(word_from_le(data[at], data[at + 1], data[at + 2], data[at + 3]));
        i += 1;
    }
    assert(words@ =~= words_le(data@));
    words
}

/// Packs a colour of four 8-bit channels into one word, red lowest.
pub fn pack_rgba8(red: u8, green: u8, blue: u8, alpha: u8) -> (word: u32)
    ensures
        word == word_le(red, green, blue, alpha),
{
    word_from_le(red, green, blue, alpha)
}

/// The four 8-bit channels of a packed colour, red first.
pub fn unpack_rgba8(word: u32) -> (channels: (u8, u8, u8, u8))
    ensures
        word_le(channels.0, channels.1, channels.2, channels.3) == word,
{
    let red = (word & 0xff) as u8;
    let green = ((word >> 8) & 0xff) as u8;
    let blue = ((word >> 16) & 0xff) as u8;
    let alpha = ((word >> 24) & 0xff) as u8;
    assert((word & 0xff) + 0x100 * ((word >> 8) & 0xff) + 0x1_0000 * ((word >> 16) & 0xff)
        + 0x100_0000 * ((word >> 24) & 0xff) == word) by (bit_vector);
    assert(word & 0xff <= 0xff && (word >> 8) & 0xff <= 0xff && (word >> 16) & 0xff <= 0xff && (word
        >> 24) & 0xff <= 0xff) by (bit_vector);
    (red, green, blue, alpha)
}

/// Four bytes spell one word only: from the word, the bytes are known.
pub proof fn lemma_word_le_injective(a: (u8, u8, u8, u8), b: (u8, u8, u8, u8))
    requires
        word_le(a.0, a.1, a.2, a.3) == word_le(b.0, b.1, b.2, b.3),
    ensures
        a == b,
{
}

/// Tests whether `len` words are `count` rows of `words` words each.
pub fn holds_rows(count: usize, words: usize, len: usize) -> (ok: bool)
    requires
        words > 0,
    ensures
        ok == (len == words * count),
{
    assert(len == words * count <==> len % words == 0 && len / words == count) by (nonlinear_arith)
        requires
            words > 0,
    ;
    len % words == 0 && len / words == count
}

/// `compact` holds the rows of `dense` that belong to the visible splats,
/// in the order of their compact ids; a row is `stride` words.
pub open spec fn is_gather_of(
    compact: Seq<u32>,
    dense: Seq<u32>,
    stride: int,
    global_from_compact: Seq<u32>,
) -> bool {
    &&& compact.len() == global_from_compact.len() * stride
    &&& forall|c: int, j: int|
        0 <= c < global_from_compact.len() && 0 <= j < stride ==> compact[c * stride + j]
            == dense[#[trigger] row_word(global_from_compact[c] as int, stride, j)]
}

/// The place of word `j` of row `row`.
pub open spec fn row_word(row: int, stride: int, j: int) -> int {
    row * stride + j
}

/// Brings the rows of the visible splats into compact order.
pub fn gather_compact(dense: &Vec<u32>, stride: usize, global_from_compact: &Vec<u32>) -> (compact:
    Vec<u32>)
    requires
        forall|c: int|
            0 <= c < global_from_compact.len() ==> (#[trigger] global_from_compact[c] + 1) * stride
                <= dense.len(),
        global_from_compact.len() * stride <= usize::MAX,
    ensures
        is_gather_of(compact@, dense@, stride as int, global_from_compact@),
{
    let m = global_from_compact.len();
    let mut compact: Vec<u32> = Vec::new();
    let mut c: usize = 0;
    while c < m
        invariant
            m == global_from_compact.len(),
            m * stride <= usize::MAX,
            forall|b: int|
                0 <= b < m ==> (#[trigger] global_from_compact[b] + 1) * stride <= dense.len(),
            0 <= c <= m,
            compact.len() == c * stride,
            forall|b: int, j: int|
                0 <= b < c && 0 <= j < stride ==> compact[b * stride + j] == dense[#[trigger] row_word(
                    global_from_compact[b] as int,
                    stride as int,
                    j,
                )],
        decreases m - c,
    {
        let row = global_from_compact[c] as usize;
        assert((global_from_compact[c as int] + 1) * stride <= dense.len());
        assert(row * stride + stride == (row + 1) * stride) by (nonlinear_arith);
        assert(c * stride + stride == (c + 1) * stride) by (nonlinear_arith);
        assert((c + 1) * stride <= m * stride) by (nonlinear_arith)
            requires
                c + 1 <= m,
        ;
        let base = row * stride;
        let mut j: usize = 0;
        while j < stride
            invariant
                0 <= j <= stride,
                0 <= c < m,
                base == row * stride,
                row == global_from_compact[c as int],
                base + stride <= dense.len(),
                c * stride + stride <= usize::MAX,
                compact.len() == c * stride + j,
                forall|b: int, i: int|
                    0 <= b < c && 0 <= i < stride ==> compact[b * stride + i]
                        == dense[#[trigger] row_word(
                        global_from_compact[b] as int,
                        stride as int,
                        i,
                    )],
                forall|i: int|
                    0 <= i < j ==> compact[c * stride + i] == dense[#[trigger] row_word(
                        row as int,
                        stride as int,
                        i,
                    )],
            decreases stride - j,
        {
            let ghost before = compact@;
            compact.push(dense[base + j]);
            proof {
                assert forall|b: int, i: int| 0 <= b < c && 0 <= i < stride implies compact[b
                    * stride + i] == dense[#[trigger] row_word(
                    global_from_compact[b] as int,
                    stride as int,
                    i,
                )] by {
                    assert(b * stride + stride <= c * stride) by (nonlinear_arith)
                        requires
                            b + 1 <= c,
                            0 <= stride,
                    ;
                    assert(compact[b * stride + i] == before[b * stride + i]);
                }
                assert forall|i: int| 0 <= i < j + 1 implies compact[c * stride + i]
                    == dense[#[trigger] row_word(row as int, stride as int, i)] by {
                    if i < j {
                        assert(compact[c * stride + i] == before[c * stride + i]);
                    }
                }
            }
            j += 1;
        }
        c += 1;
    }
    compact
}

} // verus!
