//! The wire format of a sealed frame, as mathematics.
//!
//! A frame is an 8-byte header, one 8-byte ciphertext block for every eight
//! bytes of plaintext (the last one zero-padded), and an 8-byte tag, all
//! little-endian. The header packs the block counter of the first block and
//! the plaintext's length modulo 8 into one 64-bit value.
//!
//! [`frame`] says what sealing a plaintext yields and [`open_frame`] what
//! opening a frame yields; the executable transform is proved against them.
use crate::feistel::{permute, Block};
use vstd::prelude::*;

verus! {

/// The bits of the stored counter that index the keystream; the top three
/// are left free for the header's length field.
pub const COUNTER_MASK: u64 = 0x1fff_ffff_ffff_ffff;

/// The shortest frame that can be opened: header, one block, tag.
pub const MIN_FRAME: usize = 24;

/// The four bytes of a word, least significant first.
pub open spec fn word_bytes(x: u32) -> Seq<u8> {
    seq![
        (x & 0xff) as u8,
        ((x >> 8) & 0xff) as u8,
        ((x >> 16) & 0xff) as u8,
        ((x >> 24) & 0xff) as u8,
    ]
}

/// The word whose little-endian bytes are `b[i..i + 4]`.
pub open spec fn word_at(b: Seq<u8>, i: int) -> u32 {
    (b[i] as u32) | ((b[i + 1] as u32) << 8) | ((b[i + 2] as u32) << 16) | ((b[i + 3] as u32)
        << 24)
}

/// The block held by eight bytes: two little-endian words.
pub open spec fn block_of(b: Seq<u8>) -> Block {
    (word_at(b, 0), word_at(b, 4))
}

/// The eight bytes of a block.
pub open spec fn block_bytes(xy: Block) -> Seq<u8> {
    word_bytes(xy.0) + word_bytes(xy.1)
}

/// The 64-bit value whose little-endian bytes are `b[0..8]`.
pub open spec fn le64(b: Seq<u8>) -> u64 {
    (word_at(b, 0) as u64) | ((word_at(b, 4) as u64) << 32)
}

/// The eight little-endian bytes of a 64-bit value.
pub open spec fn le64_bytes(v: u64) -> Seq<u8> {
    block_bytes(((v & 0xffff_ffff) as u32, (v >> 32) as u32))
}

/// The high and low words of a counter, the block that the keystream and the
/// tag are derived from.
pub open spec fn halves(c: u64) -> Block {
    ((c >> 32) as u32, (c & 0xffff_ffff) as u32)
}

/// The word-wise xor of two blocks.
pub open spec fn xor(a: Block, b: Block) -> Block {
    (a.0 ^ b.0, a.1 ^ b.1)
}

/// The part of a stored counter that is used as the block counter.
pub open spec fn block_counter(ctr: u64) -> u64 {
    ctr & COUNTER_MASK
}

/// The header of a frame whose first block has counter `c` and whose
/// plaintext has `m` bytes.
pub open spec fn header(c: u64, m: nat) -> u64 {
    (c << 3) | ((m % 8) as u64)
}

/// The block counter that a header carries.
pub open spec fn header_counter(cc: u64) -> u64 {
    cc >> 3
}

/// The plaintext length modulo 8 that a header carries.
pub open spec fn header_rem(cc: u64) -> nat {
    (cc & 7) as nat
}

proof fn lemma_word_round_trip(x: u32)
    by (bit_vector)
    ensures
        (((x & 0xff) as u8) as u32) | ((((x >> 8) & 0xff) as u8) as u32) << 8 | ((((x >> 16)
            & 0xff) as u8) as u32) << 16 | ((((x >> 24) & 0xff) as u8) as u32) << 24 == x,
{
}

proof fn lemma_bytes_round_trip(b0: u8, b1: u8, b2: u8, b3: u8)
    by (bit_vector)
    ensures
        ({
            let x = (b0 as u32) | ((b1 as u32) << 8) | ((b2 as u32) << 16) | ((b3 as u32) << 24);
            &&& (x & 0xff) as u8 == b0
            &&& ((x >> 8) & 0xff) as u8 == b1
            &&& ((x >> 16) & 0xff) as u8 == b2
            &&& ((x >> 24) & 0xff) as u8 == b3
        }),
{
}

/// Reading back the bytes of a block gives the block.
pub proof fn lemma_block_of_bytes(xy: Block)
    ensures
        block_bytes(xy).len() == 8,
        block_of(block_bytes(xy)) == xy,
{
    lemma_word_round_trip(xy.0);
    lemma_word_round_trip(xy.1);
}

/// Writing out the block held by eight bytes gives those bytes.
pub proof fn lemma_bytes_of_block(b: Seq<u8>)
    requires
        b.len() == 8,
    ensures
        block_bytes(block_of(b)) == b,
{
    lemma_bytes_round_trip(b[0], b[1], b[2], b[3]);
    lemma_bytes_round_trip(b[4], b[5], b[6], b[7]);
    assert(block_bytes(block_of(b)) =~= b);
}

proof fn lemma_le64_words(v: u64)
    by (bit_vector)
    ensures
        (((v & 0xffff_ffff) as u32) as u64) | ((((v >> 32) as u32) as u64) << 32) == v,
{
}

/// Reading back the bytes of a 64-bit value gives the value.
pub proof fn lemma_le64_of_bytes(v: u64)
    ensures
        le64_bytes(v).len() == 8,
        le64(le64_bytes(v)) == v,
{
    lemma_block_of_bytes(((v & 0xffff_ffff) as u32, (v >> 32) as u32));
    lemma_le64_words(v);
}

proof fn lemma_header_fields(c: u64, r: u64)
    by (bit_vector)
    requires
        c <= 0x1fff_ffff_ffff_ffff,
        r < 8,
    ensures
        ((c << 3) | r) >> 3 == c,
        ((c << 3) | r) & 7 == r,
{
}

/// A header gives back the counter and the length remainder it was made of.
pub proof fn lemma_header_parts(c: u64, m: nat)
    requires
        c <= COUNTER_MASK,
    ensures
        header_counter(header(c, m)) == c,
        header_rem(header(c, m)) == m % 8,
{
    lemma_header_fields(c, (m % 8) as u64);
}

/// The number of ciphertext blocks of a plaintext of `m` bytes.
pub open spec fn block_count(m: nat) -> nat {
    (m + 7) / 8
}

/// The length of the frame of a plaintext of `m` bytes.
pub open spec fn frame_len(m: nat) -> nat {
    if m % 8 == 0 {
        16 + m
    } else {
        (24 + m - m % 8) as nat
    }
}

/// The eight bytes of plaintext that go into block `i`, with zeros where the
/// plaintext has ended.
pub open spec fn chunk(p: Seq<u8>, i: int) -> Seq<u8> {
    Seq::new(
        8,
        |t: int|
            if 8 * i + t < p.len() {
                p[8 * i + t]
            } else {
                0u8
            },
    )
}

/// The plaintext as blocks, the last one zero-padded.
pub open spec fn plain_blocks(p: Seq<u8>) -> Seq<Block> {
    Seq::new(block_count(p.len()), |i: int| block_of(chunk(p, i)))
}

/// The counter of block `i` of a frame whose first block has counter `c`.
pub open spec fn counter_at(c: u64, i: int) -> u64 {
    ((c + i) % 0x1_0000_0000_0000_0000) as u64
}

/// The keystream block for block `i` of a frame that starts at counter `c`.
pub open spec fn keystream(k: Seq<u32>, c: u64, i: int) -> Block {
    permute(halves(counter_at(c, i)), k)
}

/// Each block xored with its keystream block. Sealing and opening are both
/// this map.
pub open spec fn crypt(k: Seq<u32>, c: u64, blocks: Seq<Block>) -> Seq<Block> {
    Seq::new(blocks.len(), |i: int| xor(keystream(k, c, i), blocks[i]))
}

/// The running tag after the ciphertext blocks `cipher`, started from `acc`:
/// each block is xored into the accumulator, which is then permuted.
pub open spec fn tag(k: Seq<u32>, acc: Block, cipher: Seq<Block>) -> Block
    decreases cipher.len(),
{
    if cipher.len() == 0 {
        acc
    } else {
        permute(xor(tag(k, acc, cipher.drop_last()), cipher.last()), k)
    }
}

/// The bytes of a sequence of blocks, in order.
#[verifier::opaque]
pub open spec fn flatten(blocks: Seq<Block>) -> Seq<u8> {
    Seq::new(8 * blocks.len(), |j: int| block_bytes(blocks[j / 8])[j % 8])
}

/// The ciphertext blocks of the plaintext `p` sealed under key `k` by a
/// transform whose stored counter is `ctr`.
pub open spec fn sealed_blocks(k: Seq<u32>, ctr: u64, p: Seq<u8>) -> Seq<Block> {
    crypt(k, block_counter(ctr), plain_blocks(p))
}

/// The frame of the plaintext `p` sealed under key `k` by a transform whose
/// stored counter is `ctr`: header, ciphertext blocks, tag.
#[verifier::opaque]
pub open spec fn frame(k: Seq<u32>, ctr: u64, p: Seq<u8>) -> Seq<u8> {
    let c = block_counter(ctr);
    let cipher = sealed_blocks(k, ctr, p);
    le64_bytes(header(c, p.len())) + flatten(cipher) + block_bytes(tag(k, halves(c), cipher))
}

/// The stored counter after sealing a plaintext of `m` bytes: the block
/// counter advanced by one per block.
pub open spec fn next_counter(ctr: u64, m: nat) -> u64 {
    counter_at(block_counter(ctr), block_count(m) as int)
}

/// Whether a frame of `n` bytes is long enough and made of whole blocks.
pub open spec fn valid_len(n: nat) -> bool {
    n >= MIN_FRAME && n % 8 == 0
}

/// The header value of a frame.
pub open spec fn frame_header(f: Seq<u8>) -> u64 {
    le64(f)
}

/// The block counter in the header of a frame.
pub open spec fn frame_counter(f: Seq<u8>) -> u64 {
    header_counter(frame_header(f))
}

/// The ciphertext blocks of a frame: all but its first and last eight bytes.
pub open spec fn cipher_blocks(f: Seq<u8>) -> Seq<Block> {
    Seq::new(((f.len() - 16) / 8) as nat, |i: int| block_of(f.subrange(8 + 8 * i, 16 + 8 * i)))
}

/// The tag that a frame carries in its last eight bytes.
pub open spec fn frame_tag(f: Seq<u8>) -> Block {
    block_of(f.subrange(f.len() - 8, f.len() as int))
}

/// The tag that the header and ciphertext blocks of a frame call for.
pub open spec fn expected_tag(k: Seq<u32>, f: Seq<u8>) -> Block {
    tag(k, halves(frame_counter(f)), cipher_blocks(f))
}

/// The plaintext length that a frame of valid length announces.
pub open spec fn plain_len(f: Seq<u8>) -> nat {
    let r = header_rem(frame_header(f));
    if r == 0 {
        (f.len() - 16) as nat
    } else {
        (f.len() - 24 + r) as nat
    }
}

/// The bytes that opening recovers from a frame of valid length, whether or
/// not its tag is right.
pub open spec fn recovered(k: Seq<u32>, f: Seq<u8>) -> Seq<u8> {
    flatten(crypt(k, frame_counter(f), cipher_blocks(f))).take(plain_len(f) as int)
}

/// Whether a frame is accepted under key `k`: its length is valid and its
/// tag is the one its header and blocks call for.
pub open spec fn accepted(k: Seq<u32>, f: Seq<u8>) -> bool {
    valid_len(f.len()) && expected_tag(k, f) == frame_tag(f)
}

/// What opening the frame `f` under key `k` yields: the plaintext, or nothing
/// where the frame is rejected.
pub open spec fn open_frame(k: Seq<u32>, f: Seq<u8>) -> Option<Seq<u8>> {
    if accepted(k, f) {
        Some(recovered(k, f))
    } else {
        None
    }
}

/// A frame is sixteen bytes of header and tag around its blocks.
pub proof fn lemma_frame_len(m: nat)
    ensures
        frame_len(m) == 16 + 8 * block_count(m),
        m <= 8 * block_count(m) < m + 8,
        m > 0 ==> valid_len(frame_len(m)),
{
}

/// The three parts of a frame and their lengths.
pub proof fn lemma_frame_parts(k: Seq<u32>, ctr: u64, p: Seq<u8>)
    ensures
        sealed_blocks(k, ctr, p).len() == block_count(p.len()),
        flatten(sealed_blocks(k, ctr, p)).len() == 8 * block_count(p.len()),
        le64_bytes(header(block_counter(ctr), p.len())).len() == 8,
        frame(k, ctr, p).len() == frame_len(p.len()),
{
    reveal(frame);
    reveal(flatten);
    let c = block_counter(ctr);
    lemma_frame_len(p.len());
    lemma_le64_of_bytes(header(c, p.len()));
    lemma_block_of_bytes(tag(k, halves(c), sealed_blocks(k, ctr, p)));
}

/// Every block flattens to eight bytes.
pub proof fn lemma_flatten_len(s: Seq<Block>)
    ensures
        flatten(s).len() == 8 * s.len(),
{
    reveal(flatten);
}

/// The eight bytes at block position `i` of a flattened sequence are the
/// bytes of block `i`.
pub proof fn lemma_flatten_block(s: Seq<Block>, i: int)
    requires
        0 <= i < s.len(),
    ensures
        flatten(s).len() == 8 * s.len(),
        flatten(s).subrange(8 * i, 8 * i + 8) == block_bytes(s[i]),
{
    reveal(flatten);
    lemma_block_of_bytes(s[i]);
    assert forall|t: int| 0 <= t < 8 implies flatten(s).subrange(8 * i, 8 * i + 8)[t]
        == block_bytes(s[i])[t] by {
        assert((8 * i + t) / 8 == i);
        assert((8 * i + t) % 8 == t);
    }
    assert(flatten(s).subrange(8 * i, 8 * i + 8) =~= block_bytes(s[i]));
}

/// The header of a frame is its first eight bytes.
pub proof fn lemma_frame_head(k: Seq<u32>, ctr: u64, p: Seq<u8>)
    ensures
        frame(k, ctr, p).subrange(0, 8) == le64_bytes(header(block_counter(ctr), p.len())),
{
    reveal(frame);
    lemma_frame_parts(k, ctr, p);
    assert(frame(k, ctr, p).subrange(0, 8) =~= le64_bytes(
        header(block_counter(ctr), p.len()),
    ));
}

/// Ciphertext block `i` of a frame is the eight bytes at offset `8 + 8 * i`.
pub proof fn lemma_frame_block(k: Seq<u32>, ctr: u64, p: Seq<u8>, i: int)
    requires
        0 <= i < block_count(p.len()),
    ensures
        frame(k, ctr, p).subrange(8 + 8 * i, 16 + 8 * i) == block_bytes(
            sealed_blocks(k, ctr, p)[i],
        ),
{
    reveal(frame);
    lemma_frame_parts(k, ctr, p);
    let cipher = sealed_blocks(k, ctr, p);
    lemma_flatten_block(cipher, i);
    assert(frame(k, ctr, p).subrange(8 + 8 * i, 16 + 8 * i) =~= flatten(cipher).subrange(
        8 * i,
        8 * i + 8,
    ));
}

/// The tag of a frame is its last eight bytes.
pub proof fn lemma_frame_tail(k: Seq<u32>, ctr: u64, p: Seq<u8>)
    ensures
        frame(k, ctr, p).subrange(frame_len(p.len()) - 8, frame_len(p.len()) as int)
            == block_bytes(tag(k, halves(block_counter(ctr)), sealed_blocks(k, ctr, p))),
{
    reveal(frame);
    lemma_frame_parts(k, ctr, p);
    assert(frame(k, ctr, p).subrange(frame_len(p.len()) - 8, frame_len(p.len()) as int)
        =~= block_bytes(tag(k, halves(block_counter(ctr)), sealed_blocks(k, ctr, p))));
}

proof fn lemma_rem_bound(cc: u64)
    by (bit_vector)
    ensures
        cc & 7 < 8,
{
}

/// The plaintext that a frame of valid length announces is at least one
/// byte long and at least sixteen bytes shorter than the frame.
pub proof fn lemma_plain_len(f: Seq<u8>)
    requires
        valid_len(f.len()),
    ensures
        0 < plain_len(f) <= f.len() - 16,
{
    lemma_rem_bound(frame_header(f));
}

} // verus!
