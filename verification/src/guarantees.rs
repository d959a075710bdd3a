//! What the frame format guarantees, proved from its definition.
//!
//! - Opening a sealed frame under the same key gives back the plaintext.
//! - Successive frames of one transform carry increasing counters and never
//!   share a block counter, as long as the counter stays within its 61 bits.
//! - A frame that was altered within one of its 8-byte blocks is rejected,
//!   unless the alteration is confined to the three length bits of the
//!   header, which the tag does not cover.
use crate::feistel::{lemma_permute_injective, permute, Block};
use crate::frame::{
    accepted, block_count, block_counter, block_of, chunk, cipher_blocks, counter_at, crypt,
    flatten, frame, frame_counter, frame_header, frame_len, frame_tag, halves, header, keystream,
    le64, lemma_block_of_bytes, lemma_bytes_of_block, lemma_frame_block, lemma_frame_head,
    lemma_frame_len, lemma_frame_parts, lemma_frame_tail, lemma_header_parts,
    lemma_le64_of_bytes, next_counter, open_frame, plain_blocks, plain_len, sealed_blocks, tag,
    valid_len, xor, COUNTER_MASK,
};
use vstd::prelude::*;

verus! {

proof fn lemma_mask_bound(ctr: u64)
    by (bit_vector)
    ensures
        ctr & 0x1fff_ffff_ffff_ffff <= 0x1fff_ffff_ffff_ffff,
        ctr <= 0x1fff_ffff_ffff_ffff ==> ctr & 0x1fff_ffff_ffff_ffff == ctr,
{
}

proof fn lemma_xor_twice(a: u32, b: u32)
    by (bit_vector)
    ensures
        a ^ (a ^ b) == b,
{
}

proof fn lemma_xor_injective(a: u32, b: u32, e: u32)
    by (bit_vector)
    requires
        a ^ e == b ^ e,
    ensures
        a == b,
{
}

proof fn lemma_xor_injective_right(a: u32, e: u32, g: u32)
    by (bit_vector)
    requires
        a ^ e == a ^ g,
    ensures
        e == g,
{
}

proof fn lemma_halves_injective(c: u64, d: u64)
    by (bit_vector)
    requires
        (c >> 32) as u32 == (d >> 32) as u32,
        (c & 0xffff_ffff) as u32 == (d & 0xffff_ffff) as u32,
    ensures
        c == d,
{
}

/// Applying the keystream twice gives back the blocks.
pub proof fn lemma_crypt_twice(k: Seq<u32>, c: u64, blocks: Seq<Block>)
    ensures
        crypt(k, c, crypt(k, c, blocks)) == blocks,
{
    assert forall|i: int| 0 <= i < blocks.len() implies crypt(k, c, crypt(k, c, blocks))[i]
        == blocks[i] by {
        let ks = keystream(k, c, i);
        lemma_xor_twice(ks.0, blocks[i].0);
        lemma_xor_twice(ks.1, blocks[i].1);
    }
    assert(crypt(k, c, crypt(k, c, blocks)) =~= blocks);
}

/// The bytes of the padded blocks of a plaintext begin with the plaintext.
pub proof fn lemma_plain_blocks_bytes(p: Seq<u8>)
    ensures
        flatten(plain_blocks(p)).take(p.len() as int) == p,
{
    reveal(flatten);
    lemma_frame_len(p.len());
    assert forall|j: int| 0 <= j < p.len() implies flatten(plain_blocks(p))[j] == p[j] by {
        let i = j / 8;
        lemma_bytes_of_block(chunk(p, i));
        assert(chunk(p, i)[j % 8] == p[j]);
    }
    assert(flatten(plain_blocks(p)).take(p.len() as int) =~= p);
}

/// The header, the ciphertext blocks, the tag and the announced length that
/// opening reads from a sealed frame are those that sealing wrote.
pub proof fn lemma_frame_fields(k: Seq<u32>, ctr: u64, p: Seq<u8>)
    ensures
        frame(k, ctr, p).len() == frame_len(p.len()),
        frame_header(frame(k, ctr, p)) == header(block_counter(ctr), p.len()),
        frame_counter(frame(k, ctr, p)) == block_counter(ctr),
        cipher_blocks(frame(k, ctr, p)) == sealed_blocks(k, ctr, p),
        frame_tag(frame(k, ctr, p)) == tag(
            k,
            halves(block_counter(ctr)),
            sealed_blocks(k, ctr, p),
        ),
        plain_len(frame(k, ctr, p)) == p.len(),
{
    let f = frame(k, ctr, p);
    let c = block_counter(ctr);
    let cipher = sealed_blocks(k, ctr, p);
    lemma_frame_parts(k, ctr, p);
    lemma_frame_len(p.len());
    lemma_mask_bound(ctr);
    lemma_frame_head(k, ctr, p);
    lemma_le64_of_bytes(header(c, p.len()));
    assert(le64(f) == le64(f.subrange(0, 8)));
    lemma_header_parts(c, p.len());
    assert forall|i: int| 0 <= i < cipher.len() implies cipher_blocks(f)[i] == cipher[i] by {
        lemma_frame_block(k, ctr, p, i);
        lemma_block_of_bytes(cipher[i]);
    }
    assert(cipher_blocks(f) =~= cipher);
    lemma_frame_tail(k, ctr, p);
    lemma_block_of_bytes(tag(k, halves(c), cipher));
}

/// Opening the frame of a plaintext that is not empty, under the key it was
/// sealed with, yields that plaintext, whatever the counter it was sealed at.
/// The frame of a plaintext of `m` bytes has `16 + m` bytes where `m` is a
/// multiple of 8, and `24 + m - m % 8` bytes otherwise.
pub proof fn lemma_round_trip(k: Seq<u32>, ctr: u64, p: Seq<u8>)
    requires
        p.len() > 0,
    ensures
        frame(k, ctr, p).len() == frame_len(p.len()),
        open_frame(k, frame(k, ctr, p)) == Some(p),
{
    let f = frame(k, ctr, p);
    let c = block_counter(ctr);
    lemma_frame_fields(k, ctr, p);
    lemma_frame_len(p.len());
    assert(accepted(k, f));
    lemma_crypt_twice(k, c, plain_blocks(p));
    lemma_plain_blocks_bytes(p);
}

/// The frame of the empty plaintext is a header and a tag with no block
/// between them: sixteen bytes, fewer than any frame that opening accepts.
pub proof fn lemma_empty_frame_rejected(k: Seq<u32>, ctr: u64)
    ensures
        frame(k, ctr, Seq::<u8>::empty()).len() == 16,
        open_frame(k, frame(k, ctr, Seq::<u8>::empty())) is None,
{
    lemma_frame_parts(k, ctr, Seq::<u8>::empty());
}

/// The block counters of two runs of blocks, the second of which starts
/// where the first, not empty, ended within the counter's 61 bits.
proof fn lemma_counter_runs(c: u64, n1: nat, n2: nat)
    requires
        n1 > 0,
        n2 <= 0x2000_0000_0000_0000,
        c + n1 <= COUNTER_MASK,
    ensures
        c < block_counter(counter_at(c, n1 as int)),
        forall|i: int, j: int|
            0 <= i < n1 && 0 <= j < n2 ==> counter_at(c, i) != counter_at(
                block_counter(counter_at(c, n1 as int)),
                j,
            ),
{
    let next = counter_at(c, n1 as int);
    assert(next == c + n1);
    lemma_mask_bound(next);
    assert(block_counter(next) == next);
    assert forall|i: int, j: int| 0 <= i < n1 && 0 <= j < n2 implies counter_at(c, i)
        != counter_at(next, j) by {
        assert(counter_at(c, i) == c + i);
        assert(counter_at(next, j) == next + j);
    }
}

/// Of two plaintexts sealed one after the other by one transform, the first
/// of them not empty, the second frame's header carries a strictly greater
/// counter than the first frame's, and no block of the second is sealed under
/// the counter of a block of the first.
///
/// This holds while the block counter does not run past its 61 bits during
/// the first sealing; once it does, it starts again from zero.
pub proof fn lemma_counters_advance(k: Seq<u32>, ctr: u64, first: Seq<u8>, second: Seq<u8>)
    requires
        first.len() > 0,
        second.len() <= usize::MAX,
        block_counter(ctr) + block_count(first.len()) <= COUNTER_MASK,
    ensures
        frame_counter(frame(k, ctr, first)) < frame_counter(
            frame(k, next_counter(ctr, first.len()), second),
        ),
        forall|i: int, j: int|
            0 <= i < block_count(first.len()) && 0 <= j < block_count(second.len()) ==> counter_at(
                frame_counter(frame(k, ctr, first)),
                i,
            ) != counter_at(frame_counter(frame(k, next_counter(ctr, first.len()), second)), j),
{
    let next = next_counter(ctr, first.len());
    let c1 = frame_counter(frame(k, ctr, first));
    let c2 = frame_counter(frame(k, next, second));
    assert(c1 == block_counter(ctr)) by {
        lemma_frame_fields(k, ctr, first);
    }
    assert(c2 == block_counter(next)) by {
        lemma_frame_fields(k, next, second);
    }
    lemma_counter_runs(c1, block_count(first.len()), block_count(second.len()));
}

/// The number of blocks that plaintexts of the lengths `lens` are sealed
/// into.
pub open spec fn blocks_of(lens: Seq<nat>) -> nat
    decreases lens.len(),
{
    if lens.len() == 0 {
        0
    } else {
        blocks_of(lens.drop_last()) + block_count(lens.last())
    }
}

/// The stored counter after plaintexts of the lengths `lens` have been sealed
/// one after the other from the counter `ctr` on.
pub open spec fn counter_through(ctr: u64, lens: Seq<nat>) -> u64
    decreases lens.len(),
{
    if lens.len() == 0 {
        ctr
    } else {
        next_counter(counter_through(ctr, lens.drop_last()), lens.last())
    }
}

/// While the block counter stays within its 61 bits, it has advanced by one
/// for every block sealed.
pub proof fn lemma_counter_through(ctr: u64, lens: Seq<nat>)
    requires
        block_counter(ctr) + blocks_of(lens) <= COUNTER_MASK,
    ensures
        block_counter(counter_through(ctr, lens)) == block_counter(ctr) + blocks_of(lens),
    decreases lens.len(),
{
    lemma_mask_bound(ctr);
    if lens.len() > 0 {
        lemma_counter_through(ctr, lens.drop_last());
        let before = counter_through(ctr, lens.drop_last());
        let after = counter_through(ctr, lens);
        assert(after == block_counter(before) + block_count(lens.last()));
        lemma_mask_bound(after);
    }
}

/// A shorter run of plaintexts is sealed into no more blocks than a longer
/// one that starts with it.
proof fn lemma_blocks_of_prefix(lens: Seq<nat>, a: int, b: int)
    requires
        0 <= a <= b <= lens.len(),
    ensures
        blocks_of(lens.take(a)) <= blocks_of(lens.take(b)),
        a < b ==> blocks_of(lens.take(a)) + block_count(lens[a]) <= blocks_of(lens.take(b)),
    decreases b - a,
{
    if a < b {
        lemma_blocks_of_prefix(lens, a, b - 1);
        assert(lens.take(b).drop_last() =~= lens.take(b - 1));
        assert(lens.take(b).last() == lens[b - 1]);
    }
}

/// No two blocks that one transform seals are sealed under the same counter,
/// for as long as its block counter stays within its 61 bits: of the
/// plaintexts of the lengths `lens`, sealed one after the other from the
/// counter `ctr` on, block `i` of plaintext `a` and block `j` of a later
/// plaintext `b` have different counters.
pub proof fn lemma_counters_never_repeat(
    ctr: u64,
    lens: Seq<nat>,
    a: int,
    b: int,
    i: int,
    j: int,
)
    requires
        block_counter(ctr) + blocks_of(lens) <= COUNTER_MASK,
        0 <= a < b < lens.len(),
        0 <= i < block_count(lens[a]),
        0 <= j < block_count(lens[b]),
    ensures
        counter_at(block_counter(counter_through(ctr, lens.take(a))), i) < counter_at(
            block_counter(counter_through(ctr, lens.take(b))),
            j,
        ),
{
    lemma_blocks_of_prefix(lens, a, b);
    lemma_blocks_of_prefix(lens, b, lens.len() as int);
    assert(lens.take(lens.len() as int) =~= lens);
    lemma_counter_through(ctr, lens.take(a));
    lemma_counter_through(ctr, lens.take(b));
}

/// Two runs of blocks that are chained into the tag from different
/// accumulators end in different tags.
pub proof fn lemma_tag_injective_start(k: Seq<u32>, a: Block, b: Block, s: Seq<Block>)
    requires
        a != b,
    ensures
        tag(k, a, s) != tag(k, b, s),
    decreases s.len(),
{
    if s.len() > 0 {
        let ta = tag(k, a, s.drop_last());
        let tb = tag(k, b, s.drop_last());
        lemma_tag_injective_start(k, a, b, s.drop_last());
        let e = s.last();
        if xor(ta, e) == xor(tb, e) {
            lemma_xor_injective(ta.0, tb.0, e.0);
            lemma_xor_injective(ta.1, tb.1, e.1);
        }
        if permute(xor(ta, e), k) == permute(xor(tb, e), k) {
            lemma_permute_injective(xor(ta, e), xor(tb, e), k);
        }
    }
}

/// Two runs of blocks that differ in exactly one place end in different
/// tags.
pub proof fn lemma_tag_injective_block(
    k: Seq<u32>,
    acc: Block,
    s: Seq<Block>,
    t: Seq<Block>,
    i: int,
)
    requires
        s.len() == t.len(),
        0 <= i < s.len(),
        s[i] != t[i],
        forall|j: int| 0 <= j < s.len() && j != i ==> s[j] == t[j],
    ensures
        tag(k, acc, s) != tag(k, acc, t),
    decreases s.len(),
{
    let ts = tag(k, acc, s.drop_last());
    let tt = tag(k, acc, t.drop_last());
    if i == s.len() - 1 {
        assert(s.drop_last() =~= t.drop_last());
        if xor(ts, s.last()) == xor(ts, t.last()) {
            lemma_xor_injective_right(ts.0, s.last().0, t.last().0);
            lemma_xor_injective_right(ts.1, s.last().1, t.last().1);
        }
    } else {
        lemma_tag_injective_block(k, acc, s.drop_last(), t.drop_last(), i);
        let e = s.last();
        if xor(ts, e) == xor(tt, e) {
            lemma_xor_injective(ts.0, tt.0, e.0);
            lemma_xor_injective(ts.1, tt.1, e.1);
        }
    }
    if permute(xor(ts, s.last()), k) == permute(xor(tt, t.last()), k) {
        lemma_permute_injective(xor(ts, s.last()), xor(tt, t.last()), k);
    }
}

/// Whether `g` is `f` altered within its 8-byte block `b` and nowhere else.
pub open spec fn altered_in_block(f: Seq<u8>, g: Seq<u8>, b: int) -> bool {
    &&& f.len() == g.len()
    &&& 0 <= b
    &&& 8 * b + 8 <= f.len()
    &&& f.subrange(8 * b, 8 * b + 8) != g.subrange(8 * b, 8 * b + 8)
    &&& forall|j: int| 0 <= j < f.len() && !(8 * b <= j < 8 * b + 8) ==> f[j] == g[j]
}

/// Eight bytes that hold the same block are the same bytes.
proof fn lemma_block_of_injective(x: Seq<u8>, y: Seq<u8>)
    requires
        x.len() == 8,
        y.len() == 8,
        block_of(x) == block_of(y),
    ensures
        x == y,
{
    lemma_bytes_of_block(x);
    lemma_bytes_of_block(y);
}

/// Two frames of one valid length that agree on every byte between header
/// and tag, but perhaps for those of the ciphertext block `skip`, agree on
/// every ciphertext block but perhaps that one.
proof fn lemma_same_blocks(f: Seq<u8>, g: Seq<u8>, skip: int)
    requires
        f.len() == g.len(),
        valid_len(f.len()),
        forall|j: int|
            8 <= j < f.len() - 8 && !(8 + 8 * skip <= j < 16 + 8 * skip) ==> f[j] == g[j],
    ensures
        cipher_blocks(f).len() == cipher_blocks(g).len(),
        forall|i: int|
            0 <= i < cipher_blocks(f).len() && i != skip ==> cipher_blocks(f)[i] == cipher_blocks(
                g,
            )[i],
        !(0 <= skip < cipher_blocks(f).len()) ==> cipher_blocks(f) == cipher_blocks(g),
{
    let n = cipher_blocks(f).len();
    assert forall|i: int| 0 <= i < n && i != skip implies cipher_blocks(f)[i] == cipher_blocks(
        g,
    )[i] by {
        assert(f.subrange(8 + 8 * i, 16 + 8 * i) =~= g.subrange(8 + 8 * i, 16 + 8 * i));
    }
    if !(0 <= skip < n) {
        assert(cipher_blocks(f) =~= cipher_blocks(g));
    }
}

/// Two frames of one length that agree on their last eight bytes carry the
/// same tag.
proof fn lemma_same_tail(f: Seq<u8>, g: Seq<u8>)
    requires
        f.len() == g.len(),
        f.len() >= 8,
        forall|j: int| f.len() - 8 <= j < f.len() ==> f[j] == g[j],
    ensures
        f.subrange(f.len() - 8, f.len() as int) == g.subrange(g.len() - 8, g.len() as int),
        frame_tag(f) == frame_tag(g),
{
    assert(f.subrange(f.len() - 8, f.len() as int) =~= g.subrange(g.len() - 8, g.len() as int));
}

/// An accepted frame that is then altered within one 8-byte block is
/// rejected, provided that an alteration of the header changes the counter
/// that the header carries.
///
/// Flipping any bits of one byte is such an alteration: every byte lies in
/// one block. The proviso leaves out only changes confined to the low three
/// bits of the first byte.
pub proof fn lemma_altered_frame_rejected(k: Seq<u32>, f: Seq<u8>, g: Seq<u8>, b: int)
    requires
        accepted(k, f),
        altered_in_block(f, g, b),
        b == 0 ==> frame_counter(f) != frame_counter(g),
    ensures
        !accepted(k, g),
        open_frame(k, g) is None,
{
    let last = f.len() / 8 - 1;
    let i = b - 1;
    lemma_same_blocks(f, g, i);
    if b == 0 {
        lemma_same_tail(f, g);
        if halves(frame_counter(f)) == halves(frame_counter(g)) {
            lemma_halves_injective(frame_counter(f), frame_counter(g));
        }
        lemma_tag_injective_start(
            k,
            halves(frame_counter(f)),
            halves(frame_counter(g)),
            cipher_blocks(f),
        );
    } else if b == last {
        assert(le64(f) == le64(g));
        if frame_tag(f) == frame_tag(g) {
            lemma_block_of_injective(
                f.subrange(f.len() - 8, f.len() as int),
                g.subrange(g.len() - 8, g.len() as int),
            );
        }
    } else {
        lemma_same_tail(f, g);
        assert(le64(f) == le64(g));
        if cipher_blocks(f)[i] == cipher_blocks(g)[i] {
            lemma_block_of_injective(
                f.subrange(8 + 8 * i, 16 + 8 * i),
                g.subrange(8 + 8 * i, 16 + 8 * i),
            );
        }
        lemma_tag_injective_block(
            k,
            halves(frame_counter(f)),
            cipher_blocks(f),
            cipher_blocks(g),
            i,
        );
    }
}

/// The tag does not cover the length bits of the header: an accepted frame
/// whose header is altered without changing the counter it carries is still
/// accepted.
pub proof fn lemma_length_bits_unprotected(k: Seq<u32>, f: Seq<u8>, g: Seq<u8>)
    requires
        accepted(k, f),
        altered_in_block(f, g, 0),
        frame_counter(f) == frame_counter(g),
    ensures
        accepted(k, g),
{
    lemma_same_blocks(f, g, -1);
    lemma_same_tail(f, g);
}

} // verus!
