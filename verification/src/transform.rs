//! The keyed, authenticated transform between plaintexts and frames.
//!
//! [`BlockTransform`] seals a plaintext into a frame and opens a frame back
//! into its plaintext. Sealing runs the block permutation in counter mode
//! and chains every ciphertext block into a trailing tag; opening recomputes
//! the tag and rejects the frame unless it matches.
use crate::feistel::{h, permute, Block};
use crate::frame::{
    accepted, block_bytes, block_count, block_counter, block_of, chunk, cipher_blocks,
    counter_at, crypt, expected_tag, flatten, frame, frame_counter, frame_header, frame_len,
    frame_tag, halves, header, header_rem, lemma_flatten_block, lemma_flatten_len,
    lemma_frame_block, lemma_frame_head, lemma_frame_len, lemma_frame_parts, lemma_frame_tail,
    next_counter, open_frame, plain_len, recovered, sealed_blocks, tag, valid_len, xor,
    COUNTER_MASK, MIN_FRAME,
};
use vstd::prelude::*;

verus! {

/// A keyed pair of maps between plaintexts and frames, working in caller
/// supplied buffers.
pub trait Transformer {
    /// The frame that `encode` writes for `plain` in the current state.
    spec fn sealed(&self, plain: Seq<u8>) -> Seq<u8>;

    /// The plaintext that `decode` recovers from `frame`, or `None` where the
    /// frame is rejected.
    spec fn opened(&self, frame: Seq<u8>) -> Option<Seq<u8>>;

    /// The room that `decode` needs in its output buffer to work on `frame`.
    spec fn room(&self, frame: Seq<u8>) -> nat;

    /// Opens the frame `u` into the front of `buf`. Returns the length of the
    /// plaintext, or `None` where the frame is rejected.
    fn decode(&mut self, u: &[u8], buf: &mut [u8]) -> (r: Option<usize>)
        requires
            old(buf)@.len() >= old(self).room(u@),
        ensures
            final(buf)@.len() == old(buf)@.len(),
            match r {
                Some(n) => n <= final(buf)@.len() && old(self).opened(u@) == Some(
                    final(buf)@.take(n as int),
                ),
                None => old(self).opened(u@) is None,
            },
    ;

    /// Seals the plaintext `u` into the front of `buf` and returns the length
    /// of the frame.
    fn encode(&mut self, u: &[u8], buf: &mut [u8]) -> (r: Option<usize>)
        requires
            old(buf)@.len() >= old(self).sealed(u@).len(),
        ensures
            r == Some(old(self).sealed(u@).len() as usize),
            final(buf)@ == old(self).sealed(u@) + old(buf)@.skip(
                old(self).sealed(u@).len() as int,
            ),
    ;
}

/// The transform of the relay: a four-word key and a block counter.
///
/// The counter is advanced by one for every block sealed, so that no two
/// blocks sealed by one instance share a keystream block for as long as the
/// counter stays below 2^61.
pub struct BlockTransform {
    k: [u32; 4],
    ctr: u64,
}

impl BlockTransform {
    /// The key, as its four words.
    pub closed spec fn key(&self) -> Seq<u32> {
        self.k@
    }

    /// The stored counter. Its low 61 bits are the counter of the next block
    /// to be sealed.
    pub closed spec fn counter(&self) -> u64 {
        self.ctr
    }

    /// A transform under the key `k` whose counter starts at `iv`. The
    /// caller draws `iv` afresh, from the system's entropy source, for every
    /// instance it makes.
    pub fn new(k: [u32; 4], iv: u64) -> (t: Self)
        ensures
            t.key() == k@,
            t.counter() == iv,
    {
        BlockTransform { k, ctr: iv }
    }
}

/// The two little-endian words held by eight bytes.
pub fn split2x32(p: [u8; 8]) -> (r: (u32, u32))
    ensures
        r == block_of(p@),
{
    let x = (p[0] as u32) | ((p[1] as u32) << 8) | ((p[2] as u32) << 16) | ((p[3] as u32) << 24);
    let y = (p[4] as u32) | ((p[5] as u32) << 8) | ((p[6] as u32) << 16) | ((p[7] as u32) << 24);
    (x, y)
}

/// The eight bytes of two words, each little-endian.
pub fn join2x32(x: u32, y: u32) -> (a: [u8; 8])
    ensures
        a@ == block_bytes((x, y)),
{
    let a = [
        (x & 0xff) as u8,
        ((x >> 8) & 0xff) as u8,
        ((x >> 16) & 0xff) as u8,
        ((x >> 24) & 0xff) as u8,
        (y & 0xff) as u8,
        ((y >> 8) & 0xff) as u8,
        ((y >> 16) & 0xff) as u8,
        ((y >> 24) & 0xff) as u8,
    ];
    assert(a@ =~= block_bytes((x, y)));
    a
}

/// The high and low words of a counter.
fn split_counter(c: u64) -> (r: (u32, u32))
    ensures
        r == halves(c),
{
    ((c >> 32) as u32, (c & 0xffff_ffff) as u32)
}

/// Block `i` of the plaintext `u`, zero-padded where `u` has ended.
fn get(u: &[u8], i: usize) -> (a: [u8; 8])
    requires
        8 * i + 8 <= usize::MAX,
    ensures
        a@ == chunk(u@, i as int),
{
    let mut a = [0u8; 8];
    let base = 8 * i;
    for t in 0..8usize
        invariant
            base == 8 * i,
            base + 8 <= usize::MAX,
            forall|s: int| 0 <= s < t ==> a@[s] == chunk(u@, i as int)[s],
            forall|s: int| t <= s < 8 ==> a@[s] == 0u8,
    {
        if base + t < u.len() {
            a[t] = u[base + t];
        }
    }
    assert(a@ =~= chunk(u@, i as int));
    a
}

/// The sequence `s` with `v` written over it from offset `k` on.
spec fn overwrite(s: Seq<u8>, k: int, v: Seq<u8>) -> Seq<u8> {
    Seq::new(
        s.len(),
        |j: int|
            if k <= j < k + v.len() {
                v[j - k]
            } else {
                s[j]
            },
    )
}

/// Whether `buf` is `before` with its first `upto` bytes replaced by those
/// of `data`.
#[verifier::opaque]
spec fn filled(buf: Seq<u8>, before: Seq<u8>, data: Seq<u8>, upto: int) -> bool {
    &&& buf.len() == before.len()
    &&& 0 <= upto <= buf.len()
    &&& upto <= data.len()
    &&& forall|j: int| 0 <= j < upto ==> buf[j] == data[j]
    &&& forall|j: int| upto <= j < buf.len() ==> buf[j] == before[j]
}

/// Writing the next stretch of `data` extends the filled part.
proof fn lemma_fill(prior: Seq<u8>, before: Seq<u8>, data: Seq<u8>, k: int, v: Seq<u8>)
    requires
        filled(prior, before, data, k),
        k + v.len() <= before.len(),
        k + v.len() <= data.len(),
        data.subrange(k, k + v.len()) == v,
    ensures
        filled(overwrite(prior, k, v), before, data, k + v.len()),
{
    reveal(filled);
    let next = overwrite(prior, k, v);
    assert forall|j: int| 0 <= j < k + v.len() implies next[j] == data[j] by {
        if j >= k {
            assert(data.subrange(k, k + v.len())[j - k] == data[j]);
        }
    }
}

/// A buffer filled up to `upto` is that much of `data` followed by the rest
/// of what it held before.
proof fn lemma_filled(buf: Seq<u8>, before: Seq<u8>, data: Seq<u8>, upto: int)
    requires
        filled(buf, before, data, upto),
    ensures
        buf == data.take(upto) + before.skip(upto),
{
    reveal(filled);
    assert(buf =~= data.take(upto) + before.skip(upto));
}

/// A filled buffer is as long as it was before.
proof fn lemma_filled_len(buf: Seq<u8>, before: Seq<u8>, data: Seq<u8>, upto: int)
    requires
        filled(buf, before, data, upto),
    ensures
        buf.len() == before.len(),
        0 <= upto <= buf.len(),
        upto <= data.len(),
{
    reveal(filled);
}

/// A buffer that nothing was written to is filled up to offset 0.
proof fn lemma_unfilled(before: Seq<u8>, data: Seq<u8>)
    ensures
        filled(before, before, data, 0),
{
    reveal(filled);
}

/// Writes the first `n` bytes of `v` into `buf` at offset `k`.
fn put(buf: &mut [u8], k: usize, v: &[u8; 8], n: usize)
    requires
        n <= 8,
        k + n <= old(buf)@.len(),
    ensures
        final(buf)@ == overwrite(old(buf)@, k as int, v@.take(n as int)),
{
    let ghost before = buf@;
    let total = buf.len();
    for t in 0..n
        invariant
            n <= 8,
            k + n <= before.len() == total,
            buf@.len() == before.len(),
            forall|s: int| 0 <= s < k ==> buf@[s] == before[s],
            forall|s: int| k <= s < k + t ==> buf@[s] == v@[s - k],
            forall|s: int| k + t <= s < before.len() ==> buf@[s] == before[s],
    {
        buf[k + t] = v[t];
    }
    assert(buf@ =~= overwrite(before, k as int, v@.take(n as int)));
}

/// The eight bytes of `u` at block position `i`, as a block.
fn block_at(u: &[u8], i: usize) -> (r: (u32, u32))
    requires
        8 * i + 8 <= u@.len(),
    ensures
        r == block_of(u@.subrange(8 * i, 8 * i + 8)),
{
    let total = u.len();
    let a = get(u, i);
    assert(a@ =~= u@.subrange(8 * i, 8 * i + 8));
    split2x32(a)
}

/// The block counter and the length remainder in the header of a frame.
fn read_header(u: &[u8]) -> (r: (u64, usize))
    requires
        u@.len() >= 8,
    ensures
        r.0 == frame_counter(u@),
        r.0 <= COUNTER_MASK,
        r.1 == header_rem(frame_header(u@)),
        r.1 < 8,
{
    let hw = split2x32(get(u, 0));
    let cc = (hw.0 as u64) | ((hw.1 as u64) << 32);
    assert(cc == frame_header(u@));
    let c0 = cc >> 3;
    let low = cc & 7;
    assert(c0 <= 0x1fff_ffff_ffff_ffff && low < 8) by (bit_vector)
        requires
            c0 == cc >> 3,
            low == cc & 7,
    ;
    (c0, low as usize)
}

/// One step of opening: the ciphertext block `e` of counter `c` is chained
/// into the tag accumulator `axy` and decrypted.
fn open_block(k: [u32; 4], c: u64, axy: (u32, u32), e: (u32, u32)) -> (r: ((u32, u32), [u8; 8]))
    ensures
        r.0 == permute(xor(axy, e), k@),
        r.1@ == block_bytes(xor(permute(halves(c), k@), e)),
{
    let next = h((axy.0 ^ e.0, axy.1 ^ e.1), k);
    let (kx, ky) = h(split_counter(c), k);
    (next, join2x32(kx ^ e.0, ky ^ e.1))
}

/// One step of sealing: the plaintext block `p` of counter `c` is encrypted
/// and chained into the tag accumulator `axy`.
fn seal_block(k: [u32; 4], c: u64, axy: (u32, u32), p: (u32, u32)) -> (r: ((u32, u32), [u8; 8]))
    ensures
        r.0 == permute(xor(axy, xor(permute(halves(c), k@), p)), k@),
        r.1@ == block_bytes(xor(permute(halves(c), k@), p)),
{
    let (kx, ky) = h(split_counter(c), k);
    let ex = kx ^ p.0;
    let ey = ky ^ p.1;
    let next = h((axy.0 ^ ex, axy.1 ^ ey), k);
    (next, join2x32(ex, ey))
}

/// The tag after one more block.
proof fn lemma_tag_step(k: Seq<u32>, acc: Block, cipher: Seq<Block>, i: int)
    requires
        0 <= i < cipher.len(),
    ensures
        tag(k, acc, cipher.take(i + 1)) == permute(
            xor(tag(k, acc, cipher.take(i)), cipher[i]),
            k,
        ),
{
    assert(cipher.take(i + 1).drop_last() =~= cipher.take(i));
}

/// Opens the blocks of the frame `u` into the front of `buf`, `m` bytes in
/// all, and returns the tag that the header and the blocks call for.
fn open_blocks(k: [u32; 4], u: &[u8], buf: &mut [u8], c0: u64, m: usize) -> (axy: (u32, u32))
    requires
        valid_len(u@.len()),
        c0 <= COUNTER_MASK,
        m <= old(buf)@.len(),
        u@.len() - 24 < m <= u@.len() - 16,
    ensures
        axy == tag(k@, halves(c0), cipher_blocks(u@)),
        final(buf)@ == flatten(crypt(k@, c0, cipher_blocks(u@))).take(m as int) + old(buf)@.skip(
            m as int,
        ),
{
    let ghost before = buf@;
    let ghost cipher = cipher_blocks(u@);
    let ghost plain = flatten(crypt(k@, c0, cipher));
    let total = buf.len();
    let n = (u.len() - 16) / 8;
    let mut c = c0;
    let mut axy = split_counter(c);
    let mut i: usize = 0;
    proof {
        assert(cipher.take(0) =~= Seq::<Block>::empty());
        lemma_flatten_len(crypt(k@, c0, cipher));
        lemma_unfilled(before, plain);
    }
    while i < n
        invariant
            i <= n == cipher.len(),
            8 * n + 16 == u@.len(),
            8 * (n - 1) < m <= 8 * n,
            m <= total == before.len() == buf@.len(),
            cipher == cipher_blocks(u@),
            plain == flatten(crypt(k@, c0, cipher)),
            plain.len() == 8 * n,
            c0 <= COUNTER_MASK,
            c == c0 + i,
            axy == tag(k@, halves(c0), cipher.take(i as int)),
            filled(
                buf@,
                before,
                plain,
                if i < n {
                    8 * i
                } else {
                    m as int
                },
            ),
        decreases n - i,
    {
        let ghost prior = buf@;
        let width = if m - 8 * i < 8 {
            m - 8 * i
        } else {
            8
        };
        let e = block_at(u, i + 1);
        let (next, p) = open_block(k, c, axy, e);
        put(buf, 8 * i, &p, width);
        proof {
            assert(counter_at(c0, i as int) == c);
            assert(cipher[i as int] == e);
            lemma_tag_step(k@, halves(c0), cipher, i as int);
            lemma_flatten_block(crypt(k@, c0, cipher), i as int);
            assert(plain.subrange(8 * i, 8 * i + width) =~= p@.take(width as int));
            lemma_fill(prior, before, plain, 8 * i, p@.take(width as int));
        }
        axy = next;
        c += 1;
        i += 1;
    }
    proof {
        assert(cipher.take(n as int) =~= cipher);
        lemma_filled(buf@, before, plain, m as int);
    }
    axy
}

/// Seals the blocks of the plaintext `u` into `buf` behind the header, and
/// returns the tag that the header and the blocks call for.
fn seal_blocks(
    k: [u32; 4],
    u: &[u8],
    buf: &mut [u8],
    Ghost(ctr): Ghost<u64>,
    Ghost(before): Ghost<Seq<u8>>,
    c0: u64,
    n: usize,
) -> (r: ((u32, u32), u64))
    requires
        c0 == block_counter(ctr),
        c0 <= COUNTER_MASK,
        n == block_count(u@.len()),
        16 + 8 * n <= old(buf)@.len(),
        filled(old(buf)@, before, frame(k@, ctr, u@), 8),
    ensures
        r.0 == tag(k@, halves(c0), sealed_blocks(k@, ctr, u@)),
        r.1 == next_counter(ctr, u@.len()),
        filled(final(buf)@, before, frame(k@, ctr, u@), 8 + 8 * n),
{
    let ghost cipher = sealed_blocks(k@, ctr, u@);
    let ghost whole = frame(k@, ctr, u@);
    let total = buf.len();
    let mut c = c0;
    let mut axy = split_counter(c);
    let mut i: usize = 0;
    proof {
        lemma_frame_parts(k@, ctr, u@);
        lemma_filled_len(buf@, before, whole, 8);
        assert(cipher.take(0) =~= Seq::<Block>::empty());
    }
    while i < n
        invariant
            i <= n == block_count(u@.len()),
            16 + 8 * n <= total == buf@.len() == before.len(),
            cipher == sealed_blocks(k@, ctr, u@),
            whole == frame(k@, ctr, u@),
            whole.len() == 16 + 8 * n,
            cipher.len() == n,
            c0 == block_counter(ctr),
            c0 <= COUNTER_MASK,
            c == c0 + i,
            axy == tag(k@, halves(c0), cipher.take(i as int)),
            filled(buf@, before, whole, 8 + 8 * i),
        decreases n - i,
    {
        let ghost prior = buf@;
        let p = split2x32(get(u, i));
        let (next, e) = seal_block(k, c, axy, p);
        put(buf, 8 + 8 * i, &e, 8);
        proof {
            assert(counter_at(c0, i as int) == c);
            assert(e@ == block_bytes(cipher[i as int]));
            lemma_tag_step(k@, halves(c0), cipher, i as int);
            lemma_frame_block(k@, ctr, u@, i as int);
            assert(e@.take(8) =~= e@);
            lemma_fill(prior, before, whole, 8 + 8 * i, e@);
            lemma_filled_len(buf@, before, whole, 8 + 8 * (i + 1));
        }
        axy = next;
        c += 1;
        i += 1;
    }
    proof {
        assert(cipher.take(n as int) =~= cipher);
    }
    (axy, c)
}

impl Transformer for BlockTransform {
    open spec fn sealed(&self, plain: Seq<u8>) -> Seq<u8> {
        frame(self.key(), self.counter(), plain)
    }

    open spec fn opened(&self, frame: Seq<u8>) -> Option<Seq<u8>> {
        open_frame(self.key(), frame)
    }

    open spec fn room(&self, frame: Seq<u8>) -> nat {
        if valid_len(frame.len()) {
            plain_len(frame)
        } else {
            0
        }
    }

    /// Opens the frame `u` into the front of `buf`. Returns the length of the
    /// plaintext where the frame is accepted, and `None` where it is
    /// rejected: where it is shorter than 24 bytes or not made of whole
    /// blocks, or where its tag is not the one its header and blocks call
    /// for.
    ///
    /// The bytes recovered from a frame of valid length are written before
    /// the tag is compared, so they are in `buf` also where the frame is then
    /// rejected. The transform itself does not change.
    fn decode(&mut self, u: &[u8], buf: &mut [u8]) -> (r: Option<usize>)
        ensures
            final(self).key() == old(self).key(),
            final(self).counter() == old(self).counter(),
            r == (if accepted(old(self).key(), u@) {
                Some(plain_len(u@) as usize)
            } else {
                None
            }),
            !valid_len(u@.len()) ==> r is None,
            !valid_len(u@.len()) ==> final(buf)@ == old(buf)@,
            valid_len(u@.len()) ==> final(buf)@ == recovered(old(self).key(), u@) + old(
                buf,
            )@.skip(plain_len(u@) as int),
    {
        let m0 = u.len();
        if m0 < MIN_FRAME || m0 % 8 != 0 {
            return None;
        }
        let (c0, rem) = read_header(u);
        let m = if rem == 0 {
            m0 - 16
        } else {
            m0 - 24 + rem
        };
        let axy = open_blocks(self.k, u, buf, c0, m);
        let t = block_at(u, m0 / 8 - 1);
        proof {
            assert(m == plain_len(u@));
            assert(t == frame_tag(u@));
            assert(axy == expected_tag(self.k@, u@));
            lemma_flatten_len(crypt(self.k@, c0, cipher_blocks(u@)));
            assert(buf@.take(m as int) =~= recovered(self.k@, u@));
        }
        if axy.0 != t.0 || axy.1 != t.1 {
            None
        } else {
            Some(m)
        }
    }

    /// Seals the plaintext `u` into the front of `buf` and returns the length
    /// of the frame. The counter advances by one for every block sealed.
    fn encode(&mut self, u: &[u8], buf: &mut [u8]) -> (r: Option<usize>)
        ensures
            r == Some(frame_len(u@.len()) as usize),
            final(self).key() == old(self).key(),
            final(self).counter() == next_counter(old(self).counter(), u@.len()),
    {
        let ghost before = buf@;
        let ghost whole = frame(self.k@, self.ctr, u@);
        let m = u.len();
        let total = buf.len();
        proof {
            lemma_frame_len(m as nat);
            lemma_frame_parts(self.k@, self.ctr, u@);
        }
        let n = if m % 8 == 0 {
            m / 8
        } else {
            m / 8 + 1
        };
        let ctr0 = self.ctr;
        let c0 = ctr0 & COUNTER_MASK;
        assert(c0 <= 0x1fff_ffff_ffff_ffff) by (bit_vector)
            requires
                c0 == ctr0 & 0x1fff_ffff_ffff_ffff,
        ;
        let cc = (c0 << 3) | ((m % 8) as u64);
        let hd = join2x32((cc & 0xffff_ffff) as u32, (cc >> 32) as u32);
        put(buf, 0, &hd, 8);
        proof {
            assert(hd@.take(8) =~= hd@);
            assert(cc == header(c0, m as nat));
            lemma_frame_head(self.k@, ctr0, u@);
            lemma_unfilled(before, whole);
            lemma_fill(before, before, whole, 0, hd@);
        }
        let (axy, c) = seal_blocks(self.k, u, buf, Ghost(ctr0), Ghost(before), c0, n);
        let ghost prior = buf@;
        let tg = join2x32(axy.0, axy.1);
        proof {
            lemma_filled_len(prior, before, whole, 8 + 8 * n);
        }
        put(buf, 8 + 8 * n, &tg, 8);
        self.ctr = c;
        proof {
            assert(tg@.take(8) =~= tg@);
            lemma_frame_tail(self.k@, ctr0, u@);
            lemma_fill(prior, before, whole, 8 + 8 * n, tg@);
            lemma_filled(buf@, before, whole, 16 + 8 * n);
            assert(whole.take(16 + 8 * n) =~= whole);
        }
        Some(16 + 8 * n)
    }
}

} // verus!
