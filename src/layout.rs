//! Placement of block bits in an RGBA pixel buffer. The carrier's pixels,
//! in row-major order, are cut into one equal region per block; bit `j` of a
//! block goes to the least-significant bit of channel `j % 3` of pixel `j` of
//! its region. Alpha is never written.
use vstd::prelude::*;
use vstd::arithmetic::div_mod::{lemma_fundamental_div_mod, lemma_fundamental_div_mod_converse};
use crate::StegError;

verus! {

/// Bytes per pixel in the buffer: red, green, blue, alpha.
pub const CHANNELS: usize = 4;

/// Bit `j` of a byte sequence, least-significant bit of each byte first.
pub open spec fn bit_of(b: Seq<u8>, j: int) -> u8 {
    (b[j / 8] >> ((j % 8) as u8)) & 1u8
}

/// Index in the pixel buffer of the channel byte that carries bit `j` of a
/// block whose region starts at flat pixel offset `start`.
pub open spec fn slot(start: int, j: int) -> int {
    CHANNELS * (start + j) + j % 3
}

/// Lengths of the blocks of a block set.
pub open spec fn lens_of(bs: Seq<Seq<u8>>) -> Seq<nat> {
    Seq::new(bs.len(), |k: int| bs[k].len())
}

/// The views of a vector of blocks.
pub open spec fn blocks_view(blocks: Seq<Vec<u8>>) -> Seq<Seq<u8>> {
    blocks.map_values(|b: Vec<u8>| b@)
}

/// Whether blocks of these lengths can be laid out over `wh` pixels: there
/// is at least one block, and each block's bits fit the region of
/// `wh / lens.len()` pixels that is its own.
pub open spec fn fits(wh: nat, lens: Seq<nat>) -> bool {
    lens.len() > 0 && forall|k: int| 0 <= k < lens.len() ==> 8 * #[trigger] lens[k] <= wh / lens.len()
}

/// The bit that a laid-out block set puts in byte `idx` of the pixel buffer,
/// if any.
pub open spec fn carried(bs: Seq<Seq<u8>>, wh: nat, idx: int) -> Option<u8> {
    let r = wh / bs.len();
    let p = idx / (CHANNELS as int);
    let k = p / (r as int);
    let j = p % (r as int);
    if 0 <= idx && r > 0 && k < bs.len() && j < 8 * bs[k].len() && idx % (CHANNELS as int) == j % 3 {
        Some(bit_of(bs[k], j))
    } else {
        None
    }
}

/// A channel value with its least-significant bit replaced.
pub open spec fn with_lsb(v: u8, b: u8) -> u8 {
    (v & 0xFEu8) | b
}

/// What a channel byte becomes when a bit may be written to it.
pub open spec fn after_embed(v: u8, c: Option<u8>) -> u8 {
    match c {
        Some(b) => with_lsb(v, b),
        None => v,
    }
}

/// `new` is `old` with every bit of the block set written in its place, and
/// every other byte unchanged.
pub open spec fn embedded(old: Seq<u8>, new: Seq<u8>, wh: nat, bs: Seq<Seq<u8>>) -> bool {
    new.len() == old.len() && forall|idx: int|
        0 <= idx < old.len() ==> #[trigger] new[idx] == after_embed(old[idx], carried(bs, wh, idx))
}

/// Whether the bit of byte `idx`, if any, comes before bit `j` of block `k`.
pub open spec fn placed_before(bs: Seq<Seq<u8>>, wh: nat, idx: int, k: int, j: int) -> bool {
    let r = wh / bs.len();
    let p = idx / (CHANNELS as int);
    r > 0 && (p / (r as int) < k || (p / (r as int) == k && p % (r as int) < j))
}

/// The buffer after every bit before bit `j` of block `k` was written.
pub open spec fn staged(old: Seq<u8>, cur: Seq<u8>, wh: nat, bs: Seq<Seq<u8>>, k: int, j: int) -> bool {
    cur.len() == old.len() && forall|idx: int|
        0 <= idx < old.len() ==> #[trigger] cur[idx] == (if placed_before(bs, wh, idx, k, j) {
            after_embed(old[idx], carried(bs, wh, idx))
        } else {
            old[idx]
        })
}

/// The slot of bit `j` of the block at region `k` lies in pixel `k * r + j`.
proof fn lemma_slot_decompose(r: int, k: int, j: int)
    requires
        r > 0,
        k >= 0,
        0 <= j < r,
    ensures
        slot(k * r, j) / (CHANNELS as int) == k * r + j,
        slot(k * r, j) % (CHANNELS as int) == j % 3,
        (k * r + j) / r == k,
        (k * r + j) % r == j,
{
    lemma_fundamental_div_mod_converse(slot(k * r, j), CHANNELS as int, k * r + j, j % 3);
    lemma_fundamental_div_mod_converse(k * r + j, r, k, j);
}

/// A byte that carries a bit is the slot of that bit.
proof fn lemma_carried_slot(bs: Seq<Seq<u8>>, wh: nat, idx: int)
    requires
        carried(bs, wh, idx) is Some,
    ensures
        ({
            let r = (wh / bs.len()) as int;
            let p = idx / (CHANNELS as int);
            idx == slot((p / r) * r, p % r) && p / r >= 0 && 0 <= p % r < r
        }),
{
    let r = (wh / bs.len()) as int;
    let p = idx / (CHANNELS as int);
    lemma_fundamental_div_mod(idx, CHANNELS as int);
    lemma_fundamental_div_mod(p, r);
    assert(p == r * (p / r) + p % r);
    assert((p / r) * r == r * (p / r)) by (nonlinear_arith);
}

/// A bit of block `k` lies inside the carrier.
pub proof fn lemma_block_in_range(wh: nat, n: nat, k: int, j: int)
    requires
        n > 0,
        0 <= k < n,
        0 <= j < wh / n,
    ensures
        k * (wh / n) + j < wh,
        CHANNELS * (k * (wh / n) + j) + 3 <= CHANNELS * wh,
{
    let r = (wh / n) as int;
    lemma_fundamental_div_mod(wh as int, n as int);
    assert(k * r + j < (k + 1) * r) by (nonlinear_arith)
        requires j < r;
    assert((k + 1) * r <= n * r) by (nonlinear_arith)
        requires k + 1 <= n, r >= 0;
}

/// Checks that a block set fits the carrier before anything is written.
pub fn validate_capacity(wh: usize, blocks: &Vec<Vec<u8>>) -> (r: Result<(), StegError>)
    ensures
        r is Ok <==> fits(wh as nat, lens_of(blocks_view(blocks@))),
        r is Err ==> r == Err::<(), StegError>(StegError::InsufficientCapacity),
{
    let ghost lens = lens_of(blocks_view(blocks@));
    if blocks.len() == 0 {
        return Err(StegError::InsufficientCapacity);
    }
    let region = wh / blocks.len();
    let mut k: usize = 0;
    while k < blocks.len()
        invariant
            lens == lens_of(blocks_view(blocks@)),
            blocks@.len() > 0,
            region == wh as nat / lens.len(),
            k <= blocks@.len(),
            forall|i: int| 0 <= i < k ==> 8 * #[trigger] lens[i] <= region,
        decreases blocks@.len() - k,
    {
        let len = blocks[k].len();
        assert(lens[k as int] == len);
        if len > region / 8 {
            assert(8 * len > region) by (nonlinear_arith)
                requires len > region / 8;
            return Err(StegError::InsufficientCapacity);
        }
        assert(8 * len <= region) by (nonlinear_arith)
            requires len <= region / 8;
        k = k + 1;
    }
    Ok(())
}

/// Writes each bit of each block into its channel's least-significant bit.
pub fn embed_blocks(pixels: &mut Vec<u8>, wh: usize, blocks: &Vec<Vec<u8>>)
    requires
        old(pixels)@.len() == CHANNELS * wh,
        fits(wh as nat, lens_of(blocks_view(blocks@))),
    ensures
        embedded(old(pixels)@, final(pixels)@, wh as nat, blocks_view(blocks@)),
{
    let ghost bs = blocks_view(blocks@);
    let ghost old_px = pixels@;
    let plen = pixels.len();
    let n = blocks.len();
    let region = wh / n;
    assert(forall|idx: int| 0 <= idx < old_px.len() ==> !placed_before(bs, wh as nat, idx, 0, 0)) by {
        assert forall|idx: int| 0 <= idx < old_px.len() implies !placed_before(bs, wh as nat, idx, 0, 0) by {
            if region > 0 {
                let p = idx / (CHANNELS as int);
                assert(p >= 0);
                assert(p / (region as int) >= 0) by (nonlinear_arith)
                    requires p >= 0, region > 0;
                assert(p % (region as int) >= 0) by (nonlinear_arith)
                    requires p >= 0, region > 0;
            }
        }
    }
    let mut k: usize = 0;
    while k < n
        invariant
            bs == blocks_view(blocks@),
            n == bs.len(),
            n > 0,
            region == wh as nat / n as nat,
            fits(wh as nat, lens_of(bs)),
            old_px.len() == CHANNELS * wh,
            plen == old_px.len(),
            k <= n,
            staged(old_px, pixels@, wh as nat, bs, k as int, 0),
        decreases n - k,
    {
        assert(8 * lens_of(bs)[k as int] <= region);
        let block = &blocks[k];
        assert(block@ == bs[k as int]);
        let nbits = block.len() * 8;
        proof {
            if nbits > 0 {
                lemma_block_in_range(wh as nat, n as nat, k as int, (nbits - 1) as int);
            }
            assert(k * region <= wh) by (nonlinear_arith)
                requires k < n, region == wh as nat / n as nat, n > 0;
        }
        let start = k * region;
        let mut j: usize = 0;
        while j < nbits
            invariant
                bs == blocks_view(blocks@),
                n == bs.len(),
                n > 0,
                k < n,
                region == wh as nat / n as nat,
                region > 0 || nbits == 0,
                nbits <= region,
                start == k * region,
                block@ == bs[k as int],
                nbits == 8 * block@.len(),
                old_px.len() == CHANNELS * wh,
                plen == old_px.len(),
                j <= nbits,
                staged(old_px, pixels@, wh as nat, bs, k as int, j as int),
            decreases nbits - j,
        {
            proof {
                lemma_block_in_range(wh as nat, n as nat, k as int, j as int);
                lemma_slot_decompose(region as int, k as int, j as int);
            }
            let bit = (block[j / 8] >> ((j % 8) as u8)) & 1u8;
            let s = CHANNELS * (start + j) + j % 3;
            let ghost before = pixels@;
            let v = pixels[s];
            pixels.set(s, (v & 0xFEu8) | bit);
            proof {
                let ghost sl = slot(k * region, j as int);
                assert(s == sl);
                assert(carried(bs, wh as nat, sl) == Some(bit));
                assert forall|idx: int| 0 <= idx < old_px.len() implies #[trigger] pixels@[idx] == (
                if placed_before(bs, wh as nat, idx, k as int, j + 1) {
                    after_embed(old_px[idx], carried(bs, wh as nat, idx))
                } else {
                    old_px[idx]
                }) by {
                    if idx != s {
                        assert(pixels@[idx] == before[idx]);
                        if carried(bs, wh as nat, idx) is Some && placed_before(bs, wh as nat, idx, k as int, j + 1)
                            && !placed_before(bs, wh as nat, idx, k as int, j as int) {
                            lemma_carried_slot(bs, wh as nat, idx);
                        }
                    }
                }
            }
            j = j + 1;
        }
        proof {
            assert forall|idx: int| 0 <= idx < old_px.len() implies #[trigger] pixels@[idx] == (
            if placed_before(bs, wh as nat, idx, k + 1, 0) {
                after_embed(old_px[idx], carried(bs, wh as nat, idx))
            } else {
                old_px[idx]
            }) by {
                let p = idx / (CHANNELS as int);
                if region > 0 {
                    assert(p >= 0);
                    assert(p % (region as int) >= 0) by (nonlinear_arith)
                        requires p >= 0, region > 0;
                }
            }
        }
        k = k + 1;
    }
    proof {
        assert forall|idx: int| 0 <= idx < old_px.len() implies #[trigger] pixels@[idx] == after_embed(
            old_px[idx],
            carried(bs, wh as nat, idx),
        ) by {
            if carried(bs, wh as nat, idx) is Some {
                assert(placed_before(bs, wh as nat, idx, n as int, 0));
            }
        }
    }
}

/// The least-significant bit of byte `i` of the pixel buffer.
pub open spec fn lsb_at(px: Seq<u8>, i: int) -> u8 {
    px[i] & 1u8
}

/// The first `t` bits of byte `m` of a block placed at `start`, gathered
/// from the pixel buffer.
pub open spec fn gather(px: Seq<u8>, start: int, m: int, t: nat) -> u8
    decreases t,
{
    if t == 0 {
        0u8
    } else {
        gather(px, start, m, (t - 1) as nat) | (lsb_at(px, slot(start, 8 * m + t - 1)) << ((t
            - 1) as u8))
    }
}

/// The `len` bytes of a block placed at `start`, read from the pixel buffer.
pub open spec fn extracted(px: Seq<u8>, start: int, len: nat) -> Seq<u8> {
    Seq::new(len, |m: int| gather(px, start, m, 8))
}

/// Reads the `len` bytes of a block whose region starts at pixel `start`.
pub fn extract_block(pixels: &[u8], start: usize, len: usize) -> (r: Vec<u8>)
    requires
        CHANNELS * (start + 8 * len) <= pixels@.len(),
    ensures
        r@ == extracted(pixels@, start as int, len as nat),
{
    let plen = pixels.len();
    let mut out: Vec<u8> = Vec::new();
    let mut m: usize = 0;
    while m < len
        invariant
            CHANNELS * (start + 8 * len) <= pixels@.len(),
            plen == pixels@.len(),
            m <= len,
            out@ =~= extracted(pixels@, start as int, m as nat),
        decreases len - m,
    {
        let mut acc: u8 = 0;
        let mut t: usize = 0;
        while t < 8
            invariant
                CHANNELS * (start + 8 * len) <= pixels@.len(),
                plen == pixels@.len(),
                m < len,
                t <= 8,
                acc == gather(pixels@, start as int, m as int, t as nat),
            decreases 8 - t,
        {
            assert(8 * m + t < 8 * len) by (nonlinear_arith)
                requires m < len, t < 8;
            assert(CHANNELS * (start + (8 * m + t)) + 2 < CHANNELS * (start + 8 * len)) by (nonlinear_arith)
                requires 8 * m + t < 8 * len;
            let j = 8 * m + t;
            let s = CHANNELS * (start + j) + j % 3;
            acc = acc | ((pixels[s] & 1u8) << (t as u8));
            t = t + 1;
        }
        out.push(acc);
        m = m + 1;
    }
    out
}

/// A byte is the sum of its eight bits, each shifted into place.
proof fn lemma_bits_rebuild_byte(v: u8, b0: u8, b1: u8, b2: u8, b3: u8, b4: u8, b5: u8, b6: u8, b7: u8)
    requires
        b0 == (v >> 0u8) & 1u8,
        b1 == (v >> 1u8) & 1u8,
        b2 == (v >> 2u8) & 1u8,
        b3 == (v >> 3u8) & 1u8,
        b4 == (v >> 4u8) & 1u8,
        b5 == (v >> 5u8) & 1u8,
        b6 == (v >> 6u8) & 1u8,
        b7 == (v >> 7u8) & 1u8,
    ensures
        ((((((((0u8 | (b0 << 0u8)) | (b1 << 1u8)) | (b2 << 2u8)) | (b3 << 3u8)) | (b4 << 4u8)) | (b5
            << 5u8)) | (b6 << 6u8)) | (b7 << 7u8)) == v,
{
    assert(((((((((0u8 | (b0 << 0u8)) | (b1 << 1u8)) | (b2 << 2u8)) | (b3 << 3u8)) | (b4 << 4u8))
        | (b5 << 5u8)) | (b6 << 6u8)) | (b7 << 7u8)) == v) by (bit_vector)
        requires
            b0 == (v >> 0u8) & 1u8,
            b1 == (v >> 1u8) & 1u8,
            b2 == (v >> 2u8) & 1u8,
            b3 == (v >> 3u8) & 1u8,
            b4 == (v >> 4u8) & 1u8,
            b5 == (v >> 5u8) & 1u8,
            b6 == (v >> 6u8) & 1u8,
            b7 == (v >> 7u8) & 1u8,
    ;
}

/// Writing a bit into the lowest bit of a byte reads back as that bit.
proof fn lemma_lsb_of_written(v: u8, b: u8)
    requires
        b == b & 1u8,
    ensures
        with_lsb(v, b) & 1u8 == b,
{
    assert(((v & 0xFEu8) | b) & 1u8 == b) by (bit_vector)
        requires b == b & 1u8;
}

/// Reading block `k` back from a buffer into which the block set was
/// embedded gives the block.
pub proof fn lemma_extract_embedded(old: Seq<u8>, new: Seq<u8>, wh: nat, bs: Seq<Seq<u8>>, k: int)
    requires
        old.len() == CHANNELS * wh,
        fits(wh, lens_of(bs)),
        embedded(old, new, wh, bs),
        0 <= k < bs.len(),
    ensures
        extracted(new, k * (wh / bs.len()) as int, bs[k].len()) == bs[k],
{
    let r = (wh / bs.len()) as int;
    let start = k * r;
    let b = bs[k];
    assert(8 * lens_of(bs)[k] <= r);
    assert forall|m: int| 0 <= m < b.len() implies gather(new, start, m, 8) == b[m] by {
        assert forall|t: int| 0 <= t < 8 implies #[trigger] lsb_at(new, slot(start, 8 * m + t)) == (b[m] >> (t as u8)) & 1u8 by {
            let j = 8 * m + t;
            assert(j < 8 * b.len()) by (nonlinear_arith)
                requires j == 8 * m + t, m < b.len(), t < 8;
            lemma_slot_decompose(r, k, j);
            lemma_block_in_range(wh, bs.len(), k, j);
            lemma_fundamental_div_mod_converse(j, 8, m, t);
            let s = slot(start, j);
            assert(carried(bs, wh, s) == Some(bit_of(b, j)));
            let bit = bit_of(b, j);
            let bm = b[m];
            let tt = t as u8;
            assert(bit == (bm >> tt) & 1u8);
            assert(bit == bit & 1u8) by (bit_vector)
                requires bit == (bm >> tt) & 1u8;
            lemma_lsb_of_written(old[s], bit);
        }
        reveal_with_fuel(gather, 9);
        lemma_bits_rebuild_byte(
            b[m],
            lsb_at(new, slot(start, 8 * m + 0)),
            lsb_at(new, slot(start, 8 * m + 1)),
            lsb_at(new, slot(start, 8 * m + 2)),
            lsb_at(new, slot(start, 8 * m + 3)),
            lsb_at(new, slot(start, 8 * m + 4)),
            lsb_at(new, slot(start, 8 * m + 5)),
            lsb_at(new, slot(start, 8 * m + 6)),
            lsb_at(new, slot(start, 8 * m + 7)),
        );
    }
    assert(extracted(new, start, b.len()) =~= b);
}

/// Sum of a sequence of block lengths.
pub open spec fn total_len(lens: Seq<nat>) -> nat
    decreases lens.len(),
{
    if lens.len() == 0 {
        0
    } else {
        total_len(lens.drop_last()) + lens.last()
    }
}

/// The first `i` blocks, each within a region, take at most `i` regions.
proof fn lemma_prefix_bits(lens: Seq<nat>, region: nat, i: nat)
    requires
        i <= lens.len(),
        forall|k: int| 0 <= k < lens.len() ==> 8 * #[trigger] lens[k] <= region,
    ensures
        8 * total_len(lens.subrange(0, i as int)) <= i * region,
    decreases i,
{
    if i > 0 {
        let s = lens.subrange(0, i as int);
        assert(s.drop_last() =~= lens.subrange(0, i - 1));
        lemma_prefix_bits(lens, region, (i - 1) as nat);
        assert(8 * lens[i - 1] <= region);
        assert((i - 1) * region + region == i * region) by (nonlinear_arith);
    } else {
        assert(lens.subrange(0, 0).len() == 0);
    }
}

/// Blocks that fit a carrier take no more bits than it has pixels: a
/// carrier with fewer pixels than the bits of a block set is refused.
pub proof fn lemma_fits_needs_every_bit(wh: nat, lens: Seq<nat>)
    requires
        wh < 8 * total_len(lens),
    ensures
        !fits(wh, lens),
{
    if fits(wh, lens) {
        let n = lens.len();
        let r = wh / n;
        lemma_prefix_bits(lens, r, n);
        assert(lens.subrange(0, n as int) =~= lens);
        assert(n * r <= wh) by (nonlinear_arith)
            requires r == wh / n, n > 0;
    }
}

/// Embedding changes a channel byte in its lowest bit alone, so by at most
/// one, and leaves every byte that carries no bit, alpha among them, as it
/// was.
pub proof fn lemma_embed_non_destructive(old: Seq<u8>, new: Seq<u8>, wh: nat, bs: Seq<Seq<u8>>)
    requires
        embedded(old, new, wh, bs),
    ensures
        forall|idx: int|
            0 <= idx < old.len() ==> (#[trigger] new[idx] >> 1u8) == old[idx] >> 1u8 && (new[idx]
                == old[idx] || new[idx] == old[idx] + 1 || new[idx] + 1 == old[idx]),
        forall|idx: int|
            0 <= idx < old.len() && carried(bs, wh, idx) is None ==> #[trigger] new[idx]
                == old[idx],
        forall|idx: int|
            0 <= idx < old.len() && idx % (CHANNELS as int) == 3 ==> #[trigger] new[idx]
                == old[idx],
{
    assert forall|idx: int| 0 <= idx < old.len() implies (#[trigger] new[idx] >> 1u8) == old[idx]
        >> 1u8 && (new[idx] == old[idx] || new[idx] == old[idx] + 1 || new[idx] + 1 == old[idx]) by {
        let v = old[idx];
        if let Some(b0) = carried(bs, wh, idx) {
            let b = b0;
            let k = (idx / (CHANNELS as int)) / (wh / bs.len()) as int;
            let j = (idx / (CHANNELS as int)) % (wh / bs.len()) as int;
            let byte = bs[k][j / 8];
            let sh = (j % 8) as u8;
            assert(b == (byte >> sh) & 1u8);
            assert(b <= 1) by (bit_vector)
                requires b == (byte >> sh) & 1u8;
            let nv = (v & 0xFEu8) | b;
            assert(nv >> 1u8 == v >> 1u8) by (bit_vector)
                requires nv == (v & 0xFEu8) | b, b <= 1;
            assert(nv == v || nv == v + 1 || nv + 1 == v) by (bit_vector)
                requires nv == (v & 0xFEu8) | b, b <= 1;
        }
    }
}

} // verus!
