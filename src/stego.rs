//! Encoding a payload into a pixel buffer and decoding it back.
use vstd::prelude::*;
use crate::StegError;
use crate::ecc::{
    block_data_len, block_lens, blocks_of, chunk, codeword, corrected_concat, data_concat,
    decode_ecc, encode_ecc, is_codeword, le_bytes, le_value, lemma_le_round_trip,
    num_data_blocks, read_le_u64, rs_correct, rs_corrected, DATA_LEN, HEADER_DATA_LEN,
    PARITY_LEN,
};
use crate::layout::{
    blocks_view, embed_blocks, embedded, extract_block, extracted, fits, lemma_block_in_range,
    lemma_extract_embedded, lemma_fits_needs_every_bit, lens_of, total_len, validate_capacity,
    CHANNELS,
};

verus! {

/// Bytes of the header block: the length and its parity.
pub const HEADER_BLOCK_LEN: usize = 40;

/// The pixel buffer holds, in the layout of its block set, every block of
/// the payload `p`.
pub open spec fn carries(px: Seq<u8>, wh: nat, p: Seq<u8>) -> bool {
    let lens = block_lens(p.len());
    let bs = blocks_of(p);
    &&& p.len() <= u64::MAX
    &&& fits(wh, lens)
    &&& forall|k: int|
        0 <= k < bs.len() ==> #[trigger] extracted(px, k * (wh / lens.len()) as int, lens[k])
            == bs[k]
}

/// The data blocks read from the pixel buffer for a payload of `n` bytes.
pub open spec fn data_blocks_read(px: Seq<u8>, wh: nat, n: nat) -> Seq<Seq<u8>> {
    let lens = block_lens(n);
    let r = wh / lens.len();
    Seq::new(num_data_blocks(n), |k: int| extracted(px, (k + 1) * r as int, lens[k + 1]))
}

/// What decoding a pixel buffer of `wh` pixels yields: the header is read
/// from the first pixels and corrected, the length it holds fixes the layout,
/// and the data blocks are read, corrected and joined.
pub open spec fn decoded(px: Seq<u8>, wh: nat) -> Result<Seq<u8>, StegError> {
    if wh < 8 * HEADER_BLOCK_LEN {
        Err(StegError::InsufficientCapacity)
    } else {
        match rs_corrected(extracted(px, 0, HEADER_BLOCK_LEN as nat)) {
            None => Err(StegError::CorruptedBlock),
            Some(d) => {
                let n = le_value(d) as nat;
                if !fits(wh, block_lens(n)) {
                    Err(StegError::MalformedHeader)
                } else {
                    match corrected_concat(data_blocks_read(px, wh, n)) {
                        None => Err(StegError::CorruptedBlock),
                        Some(v) => Ok(v),
                    }
                }
            },
        }
    }
}

/// Embeds a payload into an RGBA pixel buffer of `width * height` pixels.
/// Fails, leaving the buffer as it was, where the blocks do not fit.
pub fn encode_pixels(pixels: &mut Vec<u8>, width: usize, height: usize, payload: &[u8]) -> (r:
    Result<(), StegError>)
    requires
        old(pixels)@.len() == CHANNELS * (width * height),
    ensures
        r is Ok <==> fits((width * height) as nat, block_lens(payload@.len())),
        width * height < 8 * total_len(block_lens(payload@.len())) ==> r is Err,
        r is Err ==> r == Err::<(), StegError>(StegError::InsufficientCapacity) && final(pixels)@
            == old(pixels)@,
        r is Ok ==> embedded(
            old(pixels)@,
            final(pixels)@,
            (width * height) as nat,
            blocks_of(payload@),
        ),
        r is Ok ==> carries(final(pixels)@, (width * height) as nat, payload@),
{
    let plen = pixels.len();
    assert(width * height <= plen) by (nonlinear_arith)
        requires plen == 4 * (width * height);
    let wh = width * height;
    proof {
        if width * height < 8 * total_len(block_lens(payload@.len())) {
            lemma_fits_needs_every_bit((width * height) as nat, block_lens(payload@.len()));
        }
    }
    let payload_len = payload.len();
    let blocks = encode_ecc(payload);
    let ghost bs = blocks_of(payload@);
    let ghost lens = block_lens(payload@.len());
    assert(blocks_view(blocks@) =~= bs);
    assert(lens_of(blocks_view(blocks@)) =~= lens);
    validate_capacity(wh, &blocks)?;
    let ghost old_px = pixels@;
    embed_blocks(pixels, wh, &blocks);
    proof {
        assert(usize::MAX == 0xffff_ffff || usize::MAX == 0xffff_ffff_ffff_ffff);
        assert(payload@.len() <= u64::MAX);
        assert(fits(wh as nat, lens));
        assert forall|k: int| 0 <= k < bs.len() implies #[trigger] extracted(
            pixels@,
            k * (wh as nat / lens.len()) as int,
            lens[k],
        ) == bs[k] by {
            lemma_extract_embedded(old_px, pixels@, wh as nat, bs, k);
        }
    }
    Ok(())
}

/// Data length of block `k` for a payload of `n` bytes, for `k` up to the
/// number of data blocks.
fn block_data_len_of(n: u64, k: usize) -> (r: usize)
    requires
        k <= num_data_blocks(n as nat),
    ensures
        r == block_data_len(n as nat, k as nat),
        r <= DATA_LEN,
{
    if k == 0 {
        HEADER_DATA_LEN
    } else {
        assert((k - 1) * DATA_LEN < n) by (nonlinear_arith)
            requires 1 <= k <= num_data_blocks(n as nat);
        let left = n - ((k - 1) as u64) * (DATA_LEN as u64);
        if left < DATA_LEN as u64 {
            left as usize
        } else {
            DATA_LEN
        }
    }
}

/// Whether the block set of an `n`-byte payload, `nb` data blocks, fits
/// regions of `region` pixels.
fn lens_fit(n: u64, nb: usize, region: usize) -> (r: bool)
    requires
        nb == num_data_blocks(n as nat),
        nb < usize::MAX,
    ensures
        r <==> forall|k: int| 0 <= k < block_lens(n as nat).len() ==> 8 * #[trigger] block_lens(n as nat)[k] <= region,
{
    let ghost lens = block_lens(n as nat);
    let mut k: usize = 0;
    while k <= nb
        invariant
            nb == num_data_blocks(n as nat),
            nb < usize::MAX,
            lens == block_lens(n as nat),
            k <= nb + 1,
            forall|i: int| 0 <= i < k ==> 8 * #[trigger] lens[i] <= region,
        decreases nb + 1 - k,
    {
        let dl = block_data_len_of(n, k);
        if 8 * (dl + PARITY_LEN) > region {
            assert(8 * lens[k as int] > region);
            return false;
        }
        k = k + 1;
    }
    true
}

/// The header of a carrier that holds `p` reads back as the codeword of its
/// length.
proof fn lemma_carried_header(px: Seq<u8>, wh: nat, p: Seq<u8>)
    requires
        carries(px, wh, p),
    ensures
        wh >= 8 * HEADER_BLOCK_LEN,
        is_codeword(extracted(px, 0, HEADER_BLOCK_LEN as nat)),
        extracted(px, 0, HEADER_BLOCK_LEN as nat).subrange(0, HEADER_DATA_LEN as int) == le_bytes(
            p.len() as u64,
        ),
        le_value(le_bytes(p.len() as u64)) == p.len(),
{
    let lens = block_lens(p.len());
    let bs = blocks_of(p);
    let r = wh / lens.len();
    assert(8 * lens[0] <= r);
    assert(r <= wh) by (nonlinear_arith)
        requires r == wh / lens.len(), lens.len() > 0;
    assert(0 * r == 0);
    let h = extracted(px, 0, HEADER_BLOCK_LEN as nat);
    assert(h == bs[0]);
    let le = le_bytes(p.len() as u64);
    assert(h.subrange(0, 8) =~= le);
    assert(h.subrange(8, 40) =~= rs_parity_of(le));
    assert(h =~= codeword(h.subrange(0, 8)));
    lemma_le_round_trip(p.len() as u64);
}

/// The parity part of the codeword of `d`.
spec fn rs_parity_of(d: Seq<u8>) -> Seq<u8> {
    codeword(d).subrange(d.len() as int, codeword(d).len() as int)
}

/// The data blocks of a carrier that holds `p` are codewords whose data
/// regions join into `p`.
proof fn lemma_carried_data(px: Seq<u8>, wh: nat, p: Seq<u8>)
    requires
        carries(px, wh, p),
    ensures
        forall|k: int|
            0 <= k < data_blocks_read(px, wh, p.len()).len() ==> is_codeword(
                #[trigger] data_blocks_read(px, wh, p.len())[k],
            ),
        data_concat(data_blocks_read(px, wh, p.len())) == p,
{
    let n = p.len();
    let lens = block_lens(n);
    let bs = blocks_of(p);
    let raw = data_blocks_read(px, wh, n);
    let nb = num_data_blocks(n);
    assert forall|k: int| 0 <= k < nb implies #[trigger] raw[k] == codeword(chunk(p, k as nat))
        && chunk(p, k as nat).len() == block_data_len(n, (k + 1) as nat) && raw[k].len() == chunk(
        p,
        k as nat,
    ).len() + PARITY_LEN && is_codeword(raw[k]) by {
        assert(raw[k] == extracted(px, (k + 1) * (wh / lens.len()) as int, lens[k + 1]));
        assert(raw[k] == bs[k + 1]);
        assert(k * DATA_LEN < n) by (nonlinear_arith)
            requires 0 <= k < nb, nb == num_data_blocks(n);
        let c = chunk(p, k as nat);
        assert(raw[k].len() == c.len() + PARITY_LEN);
        assert(raw[k].subrange(0, c.len() as int) =~= c);
    }
    lemma_chunks_concat(p, raw, nb);
    assert(raw.subrange(0, nb as int) =~= raw);
}

/// Bytes of an `n`-byte payload held by its first `i` chunks.
spec fn covered(i: nat, n: nat) -> int {
    if i * (DATA_LEN as nat) < n {
        i * DATA_LEN
    } else {
        n as int
    }
}

/// The data regions of the first `i` chunk codewords join into the bytes
/// those chunks cover.
proof fn lemma_chunks_concat(p: Seq<u8>, raw: Seq<Seq<u8>>, i: nat)
    requires
        raw.len() == num_data_blocks(p.len()),
        i <= raw.len(),
        forall|k: int|
            0 <= k < raw.len() ==> #[trigger] raw[k] == codeword(chunk(p, k as nat))
                && chunk(p, k as nat).len() == block_data_len(p.len(), (k + 1) as nat)
                && raw[k].len() == chunk(p, k as nat).len() + PARITY_LEN,
    ensures
        data_concat(raw.subrange(0, i as int)) == p.subrange(0, covered(i, p.len())),
    decreases i,
{
    let n = p.len();
    if i == 0 {
        assert(raw.subrange(0, 0) =~= Seq::<Seq<u8>>::empty());
        assert(p.subrange(0, 0) =~= Seq::<u8>::empty());
    } else {
        let k = (i - 1) as int;
        lemma_chunks_concat(p, raw, (i - 1) as nat);
        let s = raw.subrange(0, i as int);
        assert(s.drop_last() =~= raw.subrange(0, k));
        assert(s.last() == raw[k]);
        assert(k * DATA_LEN < n) by (nonlinear_arith)
            requires 0 <= k < raw.len(), raw.len() == num_data_blocks(n);
        let c = chunk(p, k as nat);
        assert(raw[k].subrange(0, raw[k].len() - PARITY_LEN) =~= c);
        assert(k * DATA_LEN + DATA_LEN == i * DATA_LEN);
        assert(p.subrange(0, k * DATA_LEN) + c =~= p.subrange(0, covered(i, n)));
    }
}

/// Decodes the payload hidden in an RGBA pixel buffer of `width * height`
/// pixels.
pub fn decode_pixels(pixels: &[u8], width: usize, height: usize) -> (r: Result<Vec<u8>, StegError>)
    requires
        pixels@.len() == CHANNELS * (width * height),
    ensures
        match r {
            Ok(v) => decoded(pixels@, (width * height) as nat) == Ok::<Seq<u8>, StegError>(v@),
            Err(e) => decoded(pixels@, (width * height) as nat) == Err::<Seq<u8>, StegError>(e),
        },
        forall|p: Seq<u8>| #[trigger] carries(pixels@, (width * height) as nat, p) ==> r is Ok && r->Ok_0@ == p,
{
    let plen = pixels.len();
    assert(width * height <= plen) by (nonlinear_arith)
        requires plen == 4 * (width * height);
    let wh = width * height;
    let ghost px = pixels@;
    if wh < 8 * HEADER_BLOCK_LEN {
        proof {
            assert forall|p: Seq<u8>| #[trigger] carries(px, wh as nat, p) implies false by {
                lemma_carried_header(px, wh as nat, p);
            }
        }
        return Err(StegError::InsufficientCapacity);
    }
    let header = extract_block(pixels, 0, HEADER_BLOCK_LEN);
    let d = match rs_correct(header.as_slice()) {
        Ok(d) => d,
        Err(_) => {
            proof {
                assert forall|p: Seq<u8>| #[trigger] carries(px, wh as nat, p) implies false by {
                    lemma_carried_header(px, wh as nat, p);
                }
            }
            return Err(StegError::CorruptedBlock);
        },
    };
    let len = read_le_u64(d.as_slice());
    let ghost n = len as nat;
    proof {
        assert forall|p: Seq<u8>| #[trigger] carries(px, wh as nat, p) implies p.len() == n by {
            lemma_carried_header(px, wh as nat, p);
            assert(d@ =~= le_bytes(p.len() as u64));
        }
    }
    let nb64: u64 = if len % (DATA_LEN as u64) == 0 {
        len / (DATA_LEN as u64)
    } else {
        len / (DATA_LEN as u64) + 1
    };
    assert(nb64 == num_data_blocks(n));
    if nb64 >= wh as u64 {
        proof {
            let lens = block_lens(n);
            if fits(wh as nat, lens) {
                assert(8 * lens[0] <= wh as nat / lens.len());
                assert(wh as nat / lens.len() == 0) by (nonlinear_arith)
                    requires lens.len() > wh;
            }
        }
        return Err(StegError::MalformedHeader);
    }
    let nb = nb64 as usize;
    assert(nb < wh);
    let region = wh / (nb + 1);
    if !lens_fit(len, nb, region) {
        return Err(StegError::MalformedHeader);
    }
    let ghost lens = block_lens(n);
    let ghost raw = data_blocks_read(px, wh as nat, n);
    let mut blocks: Vec<Vec<u8>> = Vec::new();
    let mut k: usize = 1;
    while k <= nb
        invariant
            px == pixels@,
            plen == px.len(),
            px.len() == CHANNELS * wh,
            nb == num_data_blocks(n),
            nb < wh,
            lens == block_lens(n),
            raw == data_blocks_read(px, wh as nat, n),
            n == len as nat,
            region == wh as nat / lens.len(),
            fits(wh as nat, lens),
            1 <= k <= nb + 1,
            blocks@.len() == k - 1,
            forall|i: int| 0 <= i < k - 1 ==> #[trigger] blocks@[i]@ == raw[i],
            forall|i: int| 0 <= i < k - 1 ==> PARITY_LEN <= #[trigger] blocks@[i]@.len() <= 255,
        decreases nb + 1 - k,
    {
        let dl = block_data_len_of(len, k);
        let blen = dl + PARITY_LEN;
        assert(lens[k as int] == blen);
        assert(8 * blen <= region);
        proof {
            lemma_block_in_range(wh as nat, lens.len(), k as int, (8 * blen - 1) as int);
        }
        let block = extract_block(pixels, k * region, blen);
        assert(block@ == raw[k - 1]);
        blocks.push(block);
        k = k + 1;
    }
    assert(blocks_view(blocks@) =~= raw);
    let r = decode_ecc(&blocks);
    proof {
        assert(blocks@.map_values(|b: Vec<u8>| b@) =~= raw);
        assert forall|p: Seq<u8>| #[trigger] carries(px, wh as nat, p) implies r is Ok && r->Ok_0@ == p by {
            lemma_carried_data(px, wh as nat, p);
        }
    }
    r
}

} // verus!
