//! Reed-Solomon block framing: a payload becomes a header block holding its
//! length, then data blocks of at most 223 bytes, each followed by 32 parity
//! bytes.
use vstd::prelude::*;
use crate::StegError;

verus! {

/// Longest block: data and parity.
pub const BLOCK_LEN: usize = 255;
/// Parity bytes per block.
pub const PARITY_LEN: usize = 32;
/// Longest data region of a block.
pub const DATA_LEN: usize = 223;
/// Data bytes of the header block: the payload length as a little-endian u64.
pub const HEADER_DATA_LEN: usize = 8;

/// The parity bytes that the Reed-Solomon encoder computes for a data region.
pub uninterp spec fn rs_parity(data: Seq<u8>) -> Seq<u8>;

/// What the Reed-Solomon decoder makes of a received block: the corrected
/// data region, or `None` where it reports too many errors.
pub uninterp spec fn rs_corrected(block: Seq<u8>) -> Option<Seq<u8>>;

/// A data region followed by its parity.
pub open spec fn codeword(data: Seq<u8>) -> Seq<u8> {
    data + rs_parity(data)
}

/// Whether a block is exactly the codeword of its leading data region.
pub open spec fn is_codeword(block: Seq<u8>) -> bool {
    block.len() >= PARITY_LEN && block == codeword(block.subrange(0, block.len() - PARITY_LEN))
}

#[verifier::external_type_specification]
#[verifier::external_body]
pub struct ExDecoderError(reed_solomon::DecoderError);

/// Relies on reed_solomon::Encoder::encode with 32 parity bytes: the buffer
/// it returns is the data unchanged followed by the parity, which depends on
/// the data alone.
#[verifier::external_body]
fn rs_encode(data: &[u8]) -> (r: Vec<u8>)
    requires
        data@.len() <= DATA_LEN,
    ensures
        r@ == data@ + rs_parity(data@),
        r@.len() == data@.len() + PARITY_LEN,
{
    reed_solomon::Encoder::new(PARITY_LEN).encode(data)[..].to_vec()
}

/// Relies on reed_solomon::Decoder::correct with 32 parity bytes and no
/// erasures: on success the buffer's data region is the block's length less
/// the parity; a block whose syndromes are all zero, as an unaltered output
/// of the encoder is, comes back as it was. It panics on blocks shorter than
/// the parity or longer than 255 bytes.
#[verifier::external_body]
pub(crate) fn rs_correct(block: &[u8]) -> (r: Result<Vec<u8>, reed_solomon::DecoderError>)
    requires
        PARITY_LEN <= block@.len() <= BLOCK_LEN,
    ensures
        r is Ok <==> rs_corrected(block@) is Some,
        r is Ok ==> rs_corrected(block@) == Some(r->Ok_0@),
        r is Ok ==> r->Ok_0@.len() == block@.len() - PARITY_LEN,
        is_codeword(block@) ==> r is Ok && r->Ok_0@ == block@.subrange(
            0,
            block@.len() - PARITY_LEN,
        ),
{
    match reed_solomon::Decoder::new(PARITY_LEN).correct(block, None) {
        Ok(b) => Ok(b.data().to_vec()),
        Err(e) => Err(e),
    }
}

/// Little-endian bytes of a 64-bit value.
pub open spec fn le_bytes(v: u64) -> Seq<u8> {
    seq![
        v as u8,
        (v >> 8u64) as u8,
        (v >> 16u64) as u8,
        (v >> 24u64) as u8,
        (v >> 32u64) as u8,
        (v >> 40u64) as u8,
        (v >> 48u64) as u8,
        (v >> 56u64) as u8,
    ]
}

/// The 64-bit value of eight little-endian bytes.
pub open spec fn le_value(b: Seq<u8>) -> u64
    recommends
        b.len() == 8,
{
    (b[0] as u64) | ((b[1] as u64) << 8u64) | ((b[2] as u64) << 16u64) | ((b[3] as u64)
        << 24u64) | ((b[4] as u64) << 32u64) | ((b[5] as u64) << 40u64) | ((b[6] as u64)
        << 48u64) | ((b[7] as u64) << 56u64)
}

/// Reading back the little-endian bytes of a value gives the value.
pub proof fn lemma_le_round_trip(v: u64)
    ensures
        le_value(le_bytes(v)) == v,
{
    let b = le_bytes(v);
    let (b0, b1, b2, b3, b4, b5, b6, b7) = (b[0], b[1], b[2], b[3], b[4], b[5], b[6], b[7]);
    assert(b0 == v as u8 && b1 == (v >> 8u64) as u8 && b2 == (v >> 16u64) as u8 && b3 == (v
        >> 24u64) as u8 && b4 == (v >> 32u64) as u8 && b5 == (v >> 40u64) as u8 && b6 == (v
        >> 48u64) as u8 && b7 == (v >> 56u64) as u8);
    assert((b0 as u64) | ((b1 as u64) << 8u64) | ((b2 as u64) << 16u64) | ((b3 as u64)
        << 24u64) | ((b4 as u64) << 32u64) | ((b5 as u64) << 40u64) | ((b6 as u64) << 48u64)
        | ((b7 as u64) << 56u64) == v) by (bit_vector)
        requires
            b0 == v as u8,
            b1 == (v >> 8u64) as u8,
            b2 == (v >> 16u64) as u8,
            b3 == (v >> 24u64) as u8,
            b4 == (v >> 32u64) as u8,
            b5 == (v >> 40u64) as u8,
            b6 == (v >> 48u64) as u8,
            b7 == (v >> 56u64) as u8,
    ;
}

/// The little-endian bytes of a 64-bit value.
fn le_bytes_of(v: u64) -> (r: Vec<u8>)
    ensures
        r@ == le_bytes(v),
{
    let r: Vec<u8> = vec![
        v as u8,
        (v >> 8u64) as u8,
        (v >> 16u64) as u8,
        (v >> 24u64) as u8,
        (v >> 32u64) as u8,
        (v >> 40u64) as u8,
        (v >> 48u64) as u8,
        (v >> 56u64) as u8,
    ];
    assert(r@ =~= le_bytes(v));
    r
}

/// Reads a little-endian u64 from the first eight bytes.
pub fn read_le_u64(b: &[u8]) -> (r: u64)
    requires
        b@.len() >= 8,
    ensures
        r == le_value(b@),
{
    (b[0] as u64) | ((b[1] as u64) << 8u64) | ((b[2] as u64) << 16u64) | ((b[3] as u64)
        << 24u64) | ((b[4] as u64) << 32u64) | ((b[5] as u64) << 40u64) | ((b[6] as u64)
        << 48u64) | ((b[7] as u64) << 56u64)
}

/// Number of data blocks for a payload of `n` bytes: `ceil(n / 223)`.
pub open spec fn num_data_blocks(n: nat) -> nat {
    if n % (DATA_LEN as nat) == 0 {
        n / (DATA_LEN as nat)
    } else {
        n / (DATA_LEN as nat) + 1
    }
}

/// Data length of block `k` (0 is the header) for a payload of `n` bytes.
pub open spec fn block_data_len(n: nat, k: nat) -> nat {
    if k == 0 {
        HEADER_DATA_LEN as nat
    } else if n - (k - 1) * (DATA_LEN as nat) < DATA_LEN {
        (n - (k - 1) * (DATA_LEN as nat)) as nat
    } else {
        DATA_LEN as nat
    }
}

/// Lengths of all blocks, parity included, for a payload of `n` bytes.
pub open spec fn block_lens(n: nat) -> Seq<nat> {
    Seq::new(num_data_blocks(n) + 1, |k: int| (block_data_len(n, k as nat) + PARITY_LEN) as nat)
}

/// The `k`-th slice of at most 223 bytes of a payload.
pub open spec fn chunk(p: Seq<u8>, k: nat) -> Seq<u8> {
    let start = k * (DATA_LEN as nat);
    if p.len() - start < DATA_LEN {
        p.subrange(start as int, p.len() as int)
    } else {
        p.subrange(start as int, start + DATA_LEN)
    }
}

/// The block set of a payload: the header codeword of its length, then the
/// codeword of each chunk in order.
pub open spec fn blocks_of(p: Seq<u8>) -> Seq<Seq<u8>> {
    Seq::new(
        num_data_blocks(p.len()) + 1,
        |k: int|
            if k == 0 {
                codeword(le_bytes(p.len() as u64))
            } else {
                codeword(chunk(p, (k - 1) as nat))
            },
    )
}

/// Splits a payload into its block set.
pub fn encode_ecc(input: &[u8]) -> (r: Vec<Vec<u8>>)
    ensures
        r@.len() == blocks_of(input@).len(),
        forall|k: int| 0 <= k < r@.len() ==> r@[k]@ == blocks_of(input@)[k],
        forall|k: int| 0 <= k < r@.len() ==> r@[k]@.len() == block_lens(input@.len())[k],
{
    let n = input.len();
    let num_blocks: usize = if n % DATA_LEN == 0 { n / DATA_LEN } else { n / DATA_LEN + 1 };
    let ghost bs = blocks_of(input@);
    let mut blocks: Vec<Vec<u8>> = Vec::new();
    let header = le_bytes_of(n as u64);
    blocks.push(rs_encode(header.as_slice()));
    let mut i: usize = 0;
    while i < num_blocks
        invariant
            num_blocks == num_data_blocks(n as nat),
            n == input@.len(),
            bs == blocks_of(input@),
            i <= num_blocks,
            blocks@.len() == i + 1,
            forall|k: int| 0 <= k < blocks@.len() ==> blocks@[k]@ == bs[k],
            forall|k: int|
                0 <= k < blocks@.len() ==> blocks@[k]@.len() == block_lens(n as nat)[k],
        decreases num_blocks - i,
    {
        assert(i * DATA_LEN < n) by (nonlinear_arith)
            requires
                i < num_blocks,
                num_blocks == num_data_blocks(n as nat),
        ;
        let offset = i * DATA_LEN;
        let block = if n - offset < DATA_LEN {
            rs_encode(vstd::slice::slice_subrange(input, offset, n))
        } else {
            rs_encode(vstd::slice::slice_subrange(input, offset, offset + DATA_LEN))
        };
        assert(block@ == bs[i + 1]);
        blocks.push(block);
        i = i + 1;
    }
    blocks
}

/// Data regions of blocks corrected one by one and joined, or `None` where
/// one of them cannot be corrected.
pub open spec fn corrected_concat(bs: Seq<Seq<u8>>) -> Option<Seq<u8>>
    decreases bs.len(),
{
    if bs.len() == 0 {
        Some(Seq::empty())
    } else {
        match corrected_concat(bs.drop_last()) {
            None => None,
            Some(front) => match rs_corrected(bs.last()) {
                None => None,
                Some(d) => Some(front + d),
            },
        }
    }
}

/// Data regions of blocks joined in order.
pub open spec fn data_concat(bs: Seq<Seq<u8>>) -> Seq<u8>
    decreases bs.len(),
{
    if bs.len() == 0 {
        Seq::empty()
    } else {
        data_concat(bs.drop_last()) + bs.last().subrange(0, bs.last().len() - PARITY_LEN)
    }
}

/// Corrects each block and joins their data regions; fails as a whole where
/// any block cannot be corrected.
pub fn decode_ecc(blocks: &Vec<Vec<u8>>) -> (r: Result<Vec<u8>, StegError>)
    requires
        forall|k: int| 0 <= k < blocks@.len() ==> PARITY_LEN <= #[trigger] blocks@[k]@.len() <= BLOCK_LEN,
    ensures
        ({
            let bs = blocks@.map_values(|b: Vec<u8>| b@);
            match r {
                Ok(v) => corrected_concat(bs) == Some(v@),
                Err(e) => e == StegError::CorruptedBlock && corrected_concat(bs) is None,
            }
        }),
        (forall|k: int| 0 <= k < blocks@.len() ==> is_codeword(#[trigger] blocks@[k]@))
            ==> r is Ok && r->Ok_0@ == data_concat(blocks@.map_values(|b: Vec<u8>| b@)),
{
    let ghost bs = blocks@.map_values(|b: Vec<u8>| b@);
    let mut buf: Vec<u8> = Vec::new();
    let mut i: usize = 0;
    while i < blocks.len()
        invariant
            bs == blocks@.map_values(|b: Vec<u8>| b@),
            forall|k: int| 0 <= k < blocks@.len() ==> PARITY_LEN <= #[trigger] blocks@[k]@.len() <= BLOCK_LEN,
            i <= blocks@.len(),
            corrected_concat(bs.subrange(0, i as int)) == Some(buf@),
            (forall|k: int| 0 <= k < blocks@.len() ==> is_codeword(#[trigger] blocks@[k]@))
                ==> buf@ == data_concat(bs.subrange(0, i as int)),
        decreases blocks@.len() - i,
    {
        assert(bs.subrange(0, i + 1).drop_last() =~= bs.subrange(0, i as int));
        assert(bs.subrange(0, i + 1).last() == blocks@[i as int]@);
        match rs_correct(blocks[i].as_slice()) {
            Ok(d) => {
                buf.extend_from_slice(d.as_slice());
            },
            Err(_) => {
                proof {
                    assert(corrected_concat(bs.subrange(0, i + 1)) is None);
                    lemma_corrected_none_extends(bs, i as int + 1);
                    assert(bs.subrange(0, bs.len() as int) =~= bs);
                }
                return Err(StegError::CorruptedBlock);
            },
        }
        i = i + 1;
    }
    assert(bs.subrange(0, i as int) =~= bs);
    Ok(buf)
}

/// Once a prefix of the blocks fails to correct, so does the whole sequence.
proof fn lemma_corrected_none_extends(bs: Seq<Seq<u8>>, i: int)
    requires
        0 <= i <= bs.len(),
        corrected_concat(bs.subrange(0, i)) is None,
    ensures
        corrected_concat(bs.subrange(0, bs.len() as int)) is None,
    decreases bs.len() - i,
{
    if i < bs.len() {
        assert(bs.subrange(0, i + 1).drop_last() =~= bs.subrange(0, i));
        lemma_corrected_none_extends(bs, i + 1);
    }
}

} // verus!
