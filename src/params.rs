//! Transmission parameters (the object transmission information) and
//! their fixed 12-byte wire form.
use vstd::prelude::*;

verus! {

/// Length of the serialized transmission parameters.
pub const HEADER_LEN: usize = 12;

/// Length of a packet's identifier (block number and symbol index).
pub const PACKET_ID_LEN: usize = 4;

/// Largest transfer length the FEC engine accepts.
pub const MAX_TRANSFER_LENGTH: u64 = 942574504275;

/// Largest number of source symbols the FEC engine accepts in one block.
pub const MAX_SYMBOLS_PER_BLOCK: u64 = 56403;

/// Describes how one transfer is cut into blocks and symbols.
#[derive(Clone, Copy, Debug, PartialEq, Eq, Structural)]
pub struct TransmissionParameters {
    pub transfer_length: u64,
    pub symbol_size: u16,
    pub source_blocks: u8,
    pub sub_blocks: u16,
    pub symbol_alignment: u8,
}

/// The 12 header bytes of `p`: five bytes of transfer length, one reserved
/// zero byte, then symbol size, block count, sub-block count and alignment,
/// all big-endian.
pub open spec fn header_bytes(p: TransmissionParameters) -> Seq<u8> {
    seq![
        ((p.transfer_length >> 32u64) & 0xffu64) as u8,
        ((p.transfer_length >> 24u64) & 0xffu64) as u8,
        ((p.transfer_length >> 16u64) & 0xffu64) as u8,
        ((p.transfer_length >> 8u64) & 0xffu64) as u8,
        (p.transfer_length & 0xffu64) as u8,
        0u8,
        (p.symbol_size >> 8u16) as u8,
        (p.symbol_size & 0xffu16) as u8,
        p.source_blocks,
        (p.sub_blocks >> 8u16) as u8,
        (p.sub_blocks & 0xffu16) as u8,
        p.symbol_alignment,
    ]
}

pub open spec fn be40(b0: u8, b1: u8, b2: u8, b3: u8, b4: u8) -> u64 {
    ((b0 as u64) << 32u64) | ((b1 as u64) << 24u64) | ((b2 as u64) << 16u64) | ((b3 as u64)
        << 8u64) | (b4 as u64)
}

pub open spec fn be16(hi: u8, lo: u8) -> u16 {
    ((hi as u16) << 8u16) | (lo as u16)
}

/// The parameters that 12 header bytes describe; the reserved byte is ignored.
pub open spec fn params_from_header(b: Seq<u8>) -> TransmissionParameters {
    TransmissionParameters {
        transfer_length: be40(b[0], b[1], b[2], b[3], b[4]),
        symbol_size: be16(b[6], b[7]),
        source_blocks: b[8],
        sub_blocks: be16(b[9], b[10]),
        symbol_alignment: b[11],
    }
}

/// Number of source symbols of the whole transfer: ceil(L / T).
pub open spec fn total_symbols(p: TransmissionParameters) -> int {
    let l = p.transfer_length as int;
    let t = p.symbol_size as int;
    if l % t == 0 {
        l / t
    } else {
        l / t + 1
    }
}

/// Symbols in each of the larger blocks: ceil(Kt / Z).
pub open spec fn large_block_symbols(p: TransmissionParameters) -> int {
    let kt = total_symbols(p);
    let z = p.source_blocks as int;
    if kt % z == 0 {
        kt / z
    } else {
        kt / z + 1
    }
}

/// Symbols in each of the smaller blocks: floor(Kt / Z).
pub open spec fn small_block_symbols(p: TransmissionParameters) -> int {
    total_symbols(p) / (p.source_blocks as int)
}

/// How many blocks (the first ones) have the larger size.
pub open spec fn large_block_count(p: TransmissionParameters) -> int {
    total_symbols(p) - small_block_symbols(p) * (p.source_blocks as int)
}

/// Symbols in block `i`.
pub open spec fn block_symbols(p: TransmissionParameters, i: int) -> int {
    if i < large_block_count(p) {
        large_block_symbols(p)
    } else {
        small_block_symbols(p)
    }
}

/// Byte offset of block `i` in the transfer.
pub open spec fn block_offset(p: TransmissionParameters, i: int) -> int {
    let t = p.symbol_size as int;
    let zl = large_block_count(p);
    if i <= zl {
        i * large_block_symbols(p) * t
    } else {
        zl * large_block_symbols(p) * t + (i - zl) * small_block_symbols(p) * t
    }
}

/// Bytes of the transfer that block `i` carries: its capacity, cut short at
/// the end of the transfer. Only the last block can be short. Capacities
/// follow RFC 6330's partition rather than one size for every block: the
/// header carries no block sizes, so sender and receiver must split the
/// transfer as the FEC engine does, and a single size cannot always give
/// every block at least one symbol (4000 bytes of 1000-byte symbols in 3
/// blocks would leave the last one empty).
pub open spec fn block_length(p: TransmissionParameters, i: int) -> int {
    let cap = block_symbols(p, i) * (p.symbol_size as int);
    let rest = p.transfer_length as int - block_offset(p, i);
    if cap <= rest {
        cap
    } else if rest <= 0 {
        0
    } else {
        rest
    }
}

/// Where block `i` lies in the transfer: `(offset, symbols, length)`, that
/// is its byte offset, its number of source symbols and the bytes of the
/// transfer it carries. Blocks follow the partition of RFC 6330: the first
/// blocks hold ceil(Kt / Z) symbols, the others floor(Kt / Z), and only the
/// last block can be cut short by the end of the transfer.
pub fn block_layout(p: &TransmissionParameters, i: u8) -> (r: (u64, u64, u64))
    requires
        p.supported(),
        i < p.source_blocks,
    ensures
        r.0 == block_offset(*p, i as int),
        r.1 == block_symbols(*p, i as int),
        r.2 == block_length(*p, i as int),
        1 <= r.1 <= MAX_SYMBOLS_PER_BLOCK,
        i == 0 ==> r.1 == large_block_symbols(*p),
        r.1 * p.symbol_size <= MAX_SYMBOLS_PER_BLOCK * 0x1_0000,
        r.2 <= r.1 * p.symbol_size,
        r.2 > 0 ==> r.0 + r.2 <= p.transfer_length,
{
    let t = p.symbol_size as u64;
    let l = p.transfer_length;
    let z = p.source_blocks as u64;
    let kt = if l % t == 0 {
        l / t
    } else {
        l / t + 1
    };
    assert(kt == total_symbols(*p));
    assert(kt <= l) by {
        assert((l / t) * t <= l) by (nonlinear_arith)
            requires
                t >= 1,
        ;
        assert(l / t <= l) by (nonlinear_arith)
            requires
                t >= 1,
        ;
        if l % t != 0 {
            vstd::arithmetic::div_mod::lemma_fundamental_div_mod(l as int, t as int);
            assert(l / t < l) by (nonlinear_arith)
                requires
                    t >= 1,
                    l % t != 0,
                    l % t < t,
                    t * (l / t) + l % t == l,
            ;
        }
    }
    assert(kt <= 255 * MAX_SYMBOLS_PER_BLOCK) by {
        let klg = large_block_symbols(*p);
        vstd::arithmetic::div_mod::lemma_fundamental_div_mod(kt as int, z as int);
        assert(kt <= z * klg) by (nonlinear_arith)
            requires
                z >= 1,
                kt == z * (kt / z) + kt % z,
                0 <= kt % z < z,
                klg == (if kt % z == 0 {
                    (kt / z) as int
                } else {
                    kt / z + 1
                }),
        ;
        assert(z * klg <= 255 * MAX_SYMBOLS_PER_BLOCK) by (nonlinear_arith)
            requires
                z <= 255,
                0 <= klg <= MAX_SYMBOLS_PER_BLOCK,
        ;
    }
    let (kl32, ks32, zl32, _) = crate::engine::engine_partition(kt as u32, p.source_blocks as u32);
    let ks = ks32 as u64;
    let kl = kl32 as u64;
    assert(ks * z <= kt) by (nonlinear_arith)
        requires
            z >= 1,
            ks == kt / z,
    ;
    assert(ks >= 1) by (nonlinear_arith)
        requires
            z >= 1,
            z <= kt,
            ks == kt / z,
    ;
    let zl = zl32 as u64;
    assert(zl < z) by (nonlinear_arith)
        requires
            z >= 1,
            ks == kt / z,
            zl == kt - ks * z,
    ;
    assert(kl <= MAX_SYMBOLS_PER_BLOCK);
    proof {
        if zl == 0 {
            vstd::arithmetic::div_mod::lemma_fundamental_div_mod(kt as int, z as int);
            assert(kt % z == 0) by (nonlinear_arith)
                requires
                    z >= 1,
                    kt == z * (kt / z) + kt % z,
                    0 <= kt % z < z,
                    kt - (kt / z) * z == 0,
            ;
        }
    }
    let ii = i as u64;
    let syms = if ii < zl {
        kl
    } else {
        ks
    };
    assert(kl * t <= MAX_SYMBOLS_PER_BLOCK * 0x1_0000) by (nonlinear_arith)
        requires
            kl <= MAX_SYMBOLS_PER_BLOCK,
            t < 0x1_0000,
    ;
    assert(ks <= kl);
    assert(ks * t <= kl * t) by (nonlinear_arith)
        requires
            ks <= kl,
    ;
    let kl_t = kl * t;
    let ks_t = ks * t;
    assert(ii * kl_t <= 256 * (MAX_SYMBOLS_PER_BLOCK * 0x1_0000)) by (nonlinear_arith)
        requires
            ii <= 256,
            kl_t <= MAX_SYMBOLS_PER_BLOCK * 0x1_0000,
    ;
    assert(zl * kl_t <= 256 * (MAX_SYMBOLS_PER_BLOCK * 0x1_0000)) by (nonlinear_arith)
        requires
            zl <= 256,
            kl_t <= MAX_SYMBOLS_PER_BLOCK * 0x1_0000,
    ;
    assert((ii - zl) * ks_t <= 256 * (MAX_SYMBOLS_PER_BLOCK * 0x1_0000)) by (nonlinear_arith)
        requires
            ii - zl <= 256,
            ks_t <= MAX_SYMBOLS_PER_BLOCK * 0x1_0000,
    ;
    let offset = if ii <= zl {
        ii * kl_t
    } else {
        zl * kl_t + (ii - zl) * ks_t
    };
    assert(offset == block_offset(*p, i as int)) by {
        assert(ii * kl_t == ii * kl * t) by (nonlinear_arith)
            requires
                kl_t == kl * t,
        ;
        assert(zl * kl_t == zl * kl * t) by (nonlinear_arith)
            requires
                kl_t == kl * t,
        ;
        assert((ii - zl) * ks_t == (ii - zl) * ks * t) by (nonlinear_arith)
            requires
                ks_t == ks * t,
        ;
    }
    assert(syms * t <= kl * t) by (nonlinear_arith)
        requires
            syms <= kl,
    ;
    let cap = syms * t;
    let length = if offset + cap <= l {
        cap
    } else if l <= offset {
        0
    } else {
        l - offset
    };
    (offset, syms, length)
}

/// Decides whether the engine accepts `p`.
pub fn is_supported(p: &TransmissionParameters) -> (r: bool)
    ensures
        r == p.supported(),
{
    if p.symbol_alignment == 0 || p.symbol_size % (p.symbol_alignment as u16) != 0 {
        return false;
    }
    if p.symbol_size == 0 || p.source_blocks == 0 || p.sub_blocks == 0 {
        return false;
    }
    if p.transfer_length == 0 || p.transfer_length > MAX_TRANSFER_LENGTH {
        return false;
    }
    let t = p.symbol_size as u64;
    let l = p.transfer_length;
    let z = p.source_blocks as u64;
    let kt = if l % t == 0 {
        l / t
    } else {
        l / t + 1
    };
    if z > kt {
        return false;
    }
    let kl = if kt % z == 0 {
        kt / z
    } else {
        kt / z + 1
    };
    kl <= MAX_SYMBOLS_PER_BLOCK
}

/// Block `n + 1` starts right after the symbols of block `n`.
pub proof fn lemma_offsets_contiguous(p: TransmissionParameters, n: int)
    requires
        p.supported(),
        0 <= n < p.source_blocks,
    ensures
        block_offset(p, n + 1) == block_offset(p, n) + block_symbols(p, n) * (p.symbol_size as int),
{
    let t = p.symbol_size as int;
    let kl = large_block_symbols(p);
    let ks = small_block_symbols(p);
    let zl = large_block_count(p);
    if n < zl {
        assert((n + 1) * kl * t == n * kl * t + kl * t) by (nonlinear_arith);
    } else {
        assert((n + 1 - zl) * ks * t == (n - zl) * ks * t + ks * t) by (nonlinear_arith);
        if n == zl {
            assert((n - zl) * ks * t == 0) by (nonlinear_arith)
                requires
                    n == zl,
            ;
            assert(n * kl * t == zl * kl * t);
        }
    }
}

proof fn lemma_offset_monotone(p: TransmissionParameters, i: int, j: int)
    requires
        p.supported(),
        0 <= i <= j < p.source_blocks,
    ensures
        block_offset(p, i) <= block_offset(p, j),
    decreases j - i,
{
    if i < j {
        lemma_offset_monotone(p, i, j - 1);
        lemma_offsets_contiguous(p, j - 1);
        assert(block_symbols(p, j - 1) * (p.symbol_size as int) >= 0) by (nonlinear_arith)
            requires
                block_symbols(p, j - 1) >= 0,
        ;
    }
}

/// Blocks tile the transfer: block 0 starts at byte 0, every block but the
/// last is full and ends where the next one starts, the last one ends at
/// the end of the transfer, and no block is empty. So the blocks' bytes,
/// put together in block order, are the transfer's bytes.
pub proof fn lemma_blocks_tile_transfer(p: TransmissionParameters)
    requires
        p.supported(),
    ensures
        block_offset(p, 0) == 0,
        forall|i: int|
            0 <= i < p.source_blocks - 1 ==> block_offset(p, i) + #[trigger] block_length(p, i)
                == block_offset(p, i + 1),
        block_offset(p, p.source_blocks - 1) + block_length(p, p.source_blocks - 1)
            == p.transfer_length,
        forall|i: int| 0 <= i < p.source_blocks ==> #[trigger] block_length(p, i) > 0,
        forall|i: int|
            0 <= i < p.source_blocks ==> 0 <= #[trigger] block_offset(p, i) && block_offset(p, i)
                + block_length(p, i) <= p.transfer_length && block_length(p, i) <= block_symbols(
                p,
                i,
            ) * p.symbol_size,
{
    let t = p.symbol_size as int;
    let l = p.transfer_length as int;
    let z = p.source_blocks as int;
    let kt = total_symbols(p);
    let kl = large_block_symbols(p);
    let ks = small_block_symbols(p);
    let zl = large_block_count(p);
    vstd::arithmetic::div_mod::lemma_fundamental_div_mod(l, t);
    vstd::arithmetic::div_mod::lemma_fundamental_div_mod(kt, z);
    assert(kt * t >= l && (kt - 1) * t < l) by (nonlinear_arith)
        requires
            t > 0,
            l == t * (l / t) + l % t,
            0 <= l % t < t,
            kt == (if l % t == 0 {
                l / t
            } else {
                l / t + 1
            }),
    ;
    assert(zl == kt % z) by (nonlinear_arith)
        requires
            z > 0,
            kt == z * (kt / z) + kt % z,
            ks == kt / z,
            zl == kt - ks * z,
    ;
    assert(ks >= 1) by (nonlinear_arith)
        requires
            z >= 1,
            z <= kt,
            ks == kt / z,
    ;
    assert(zl > 0 ==> kl == ks + 1);
    assert(zl == 0 ==> kl == ks);
    let last = z - 1;
    assert(block_offset(p, 0) == 0) by {
        assert(0 * kl * t == 0) by (nonlinear_arith);
    }
    if last <= zl {
        assert(last == zl);
        if zl > 0 {
            assert(zl * kl * t + ks * t == kt * t) by (nonlinear_arith)
                requires
                    kl == ks + 1,
                    kt == ks * z + zl,
                    zl == z - 1,
            ;
        } else {
            assert(zl * kl * t + ks * t == kt * t) by (nonlinear_arith)
                requires
                    zl == 0,
                    z == 1,
                    kt == ks * z + zl,
            ;
        }
    } else {
        if zl > 0 {
            assert(zl * kl * t + (last - zl) * ks * t + ks * t == kt * t) by (nonlinear_arith)
                requires
                    kl == ks + 1,
                    kt == ks * z + zl,
                    last == z - 1,
            ;
        } else {
            assert(zl * kl * t + (last - zl) * ks * t + ks * t == kt * t) by (nonlinear_arith)
                requires
                    zl == 0,
                    kt == ks * z + zl,
                    last == z - 1,
            ;
        }
    }
    assert(block_offset(p, last) + ks * t == kt * t);
    assert(ks * t >= t) by (nonlinear_arith)
        requires
            ks >= 1,
            t > 0,
    ;
    assert(block_symbols(p, last) == ks);
    assert((kt - 1) * t == kt * t - t) by (nonlinear_arith);
    assert(block_offset(p, last) < l);
    assert forall|i: int| 0 <= i < p.source_blocks - 1 implies block_offset(p, i)
        + #[trigger] block_length(p, i) == block_offset(p, i + 1) && block_length(p, i) > 0 by {
        lemma_offsets_contiguous(p, i);
        lemma_offset_monotone(p, i + 1, last);
        assert(block_symbols(p, i) * t >= t) by (nonlinear_arith)
            requires
                block_symbols(p, i) >= 1,
                t > 0,
        ;
    }
    assert(block_symbols(p, 0) >= 1);
    assert forall|i: int| 0 <= i < p.source_blocks implies 0 <= #[trigger] block_offset(p, i)
        && block_offset(p, i) + block_length(p, i) <= p.transfer_length && block_length(p, i)
        <= block_symbols(p, i) * p.symbol_size by {
        lemma_offset_monotone(p, 0, i);
    }
}

impl TransmissionParameters {
    /// The header's transfer length field holds 40 bits.
    pub open spec fn fits_wire(self) -> bool {
        self.transfer_length < 0x100_0000_0000u64
    }

    /// The alignment is positive and divides the symbol size.
    pub open spec fn aligned(self) -> bool {
        self.symbol_alignment > 0 && self.symbol_size % (self.symbol_alignment as u16) == 0
    }

    /// Parameters that the FEC engine can encode and decode: aligned, with
    /// positive sizes and counts, every block holding between one and the
    /// engine's maximum number of symbols.
    pub open spec fn supported(self) -> bool {
        &&& self.aligned()
        &&& self.symbol_size > 0
        &&& self.source_blocks > 0
        &&& self.sub_blocks > 0
        &&& 0 < self.transfer_length <= MAX_TRANSFER_LENGTH
        &&& self.source_blocks as int <= total_symbols(self)
        &&& large_block_symbols(self) <= MAX_SYMBOLS_PER_BLOCK
    }

    /// Bytes of one packet: identifier and one symbol.
    pub open spec fn spec_packet_size(self) -> nat {
        PACKET_ID_LEN as nat + self.symbol_size as nat
    }

    pub fn new(
        transfer_length: u64,
        symbol_size: u16,
        source_blocks: u8,
        sub_blocks: u16,
        symbol_alignment: u8,
    ) -> (r: Self)
        ensures
            r == (TransmissionParameters {
                transfer_length,
                symbol_size,
                source_blocks,
                sub_blocks,
                symbol_alignment,
            }),
    {
        TransmissionParameters {
            transfer_length,
            symbol_size,
            source_blocks,
            sub_blocks,
            symbol_alignment,
        }
    }

    pub fn transfer_length(&self) -> (r: u64)
        ensures
            r == self.transfer_length,
    {
        self.transfer_length
    }

    pub fn symbol_size(&self) -> (r: u16)
        ensures
            r == self.symbol_size,
    {
        self.symbol_size
    }

    pub fn source_blocks(&self) -> (r: u8)
        ensures
            r == self.source_blocks,
    {
        self.source_blocks
    }

    pub fn sub_blocks(&self) -> (r: u16)
        ensures
            r == self.sub_blocks,
    {
        self.sub_blocks
    }

    pub fn symbol_alignment(&self) -> (r: u8)
        ensures
            r == self.symbol_alignment,
    {
        self.symbol_alignment
    }

    /// Size of every packet of the transfer: 4 identifier bytes plus one symbol.
    pub fn packet_size(&self) -> (r: usize)
        ensures
            r == self.spec_packet_size(),
    {
        PACKET_ID_LEN + self.symbol_size as usize
    }

    /// The 12-byte wire form.
    pub fn serialize(&self) -> (r: Vec<u8>)
        ensures
            r@ == header_bytes(*self),
    {
        let l = self.transfer_length;
        let mut r: Vec<u8> = Vec::with_capacity(HEADER_LEN);
        r.push(((l >> 32u64) & 0xffu64) as u8);
        r.push(((l >> 24u64) & 0xffu64) as u8);
        r.push(((l >> 16u64) & 0xffu64) as u8);
        r.push(((l >> 8u64) & 0xffu64) as u8);
        r.push((l & 0xffu64) as u8);
        r.push(0u8);
        r.push((self.symbol_size >> 8u16) as u8);
        r.push((self.symbol_size & 0xffu16) as u8);
        r.push(self.source_blocks);
        r.push((self.sub_blocks >> 8u16) as u8);
        r.push((self.sub_blocks & 0xffu16) as u8);
        r.push(self.symbol_alignment);
        assert(r@ =~= header_bytes(*self));
        r
    }

    /// Reads parameters back from the first 12 bytes of `bytes`. No consistency
    /// check is made: any 12 bytes describe some parameters.
    pub fn deserialize(bytes: &[u8]) -> (r: Self)
        requires
            bytes@.len() >= HEADER_LEN,
        ensures
            r == params_from_header(bytes@),
    {
        TransmissionParameters {
            transfer_length: ((bytes[0] as u64) << 32u64) | ((bytes[1] as u64) << 24u64) | ((
            bytes[2] as u64) << 16u64) | ((bytes[3] as u64) << 8u64) | (bytes[4] as u64),
            symbol_size: ((bytes[6] as u16) << 8u16) | (bytes[7] as u16),
            source_blocks: bytes[8],
            sub_blocks: ((bytes[9] as u16) << 8u16) | (bytes[10] as u16),
            symbol_alignment: bytes[11],
        }
    }
}

/// Reading back the header of any parameters whose transfer length fits in
/// 40 bits gives the same parameters.
pub proof fn lemma_header_round_trip(p: TransmissionParameters)
    requires
        p.fits_wire(),
    ensures
        header_bytes(p).len() == HEADER_LEN,
        params_from_header(header_bytes(p)) == p,
{
    let b = header_bytes(p);
    let x = p.transfer_length;
    let s = p.symbol_size;
    let n = p.sub_blocks;
    assert(be40(
        ((x >> 32u64) & 0xffu64) as u8,
        ((x >> 24u64) & 0xffu64) as u8,
        ((x >> 16u64) & 0xffu64) as u8,
        ((x >> 8u64) & 0xffu64) as u8,
        (x & 0xffu64) as u8,
    ) == x) by (bit_vector)
        requires
            x < 0x100_0000_0000u64,
    ;
    assert(be16((s >> 8u16) as u8, (s & 0xffu16) as u8) == s) by (bit_vector);
    assert(be16((n >> 8u16) as u8, (n & 0xffu16) as u8) == n) by (bit_vector);
}

} // verus!
