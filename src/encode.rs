//! The sending side: checks the caller's tunables, derives the transmission
//! parameters from the input length, and hands out the encoded stream chunk
//! by chunk (header, then each block's source packets and repair batches).
use vstd::prelude::*;
use crate::engine::{packet_run, packet_run_of, repair_payload, symbol_of, BlockEncoder};
use crate::packet::SYMBOL_INDEX_LIMIT;
use crate::params::{
    block_layout, block_length, block_offset, block_symbols, header_bytes, is_supported,
    large_block_symbols, TransmissionParameters, HEADER_LEN, MAX_SYMBOLS_PER_BLOCK,
    MAX_TRANSFER_LENGTH,
};

verus! {

/// Most repair packets asked of the engine at once.
pub const REPAIR_BATCH: u32 = 50;

/// What the caller chooses on the sending side.
#[derive(Clone, Copy, Debug, PartialEq, Eq, Structural)]
pub struct EncodeOptions {
    pub symbol_size: u16,
    pub repair_symbols: u32,
    pub source_blocks: u8,
    pub sub_blocks: u16,
    pub symbol_alignment: u8,
}

/// Why an encoding cannot start.
#[derive(Clone, Copy, Debug, PartialEq, Eq, Structural)]
pub enum ConfigError {
    /// The symbol alignment is zero.
    ZeroAlignment,
    /// The symbol size is not a multiple of the alignment.
    MisalignedSymbolSize,
    /// There is nothing to encode.
    EmptyInput,
    /// The FEC engine cannot work with these sizes and counts.
    Unsupported,
}

/// Parameters and repair count that the engine can encode with: every
/// repair symbol index of every block fits in three bytes.
pub open spec fn encodable(p: TransmissionParameters, repair_symbols: u32) -> bool {
    &&& p.supported()
    &&& large_block_symbols(p) + repair_symbols <= SYMBOL_INDEX_LIMIT
}

pub open spec fn options_params(len: nat, o: EncodeOptions) -> TransmissionParameters {
    TransmissionParameters {
        transfer_length: len as u64,
        symbol_size: o.symbol_size,
        source_blocks: o.source_blocks,
        sub_blocks: o.sub_blocks,
        symbol_alignment: o.symbol_alignment,
    }
}

/// What `encoding_parameters` answers for an input of `len` bytes.
pub open spec fn config_outcome(len: nat, o: EncodeOptions) -> Result<
    TransmissionParameters,
    ConfigError,
> {
    if o.symbol_alignment == 0 {
        Err(ConfigError::ZeroAlignment)
    } else if o.symbol_size % (o.symbol_alignment as u16) != 0 {
        Err(ConfigError::MisalignedSymbolSize)
    } else if len == 0 {
        Err(ConfigError::EmptyInput)
    } else if len <= MAX_TRANSFER_LENGTH && encodable(options_params(len, o), o.repair_symbols) {
        Ok(options_params(len, o))
    } else {
        Err(ConfigError::Unsupported)
    }
}

/// Checks the alignment against the symbol size.
pub fn check_alignment(symbol_size: u16, symbol_alignment: u8) -> (r: Result<(), ConfigError>)
    ensures
        symbol_alignment == 0 ==> r == Err::<(), ConfigError>(ConfigError::ZeroAlignment),
        symbol_alignment != 0 && symbol_size % (symbol_alignment as u16) != 0 ==> r == Err::<
            (),
            ConfigError,
        >(ConfigError::MisalignedSymbolSize),
        symbol_alignment != 0 && symbol_size % (symbol_alignment as u16) == 0 ==> r is Ok,
{
    if symbol_alignment == 0 {
        Err(ConfigError::ZeroAlignment)
    } else if symbol_size % (symbol_alignment as u16) != 0 {
        Err(ConfigError::MisalignedSymbolSize)
    } else {
        Ok(())
    }
}

/// The transmission parameters for an input of `len` bytes. Fails, in this
/// order of checks, on a zero alignment, a symbol size that the alignment
/// does not divide, an empty input, and sizes the engine cannot encode.
pub fn encoding_parameters(len: usize, o: &EncodeOptions) -> (r: Result<
    TransmissionParameters,
    ConfigError,
>)
    ensures
        r == config_outcome(len as nat, *o),
{
    check_alignment(o.symbol_size, o.symbol_alignment)?;
    if len == 0 {
        return Err(ConfigError::EmptyInput);
    }
    if len as u64 > MAX_TRANSFER_LENGTH {
        return Err(ConfigError::Unsupported);
    }
    let p = TransmissionParameters::new(
        len as u64,
        o.symbol_size,
        o.source_blocks,
        o.sub_blocks,
        o.symbol_alignment,
    );
    if !is_supported(&p) {
        return Err(ConfigError::Unsupported);
    }
    let (_, kl, _) = block_layout(&p, 0);
    if kl + o.repair_symbols as u64 > SYMBOL_INDEX_LIMIT as u64 {
        return Err(ConfigError::Unsupported);
    }
    Ok(p)
}

/// The bytes that block `i` is encoded from: its slice of the input, padded
/// with zeros to a whole number of symbols.
pub open spec fn block_source(p: TransmissionParameters, data: Seq<u8>, i: int) -> Seq<u8> {
    let off = block_offset(p, i);
    let len = block_length(p, i);
    let cap = block_symbols(p, i) * (p.symbol_size as int);
    let taken = if len > 0 {
        data.subrange(off, off + len)
    } else {
        Seq::empty()
    };
    taken + Seq::new((cap - len) as nat, |k: int| 0u8)
}

/// The first `n` blocks' source bytes, each cut back to the bytes of the
/// transfer it carries, put together in block order.
pub open spec fn joined_blocks(p: TransmissionParameters, data: Seq<u8>, n: int) -> Seq<u8>
    decreases n,
{
    if n <= 0 {
        Seq::empty()
    } else {
        joined_blocks(p, data, n - 1) + block_source(p, data, n - 1).subrange(
            0,
            block_length(p, n - 1),
        )
    }
}

proof fn lemma_joined_prefix(p: TransmissionParameters, data: Seq<u8>, n: int)
    requires
        p.supported(),
        data.len() == p.transfer_length,
        0 <= n < p.source_blocks,
    ensures
        joined_blocks(p, data, n) == data.subrange(0, block_offset(p, n)),
    decreases n,
{
    if n == 0 {
        assert(block_offset(p, 0) == 0) by {
            crate::params::lemma_blocks_tile_transfer(p);
        }
        assert(data.subrange(0, 0) =~= Seq::<u8>::empty());
    } else {
        lemma_joined_prefix(p, data, n - 1);
        let off = block_offset(p, n - 1);
        let len = block_length(p, n - 1);
        let cap = block_symbols(p, n - 1) * (p.symbol_size as int);
        assert(off + len == block_offset(p, n) && len > 0 && 0 <= off && off + len <= data.len()
            && len <= cap) by {
            crate::params::lemma_blocks_tile_transfer(p);
            assert(block_length(p, n - 1) > 0);
            assert(0 <= block_offset(p, n - 1));
        }
        let src = block_source(p, data, n - 1);
        assert(src == data.subrange(off, off + len) + Seq::new((cap - len) as nat, |k: int| 0u8));
        assert(src.subrange(0, len) =~= data.subrange(off, off + len));
        assert(joined_blocks(p, data, n) == data.subrange(0, off) + src.subrange(0, len));
        assert(data.subrange(0, off) + data.subrange(off, off + len) =~= data.subrange(
            0,
            off + len,
        ));
    }
}

/// Encoding loses nothing: cutting every block's source bytes back to the
/// bytes of the transfer it carries and putting them together in block
/// order gives the input again. (That the engine hands back the source
/// bytes of a block it rebuilds is the engine's own promise.)
pub proof fn lemma_blocks_reassemble(p: TransmissionParameters, data: Seq<u8>)
    requires
        p.supported(),
        data.len() == p.transfer_length,
    ensures
        joined_blocks(p, data, p.source_blocks as int) == data,
{
    let last = p.source_blocks - 1;
    lemma_joined_prefix(p, data, last);
    let off = block_offset(p, last);
    let len = block_length(p, last);
    let cap = block_symbols(p, last) * (p.symbol_size as int);
    assert(len > 0 && 0 <= off && off + len == data.len() && len <= cap) by {
        crate::params::lemma_blocks_tile_transfer(p);
        assert(block_length(p, last) > 0);
        assert(0 <= block_offset(p, last));
    }
    let src = block_source(p, data, last);
    assert(src == data.subrange(off, off + len) + Seq::new((cap - len) as nat, |k: int| 0u8));
    assert(src.subrange(0, len) =~= data.subrange(off, off + len));
    assert(joined_blocks(p, data, p.source_blocks as int) == data.subrange(0, off)
        + src.subrange(0, len));
    assert(data.subrange(0, off) + data.subrange(off, off + len) =~= data);
}

proof fn lemma_source_concat_prefix(m: Map<u32, Seq<u8>>, src: Seq<u8>, t: int, k: nat)
    requires
        t > 0,
        k * t <= src.len(),
        k < 0x1_0000_0000,
        forall|i: u32|
            i < k ==> #[trigger] m.contains_key(i) && m[i] == src.subrange(i * t, (i + 1) * t),
    ensures
        crate::engine::source_concat(m, k) == src.subrange(0, k * t),
    decreases k,
{
    if k == 0 {
        assert(k * t == 0) by (nonlinear_arith)
            requires
                k == 0,
        ;
        assert(src.subrange(0, 0) =~= Seq::<u8>::empty());
    } else {
        let k1 = (k - 1) as nat;
        assert((k1 as int) * t <= k * t) by (nonlinear_arith)
            requires
                k1 < k,
                t > 0,
        ;
        lemma_source_concat_prefix(m, src, t, k1);
        let i = k1 as u32;
        assert(i as int == k1);
        assert(m.contains_key(i));
        assert(m[i] == src.subrange(k1 * t, (k1 + 1) * t));
        assert((k1 + 1) * t == k * t) by (nonlinear_arith)
            requires
                k1 + 1 == k,
        ;
        assert(crate::engine::source_concat(m, k) == crate::engine::source_concat(m, k1) + m[i]);
        assert(k1 * t + t == k * t) by (nonlinear_arith)
            requires
                k1 + 1 == k,
        ;
        assert(src.subrange(0, k1 * t) + src.subrange(k1 * t, k * t) =~= src.subrange(0, k * t));
    }
}

/// Round trip of one block: when a block's decoder holds, for every source
/// index, the source symbol the encoder sent for it (as it does when every
/// source packet of the block arrived), the record handed out for the block
/// is its block number followed by exactly that block's bytes of the input.
pub proof fn lemma_block_round_trip(p: TransmissionParameters, data: Seq<u8>, b: int, m: Map<
    u32,
    Seq<u8>,
>)
    requires
        p.supported(),
        data.len() == p.transfer_length,
        0 <= b < p.source_blocks,
        forall|i: u32|
            i < block_symbols(p, b) ==> #[trigger] m.contains_key(i) && m[i] == symbol_of(
                block_source(p, data, b),
                p.symbol_size,
                i as int,
            ),
    ensures
        crate::decode::block_record(
            b as u8,
            crate::engine::source_concat(m, block_symbols(p, b) as nat),
            block_length(p, b),
        ) == seq![b as u8] + data.subrange(
            block_offset(p, b),
            block_offset(p, b) + block_length(p, b),
        ),
{
    let t = p.symbol_size as int;
    let k = block_symbols(p, b);
    let off = block_offset(p, b);
    let len = block_length(p, b);
    let cap = k * t;
    assert(len > 0 && 0 <= off && off + len <= data.len() && len <= cap && 1 <= k
        <= MAX_SYMBOLS_PER_BLOCK) by {
        crate::params::lemma_blocks_tile_transfer(p);
        assert(block_length(p, b) > 0);
        assert(0 <= block_offset(p, b));
        assert(k <= crate::params::large_block_symbols(p));
        assert(k >= 1) by (nonlinear_arith)
            requires
                len <= k * t,
                len > 0,
                t > 0,
        ;
    }
    let src = block_source(p, data, b);
    assert(src == data.subrange(off, off + len) + Seq::new((cap - len) as nat, |q: int| 0u8));
    assert(src.len() == cap);
    assert forall|i: u32| i < k as nat implies #[trigger] m.contains_key(i) && m[i] == src.subrange(
        i * t,
        (i + 1) * t,
    ) by {
        assert(i < block_symbols(p, b));
        assert(m.contains_key(i));
        assert(m[i] == symbol_of(src, p.symbol_size, i as int));
        assert(symbol_of(src, p.symbol_size, i as int) == src.subrange(i * t, (i + 1) * t));
    }
    assert(k * t <= src.len());
    lemma_source_concat_prefix(m, src, t, k as nat);
    assert(src.subrange(0, cap).subrange(0, len) =~= data.subrange(off, off + len));
}

/// Cuts block `i` out of `data` and pads it to whole symbols.
pub fn block_source_data(p: &TransmissionParameters, data: &[u8], i: u8) -> (r: Vec<u8>)
    requires
        p.supported(),
        data@.len() == p.transfer_length,
        i < p.source_blocks,
    ensures
        r@ == block_source(*p, data@, i as int),
        r@.len() == block_symbols(*p, i as int) * (p.symbol_size as int),
{
    let (off64, syms, len64) = block_layout(p, i);
    let cap = (syms * p.symbol_size as u64) as usize;
    let n = data.len();
    assert(len64 > 0 ==> off64 + len64 <= n);
    let len = len64 as usize;
    let off: usize = if len64 > 0 {
        off64 as usize
    } else {
        0
    };
    let mut r: Vec<u8> = Vec::with_capacity(cap);
    let mut k: usize = 0;
    while k < len
        invariant
            len == block_length(*p, i as int),
            len > 0 ==> off == block_offset(*p, i as int),
            len > 0 ==> off + len <= data@.len(),
            data@.len() == n,
            k <= len,
            r@ == data@.subrange(off as int, off + k),
        decreases len - k,
    {
        r.push(data[off + k]);
        k = k + 1;
        assert(r@ =~= data@.subrange(off as int, off + k));
    }
    while k < cap
        invariant
            len <= k <= cap,
            cap == block_symbols(*p, i as int) * (p.symbol_size as int),
            len == block_length(*p, i as int),
            len > 0 ==> off == block_offset(*p, i as int),
            len > 0 ==> off + len <= data@.len(),
            r@ == data@.subrange(off as int, off + len) + Seq::new((k - len) as nat, |j: int| 0u8),
        decreases cap - k,
    {
        r.push(0u8);
        k = k + 1;
        assert(r@ =~= data@.subrange(off as int, off + len) + Seq::new(
            (k - len) as nat,
            |j: int| 0u8,
        ));
    }
    if len == 0 {
        assert(data@.subrange(off as int, off + len) =~= Seq::<u8>::empty());
    }
    assert(r@ =~= block_source(*p, data@, i as int));
    r
}

/// Where the encoder stands in the output stream.
#[derive(Clone, Copy, Debug, PartialEq, Eq, Structural)]
pub enum EncodeStage {
    /// The header is next.
    Header,
    /// The source packets of this block are next.
    Source(u8),
    /// The repair batch of this block starting at this repair index is next.
    Repair(u8, u32),
    /// Everything has been handed out.
    Done,
}

/// Repair packets in the batch that starts at repair index `start`.
pub open spec fn batch_len(start: u32, repair_symbols: u32) -> int {
    if repair_symbols - start < REPAIR_BATCH {
        repair_symbols - start
    } else {
        REPAIR_BATCH as int
    }
}

/// The stage after the last chunk of block `b`.
pub open spec fn after_block(b: u8, blocks: u8) -> EncodeStage {
    if b + 1 < blocks {
        EncodeStage::Source((b + 1) as u8)
    } else {
        EncodeStage::Done
    }
}

/// The stage that follows `s` once its chunk is handed out.
pub open spec fn next_stage(s: EncodeStage, blocks: u8, repair_symbols: u32) -> EncodeStage {
    match s {
        EncodeStage::Header => EncodeStage::Source(0),
        EncodeStage::Source(b) => if repair_symbols > 0 {
            EncodeStage::Repair(b, 0)
        } else {
            after_block(b, blocks)
        },
        EncodeStage::Repair(b, start) => if start + batch_len(start, repair_symbols)
            < repair_symbols {
            EncodeStage::Repair(b, (start + batch_len(start, repair_symbols)) as u32)
        } else {
            after_block(b, blocks)
        },
        EncodeStage::Done => EncodeStage::Done,
    }
}

pub open spec fn stage_in_range(s: EncodeStage, blocks: u8, repair_symbols: u32) -> bool {
    match s {
        EncodeStage::Source(b) => b < blocks,
        EncodeStage::Repair(b, start) => b < blocks && start < repair_symbols,
        _ => true,
    }
}

/// Hands out one transfer's encoded stream in chunks: first the header,
/// then for each block in order its source packets and its repair packets
/// in batches of at most `REPAIR_BATCH`. The chunk that ends a block asks
/// for a flush.
pub struct StreamEncoder {
    params: TransmissionParameters,
    repair_symbols: u32,
    blocks: Vec<BlockEncoder>,
    stage: EncodeStage,
    data: Ghost<Seq<u8>>,
}

impl StreamEncoder {
    pub closed spec fn spec_params(&self) -> TransmissionParameters {
        self.params
    }

    pub closed spec fn spec_repair_symbols(&self) -> u32 {
        self.repair_symbols
    }

    pub closed spec fn spec_stage(&self) -> EncodeStage {
        self.stage
    }

    /// The input being encoded.
    pub closed spec fn spec_data(&self) -> Seq<u8> {
        self.data@
    }

    pub closed spec fn wf(&self) -> bool {
        &&& encodable(self.params, self.repair_symbols)
        &&& self.blocks@.len() == self.params.source_blocks
        &&& forall|i: int|
            0 <= i < self.blocks@.len() ==> {
                &&& (#[trigger] self.blocks@[i]).spec_block() == i
                &&& self.blocks@[i].spec_symbol_size() == self.params.symbol_size
                &&& self.blocks@[i].spec_symbols() == block_symbols(self.params, i)
                &&& self.blocks@[i].spec_sub_blocks() == self.params.sub_blocks
                &&& self.blocks@[i].spec_alignment() == self.params.symbol_alignment
                &&& self.blocks@[i].spec_data() == block_source(self.params, self.data@, i)
            }
        &&& stage_in_range(self.stage, self.params.source_blocks, self.repair_symbols)
    }

    /// Prepares to encode `data`. Fails exactly as `encoding_parameters`
    /// does on its length; otherwise the header is the first chunk.
    pub fn new(data: &[u8], o: &EncodeOptions) -> (r: Result<Self, ConfigError>)
        ensures
            config_outcome(data@.len(), *o) is Err ==> r is Err && r->Err_0 == config_outcome(
                data@.len(),
                *o,
            )->Err_0,
            config_outcome(data@.len(), *o) is Ok ==> r is Ok,
            r matches Ok(e) ==> {
                &&& e.wf()
                &&& e.spec_params() == options_params(data@.len(), *o)
                &&& e.spec_repair_symbols() == o.repair_symbols
                &&& e.spec_stage() == EncodeStage::Header
                &&& e.spec_data() == data@
            },
    {
        let p = match encoding_parameters(data.len(), o) {
            Ok(p) => p,
            Err(e) => {
                return Err(e);
            },
        };
        let mut blocks: Vec<BlockEncoder> = Vec::new();
        let mut i: u8 = 0;
        while i < p.source_blocks
            invariant
                p == options_params(data@.len(), *o),
                data@.len() <= MAX_TRANSFER_LENGTH,
                encodable(p, o.repair_symbols),
                i <= p.source_blocks,
                blocks@.len() == i,
                forall|k: int|
                    0 <= k < blocks@.len() ==> {
                        &&& (#[trigger] blocks@[k]).spec_block() == k
                        &&& blocks@[k].spec_symbol_size() == p.symbol_size
                        &&& blocks@[k].spec_symbols() == block_symbols(p, k)
                        &&& blocks@[k].spec_sub_blocks() == p.sub_blocks
                        &&& blocks@[k].spec_alignment() == p.symbol_alignment
                        &&& blocks@[k].spec_data() == block_source(p, data@, k)
                    },
            decreases p.source_blocks - i,
        {
            let source = block_source_data(&p, data, i);
            let (_, syms, _) = block_layout(&p, i);
            let ghost t = p.symbol_size as int;
            assert((syms * t) % t == 0 && (syms * t) / t == syms) by (nonlinear_arith)
                requires
                    t > 0,
            ;
            blocks.push(BlockEncoder::new(i, &p, source.as_slice()));
            i = i + 1;
        }
        Ok(
            StreamEncoder {
                params: p,
                repair_symbols: o.repair_symbols,
                blocks,
                stage: EncodeStage::Header,
                data: Ghost(data@),
            },
        )
    }

    pub fn params(&self) -> (r: TransmissionParameters)
        ensures
            r == self.spec_params(),
    {
        self.params
    }

    pub fn stage(&self) -> (r: EncodeStage)
        ensures
            r == self.spec_stage(),
    {
        self.stage
    }

    /// The next chunk of the stream and whether to flush after writing it,
    /// or `None` once everything has been handed out.
    pub fn next_chunk(&mut self) -> (r: Option<(Vec<u8>, bool)>)
        requires
            old(self).wf(),
        ensures
            final(self).wf(),
            final(self).spec_params() == old(self).spec_params(),
            final(self).spec_repair_symbols() == old(self).spec_repair_symbols(),
            final(self).spec_data() == old(self).spec_data(),
            final(self).spec_stage() == next_stage(
                old(self).spec_stage(),
                old(self).spec_params().source_blocks,
                old(self).spec_repair_symbols(),
            ),
            ({
                let p = old(self).spec_params();
                let rs = old(self).spec_repair_symbols();
                let next = final(self).spec_stage();
                match old(self).spec_stage() {
                    EncodeStage::Header => r matches Some((bytes, flush)) && bytes@ == header_bytes(
                        p,
                    ) && !flush,
                    EncodeStage::Source(b) => r matches Some((bytes, flush)) && packet_run(
                        bytes@,
                        b,
                        0,
                        block_symbols(p, b as int),
                        p.symbol_size,
                    ) && flush == (rs == 0),
                    EncodeStage::Repair(b, start) => r matches Some((bytes, flush)) && packet_run(
                        bytes@,
                        b,
                        block_symbols(p, b as int) + start,
                        batch_len(start, rs),
                        p.symbol_size,
                    ) && flush == !(next is Repair),
                    EncodeStage::Done => r is None,
                }
            }),
            ({
                let p = old(self).spec_params();
                let rs = old(self).spec_repair_symbols();
                let data = old(self).spec_data();
                match old(self).spec_stage() {
                    EncodeStage::Source(b) => p.sub_blocks == 1 ==> r is Some && packet_run_of(
                        r->Some_0.0@,
                        b,
                        0,
                        block_symbols(p, b as int),
                        |j: int| symbol_of(block_source(p, data, b as int), p.symbol_size, j),
                    ),
                    EncodeStage::Repair(b, start) => r is Some && packet_run_of(
                        r->Some_0.0@,
                        b,
                        block_symbols(p, b as int) + start,
                        batch_len(start, rs),
                        |j: int|
                            repair_payload(
                                block_source(p, data, b as int),
                                p.symbol_size,
                                p.sub_blocks,
                                p.symbol_alignment,
                                (block_symbols(p, b as int) + start + j) as u32,
                            ),
                    ),
                    _ => true,
                }
            }),
    {
        let blocks = self.params.source_blocks;
        match self.stage {
            EncodeStage::Header => {
                self.stage = EncodeStage::Source(0);
                Some((self.params.serialize(), false))
            },
            EncodeStage::Source(b) => {
                let bytes = self.blocks[b as usize].source_bytes();
                let flush = self.repair_symbols == 0;
                self.stage = if self.repair_symbols > 0 {
                    EncodeStage::Repair(b, 0)
                } else if b + 1 < blocks {
                    EncodeStage::Source(b + 1)
                } else {
                    EncodeStage::Done
                };
                Some((bytes, flush))
            },
            EncodeStage::Repair(b, start) => {
                let left = self.repair_symbols - start;
                let count = if left < REPAIR_BATCH {
                    left
                } else {
                    REPAIR_BATCH
                };
                assert(block_symbols(self.params, b as int) <= large_block_symbols(self.params));
                let bytes = self.blocks[b as usize].repair_bytes(start, count);
                let flush = start + count >= self.repair_symbols;
                self.stage = if start + count < self.repair_symbols {
                    EncodeStage::Repair(b, start + count)
                } else if b + 1 < blocks {
                    EncodeStage::Source(b + 1)
                } else {
                    EncodeStage::Done
                };
                Some((bytes, flush))
            },
            EncodeStage::Done => None,
        }
    }
}

/// Chunks left to hand out from stage `s`, bounded from above.
pub open spec fn stage_measure(s: EncodeStage, blocks: u8, repair_symbols: u32) -> int {
    let w = repair_symbols + 2;
    match s {
        EncodeStage::Header => (blocks + 1) * w,
        EncodeStage::Source(b) => (blocks - b) * w - 1,
        EncodeStage::Repair(b, start) => (blocks - b) * w - 2 - start,
        EncodeStage::Done => 0,
    }
}

proof fn lemma_stage_measure_decreases(s: EncodeStage, blocks: u8, repair_symbols: u32)
    requires
        stage_in_range(s, blocks, repair_symbols),
        blocks > 0,
        !(s is Done),
    ensures
        0 <= stage_measure(next_stage(s, blocks, repair_symbols), blocks, repair_symbols)
            < stage_measure(s, blocks, repair_symbols),
{
    let w = repair_symbols + 2;
    match s {
        EncodeStage::Header => {
            assert(next_stage(s, blocks, repair_symbols) == EncodeStage::Source(0));
            assert(stage_measure(EncodeStage::Source(0), blocks, repair_symbols) == (blocks - 0) * w
                - 1);
            assert(stage_measure(s, blocks, repair_symbols) == (blocks + 1) * w);
            assert((blocks - 0) * w - 1 < (blocks + 1) * w) by (nonlinear_arith)
                requires
                    w >= 2,
            ;
            assert((blocks - 0) * w - 1 >= 0) by (nonlinear_arith)
                requires
                    w >= 2,
                    blocks >= 1,
            ;
            assert(0 <= stage_measure(next_stage(s, blocks, repair_symbols), blocks, repair_symbols));
        },
        EncodeStage::Source(b) => {
            assert((blocks - b) * w >= w) by (nonlinear_arith)
                requires
                    w >= 2,
                    blocks - b >= 1,
            ;
            assert((blocks - (b + 1)) * w == (blocks - b) * w - w) by (nonlinear_arith);
            if b + 1 < blocks {
                assert(((b + 1) as u8) == b + 1);
                assert((blocks - (b + 1)) * w >= w) by (nonlinear_arith)
                    requires
                        w >= 2,
                        blocks - (b + 1) >= 1,
                ;
            }
            assert(0 <= stage_measure(next_stage(s, blocks, repair_symbols), blocks, repair_symbols));
        },
        EncodeStage::Repair(b, start) => {
            assert((blocks - b) * w >= w) by (nonlinear_arith)
                requires
                    w >= 2,
                    blocks - b >= 1,
            ;
            assert((blocks - (b + 1)) * w == (blocks - b) * w - w) by (nonlinear_arith);
            if b + 1 < blocks {
                assert(((b + 1) as u8) == b + 1);
                assert((blocks - (b + 1)) * w >= w) by (nonlinear_arith)
                    requires
                        w >= 2,
                        blocks - (b + 1) >= 1,
                ;
            }
        },
        EncodeStage::Done => {},
    }
}

/// Packets before block `n`: each block's source packets and repairs.
pub open spec fn packets_before(p: TransmissionParameters, repair_symbols: u32, n: int) -> int
    decreases n,
{
    if n <= 0 {
        0
    } else {
        packets_before(p, repair_symbols, n - 1) + block_symbols(p, n - 1) + repair_symbols
    }
}

/// Packets handed out before stage `s`.
pub open spec fn packets_until(p: TransmissionParameters, repair_symbols: u32, s: EncodeStage) -> int {
    match s {
        EncodeStage::Header => 0,
        EncodeStage::Source(b) => packets_before(p, repair_symbols, b as int),
        EncodeStage::Repair(b, start) => packets_before(p, repair_symbols, b as int)
            + block_symbols(p, b as int) + start,
        EncodeStage::Done => packets_before(p, repair_symbols, p.source_blocks as int),
    }
}

proof fn lemma_source_symbols_sum(p: TransmissionParameters, repair_symbols: u32, n: int)
    requires
        p.supported(),
        0 <= n <= p.source_blocks,
    ensures
        (packets_before(p, repair_symbols, n) - n * repair_symbols) * (p.symbol_size as int)
            == block_offset(p, n),
    decreases n,
{
    let t = p.symbol_size as int;
    let r = repair_symbols as int;
    if n == 0 {
        assert(0 * crate::params::large_block_symbols(p) * t == 0) by (nonlinear_arith);
        crate::params::lemma_blocks_tile_transfer(p);
        assert((0 - 0 * r) * t == 0) by (nonlinear_arith);
    } else {
        lemma_source_symbols_sum(p, repair_symbols, n - 1);
        crate::params::lemma_offsets_contiguous(p, n - 1);
        let a = packets_before(p, repair_symbols, n - 1);
        let k = block_symbols(p, n - 1);
        assert(packets_before(p, repair_symbols, n) == a + k + r);
        assert(block_offset(p, n) == block_offset(p, n - 1) + k * t);
        assert((a - (n - 1) * r) * t == block_offset(p, n - 1));
        assert((a + k + r - n * r) * t == (a - (n - 1) * r) * t + k * t) by (nonlinear_arith);
    }
}

/// The encoder hands out Kt = ceil(L / T) source packets and `R` repair
/// packets per block: Kt + Z * R packets in all.
pub proof fn lemma_packet_total(p: TransmissionParameters, repair_symbols: u32)
    requires
        p.supported(),
    ensures
        packets_before(p, repair_symbols, p.source_blocks as int)
            == crate::params::total_symbols(p) + p.source_blocks * repair_symbols,
{
    let t = p.symbol_size as int;
    let z = p.source_blocks as int;
    let kt = crate::params::total_symbols(p);
    let kl = crate::params::large_block_symbols(p);
    let ks = crate::params::small_block_symbols(p);
    let zl = crate::params::large_block_count(p);
    lemma_source_symbols_sum(p, repair_symbols, z);
    vstd::arithmetic::div_mod::lemma_fundamental_div_mod(kt, z);
    assert(zl == kt % z) by (nonlinear_arith)
        requires
            z > 0,
            kt == z * (kt / z) + kt % z,
            ks == kt / z,
            zl == kt - ks * z,
    ;
    assert(zl < z);
    assert(zl > 0 ==> kl == ks + 1);
    assert(zl == 0 ==> kl == ks);
    assert(block_offset(p, z) == zl * kl * t + (z - zl) * ks * t);
    if zl > 0 {
        assert(zl * kl * t + (z - zl) * ks * t == kt * t) by (nonlinear_arith)
            requires
                kl == ks + 1,
                kt == ks * z + zl,
        ;
    } else {
        assert(zl * kl * t + (z - zl) * ks * t == kt * t) by (nonlinear_arith)
            requires
                zl == 0,
                kt == ks * z + zl,
        ;
    }
    let s = packets_before(p, repair_symbols, z) - z * repair_symbols;
    assert(s == kt) by (nonlinear_arith)
        requires
            s * t == kt * t,
            t > 0,
    ;
}

proof fn lemma_packets_until_step(p: TransmissionParameters, rs: u32, s: EncodeStage)
    requires
        stage_in_range(s, p.source_blocks, rs),
        p.source_blocks > 0,
        !(s is Header),
        !(s is Done),
    ensures
        packets_until(p, rs, next_stage(s, p.source_blocks, rs)) == packets_until(p, rs, s) + match s {
            EncodeStage::Source(b) => block_symbols(p, b as int),
            EncodeStage::Repair(_, start) => batch_len(start, rs),
            _ => 0,
        },
{
    match s {
        EncodeStage::Source(b) => {
            if b + 1 < p.source_blocks {
                assert(((b + 1) as u8) == b + 1);
            }
        },
        EncodeStage::Repair(b, start) => {
            if b + 1 < p.source_blocks {
                assert(((b + 1) as u8) == b + 1);
            }
        },
        _ => {},
    }
}

/// Payload of the `j`-th packet of block `b` in the encoded stream: the
/// block's source symbols in order, then its repair symbols.
pub open spec fn block_payload(p: TransmissionParameters, data: Seq<u8>, b: int, j: int) -> Seq<u8> {
    let src = block_source(p, data, b);
    if j < block_symbols(p, b) {
        symbol_of(src, p.symbol_size, j)
    } else {
        repair_payload(src, p.symbol_size, p.sub_blocks, p.symbol_alignment, j as u32)
    }
}

/// `bytes` holds blocks `0..n` one after another, each as its source
/// packets in index order followed by its `repair_symbols` repair packets.
pub open spec fn blocks_stream(
    bytes: Seq<u8>,
    p: TransmissionParameters,
    data: Seq<u8>,
    repair_symbols: u32,
    n: int,
) -> bool
    decreases n,
{
    if n <= 0 {
        bytes.len() == 0
    } else {
        let count = block_symbols(p, n - 1) + repair_symbols;
        let l = count * (p.spec_packet_size() as int);
        &&& bytes.len() >= l
        &&& blocks_stream(bytes.subrange(0, bytes.len() - l), p, data, repair_symbols, n - 1)
        &&& packet_run_of(
            bytes.subrange(bytes.len() - l, bytes.len() as int),
            (n - 1) as u8,
            0,
            count,
            |j: int| block_payload(p, data, n - 1, j),
        )
    }
}

/// `bytes` holds blocks `0..n` one after another, each as its source
/// packets (indices `0..K`) followed by `repair_symbols` repair packets
/// (indices from `K` on), every packet carrying one symbol.
pub open spec fn blocks_shape(
    bytes: Seq<u8>,
    p: TransmissionParameters,
    repair_symbols: u32,
    n: int,
) -> bool
    decreases n,
{
    if n <= 0 {
        bytes.len() == 0
    } else {
        let count = block_symbols(p, n - 1) + repair_symbols;
        let l = count * (p.spec_packet_size() as int);
        &&& bytes.len() >= l
        &&& blocks_shape(bytes.subrange(0, bytes.len() - l), p, repair_symbols, n - 1)
        &&& packet_run(
            bytes.subrange(bytes.len() - l, bytes.len() as int),
            (n - 1) as u8,
            0,
            count,
            p.symbol_size,
        )
    }
}

proof fn lemma_blocks_shape_extend(
    done: Seq<u8>,
    cur: Seq<u8>,
    p: TransmissionParameters,
    rs: u32,
    b: int,
)
    requires
        0 <= b < 256,
        blocks_shape(done, p, rs, b),
        cur.len() == (block_symbols(p, b) + rs) * (p.spec_packet_size() as int),
        packet_run(cur, b as u8, 0, block_symbols(p, b) + rs, p.symbol_size),
    ensures
        blocks_shape(done + cur, p, rs, b + 1),
{
    let all = done + cur;
    let l = cur.len() as int;
    assert(all.subrange(0, all.len() - l) =~= done);
    assert(all.subrange(all.len() - l, all.len() as int) =~= cur);
    assert(((b + 1 - 1) as u8) == b as u8);
}

proof fn lemma_blocks_stream_extend(
    done: Seq<u8>,
    cur: Seq<u8>,
    p: TransmissionParameters,
    data: Seq<u8>,
    rs: u32,
    b: int,
)
    requires
        0 <= b < 256,
        blocks_stream(done, p, data, rs, b),
        cur.len() == (block_symbols(p, b) + rs) * (p.spec_packet_size() as int),
        packet_run_of(cur, b as u8, 0, block_symbols(p, b) + rs, |j: int| block_payload(p, data, b, j)),
    ensures
        blocks_stream(done + cur, p, data, rs, b + 1),
{
    let all = done + cur;
    let l = cur.len() as int;
    assert(all.subrange(0, all.len() - l) =~= done);
    assert(all.subrange(all.len() - l, all.len() as int) =~= cur);
    assert(((b + 1 - 1) as u8) == b as u8);
    assert((|j: int| block_payload(p, data, b + 1 - 1, j)) =~= (|j: int| block_payload(p, data, b, j)));
}

/// Encodes `data` whole: the header, then every block's source packets and
/// repair packets, in block order. Fails exactly as `encoding_parameters`
/// does. The result is the 12-byte header followed by a whole number of
/// packets of the transfer's packet size.
pub fn encode_all(data: &[u8], o: &EncodeOptions) -> (r: Result<Vec<u8>, ConfigError>)
    ensures
        config_outcome(data@.len(), *o) is Err ==> r is Err && r->Err_0 == config_outcome(
            data@.len(),
            *o,
        )->Err_0,
        config_outcome(data@.len(), *o) is Ok ==> r is Ok,
        r matches Ok(bytes) ==> {
            let p = options_params(data@.len(), *o);
            &&& bytes@.len() >= HEADER_LEN
            &&& bytes@.subrange(0, HEADER_LEN as int) == header_bytes(p)
            &&& crate::params::params_from_header(bytes@) == p
            &&& (bytes@.len() - HEADER_LEN) % (p.spec_packet_size() as int) == 0
            &&& bytes@.len() - HEADER_LEN == (crate::params::total_symbols(p) + p.source_blocks
                * o.repair_symbols) * (p.spec_packet_size() as int)
            &&& blocks_shape(
                bytes@.subrange(HEADER_LEN as int, bytes@.len() as int),
                p,
                o.repair_symbols,
                p.source_blocks as int,
            )
            &&& p.sub_blocks == 1 ==> blocks_stream(
                bytes@.subrange(HEADER_LEN as int, bytes@.len() as int),
                p,
                data@,
                o.repair_symbols,
                p.source_blocks as int,
            )
        },
{
    let mut enc = match StreamEncoder::new(data, o) {
        Ok(e) => e,
        Err(e) => {
            return Err(e);
        },
    };
    let ghost p = enc.spec_params();
    let ghost rs = enc.spec_repair_symbols();
    let ghost ps = p.spec_packet_size() as int;
    let mut out: Vec<u8> = Vec::new();
    let first = enc.next_chunk();
    match first {
        Some((header, _)) => {
            out = header;
        },
        None => {},
    }
    proof {
        lemma_stage_measure_decreases(EncodeStage::Header, p.source_blocks, rs);
    }
    assert(out@.subrange(0, HEADER_LEN as int) =~= header_bytes(p));
    let ghost mut m: int = 0;
    let ghost mut done: Seq<u8> = Seq::empty();
    let ghost mut cur: Seq<u8> = Seq::empty();
    assert(out@ =~= header_bytes(p) + done + cur);
    loop
        invariant
            enc.wf(),
            enc.spec_params() == p,
            enc.spec_repair_symbols() == rs,
            p == options_params(data@.len(), *o),
            ps == p.spec_packet_size(),
            out@.len() >= HEADER_LEN,
            out@.subrange(0, HEADER_LEN as int) == header_bytes(p),
            m >= 0,
            out@.len() == HEADER_LEN + m * ps,
            m == packets_until(p, rs, enc.spec_stage()),
            p.supported(),
            !(enc.spec_stage() is Header),
            enc.spec_data() == data@,
            out@ == header_bytes(p) + done + cur,
            match enc.spec_stage() {
                EncodeStage::Source(b) => cur.len() == 0 && blocks_shape(done, p, rs, b as int),
                EncodeStage::Repair(b, start) => {
                    &&& blocks_shape(done, p, rs, b as int)
                    &&& cur.len() == (block_symbols(p, b as int) + start) * ps
                    &&& packet_run(cur, b, 0, block_symbols(p, b as int) + start, p.symbol_size)
                },
                EncodeStage::Done => cur.len() == 0 && blocks_shape(
                    done,
                    p,
                    rs,
                    p.source_blocks as int,
                ),
                _ => true,
            },
            p.sub_blocks == 1 ==> match enc.spec_stage() {
                EncodeStage::Source(b) => cur.len() == 0 && blocks_stream(done, p, data@, rs, b as int),
                EncodeStage::Repair(b, start) => {
                    &&& blocks_stream(done, p, data@, rs, b as int)
                    &&& cur.len() == (block_symbols(p, b as int) + start) * ps
                    &&& packet_run_of(
                        cur,
                        b,
                        0,
                        block_symbols(p, b as int) + start,
                        |j: int| block_payload(p, data@, b as int, j),
                    )
                },
                EncodeStage::Done => cur.len() == 0 && blocks_stream(
                    done,
                    p,
                    data@,
                    rs,
                    p.source_blocks as int,
                ),
                _ => true,
            },
        ensures
            enc.spec_stage() is Done,
            out@ == header_bytes(p) + done + cur,
            cur.len() == 0 && blocks_shape(done, p, rs, p.source_blocks as int),
            p.sub_blocks == 1 ==> cur.len() == 0 && blocks_stream(
                done,
                p,
                data@,
                rs,
                p.source_blocks as int,
            ),
            m == packets_until(p, rs, enc.spec_stage()),
            out@.len() == HEADER_LEN + m * ps,
        decreases stage_measure(enc.spec_stage(), p.source_blocks, rs),
    {
        let ghost stage = enc.spec_stage();
        proof {
            if !(stage is Done) {
                lemma_stage_measure_decreases(stage, p.source_blocks, rs);
            }
        }
        match enc.next_chunk() {
            None => {
                break;
            },
            Some((chunk, _)) => {
                let ghost before = out@;
                let ghost n: int = match stage {
                    EncodeStage::Source(b) => block_symbols(p, b as int),
                    EncodeStage::Repair(b, start) => batch_len(start, rs),
                    _ => 0,
                };
                proof {
                    crate::engine::lemma_packet_run_len(chunk@, n, p.symbol_size);
                }
                let mut j: usize = 0;
                while j < chunk.len()
                    invariant
                        j <= chunk@.len(),
                        out@ == before + chunk@.subrange(0, j as int),
                    decreases chunk@.len() - j,
                {
                    out.push(chunk[j]);
                    j = j + 1;
                    assert(out@ =~= before + chunk@.subrange(0, j as int));
                }
                assert(chunk@.subrange(0, j as int) =~= chunk@);
                assert(out@.subrange(0, HEADER_LEN as int) =~= before.subrange(0, HEADER_LEN as int));
                assert(n >= 0);
                assert(out@.len() == HEADER_LEN + (m + n) * ps) by (nonlinear_arith)
                    requires
                        out@.len() == before.len() + n * ps,
                        before.len() == HEADER_LEN + m * ps,
                ;
                proof {
                    lemma_packets_until_step(p, rs, stage);
                    m = m + n;
                    assert(out@ =~= header_bytes(p) + done + (cur + chunk@));
                    let nx = enc.spec_stage();
                    match stage {
                        EncodeStage::Source(b) => {
                            let k = block_symbols(p, b as int);
                            assert(cur + chunk@ =~= chunk@);
                            if p.sub_blocks == 1 {
                                crate::engine::lemma_run_congruent(
                                    chunk@,
                                    b,
                                    0,
                                    k,
                                    |j: int| symbol_of(block_source(p, data@, b as int), p.symbol_size, j),
                                    |j: int| block_payload(p, data@, b as int, j),
                                );
                            }
                            if rs > 0 {
                                assert(chunk@.len() == (k + 0) * ps);
                                cur = chunk@;
                                assert(nx == EncodeStage::Repair(b, 0));
                            } else {
                                lemma_blocks_shape_extend(done, chunk@, p, rs, b as int);
                                if p.sub_blocks == 1 {
                                    lemma_blocks_stream_extend(done, chunk@, p, data@, rs, b as int);
                                }
                                done = done + chunk@;
                                cur = Seq::empty();
                                assert(out@ =~= header_bytes(p) + done + cur);
                            }
                        },
                        EncodeStage::Repair(b, start) => {
                            let k = block_symbols(p, b as int);
                            let bl = batch_len(start, rs);
                            let src = block_source(p, data@, b as int);
                            crate::engine::lemma_runs_concat_shape(
                                cur,
                                chunk@,
                                b,
                                0,
                                k + start,
                                bl,
                                p.symbol_size,
                            );
                            if p.sub_blocks == 1 {
                                crate::engine::lemma_run_congruent(
                                    chunk@,
                                    b,
                                    k + start,
                                    bl,
                                    |j: int|
                                        repair_payload(
                                            src,
                                            p.symbol_size,
                                            p.sub_blocks,
                                            p.symbol_alignment,
                                            (k + start + j) as u32,
                                        ),
                                    |j: int| block_payload(p, data@, b as int, k + start + j),
                                );
                                crate::engine::lemma_runs_concat(
                                    cur,
                                    chunk@,
                                    b,
                                    0,
                                    k + start,
                                    bl,
                                    |j: int| block_payload(p, data@, b as int, j),
                                );
                            }
                            assert((k + start) * ps + bl * ps == (k + start + bl) * ps)
                                by (nonlinear_arith);
                            if start + bl < rs {
                                cur = cur + chunk@;
                            } else {
                                lemma_blocks_shape_extend(done, cur + chunk@, p, rs, b as int);
                                if p.sub_blocks == 1 {
                                    lemma_blocks_stream_extend(done, cur + chunk@, p, data@, rs, b as int);
                                }
                                done = done + (cur + chunk@);
                                cur = Seq::empty();
                                assert(out@ =~= header_bytes(p) + done + cur);
                            }
                        },
                        _ => {},
                    }
                }
            },
        }
    }
    proof {
        vstd::arithmetic::div_mod::lemma_mod_multiples_basic(m, ps);
        lemma_packet_total(p, rs);
        crate::params::lemma_header_round_trip(p);
        assert(out@.subrange(0, HEADER_LEN as int) == header_bytes(p));
        assert(out@[0] == header_bytes(p)[0] && out@[1] == header_bytes(p)[1] && out@[2]
            == header_bytes(p)[2] && out@[3] == header_bytes(p)[3] && out@[4] == header_bytes(p)[4]
            && out@[6] == header_bytes(p)[6] && out@[7] == header_bytes(p)[7] && out@[8]
            == header_bytes(p)[8] && out@[9] == header_bytes(p)[9] && out@[10] == header_bytes(
            p,
        )[10] && out@[11] == header_bytes(p)[11]);
        assert(m == crate::params::total_symbols(p) + p.source_blocks * rs);
        assert(out@.len() - HEADER_LEN == m * ps);
        assert(out@.subrange(HEADER_LEN as int, out@.len() as int) =~= done);
    }
    Ok(out)
}

} // verus!
