//! The FEC engine (the raptorq crate) behind a few trusted calls. Each
//! block is encoded or decoded on its own; the structs here keep beside the
//! engine's opaque state the plain values it was made with.
use vstd::prelude::*;
use raptorq::{
    EncodingPacket, ObjectTransmissionInformation, PayloadId, SourceBlockDecoder,
    SourceBlockEncoder,
};
use crate::packet::{Packet, SYMBOL_INDEX_LIMIT};
use crate::params::{TransmissionParameters, MAX_SYMBOLS_PER_BLOCK};

verus! {

#[verifier::external_type_specification]
#[verifier::external_body]
pub struct ExSourceBlockEncoder(SourceBlockEncoder);

#[verifier::external_type_specification]
#[verifier::external_body]
pub struct ExSourceBlockDecoder(SourceBlockDecoder);

/// The engine's encoder for one source block. `engine` was made by
/// `BlockEncoder::new` for block `block` from `symbols` symbols of
/// `symbol_size` bytes; nothing else builds one.
pub struct BlockEncoder {
    engine: SourceBlockEncoder,
    block: u8,
    symbol_size: u16,
    sub_blocks: u16,
    alignment: u8,
    symbols: u32,
    data: Ghost<Seq<u8>>,
}

/// Source symbol `j` of a block's bytes.
pub open spec fn symbol_of(data: Seq<u8>, symbol_size: u16, j: int) -> Seq<u8> {
    data.subrange(j * symbol_size, (j + 1) * symbol_size)
}

/// The repair symbol of index `index` that the engine computes for a block
/// holding `block_data`, with the given symbol size, sub-block count and
/// alignment.
pub uninterp spec fn repair_payload(
    block_data: Seq<u8>,
    symbol_size: u16,
    sub_blocks: u16,
    alignment: u8,
    index: u32,
) -> Seq<u8>;

/// The engine's decoder for one source block, made by `BlockDecoder::new`
/// for block `block` holding `symbols` symbols of `symbol_size` bytes, cut
/// into `sub_blocks` sub-blocks. `received` maps each symbol index that the
/// engine has taken to the payload it took for it (the first one to come).
pub struct BlockDecoder {
    engine: SourceBlockDecoder,
    block: u8,
    symbol_size: u16,
    sub_blocks: u16,
    symbols: u32,
    received: Ghost<Map<u32, Seq<u8>>>,
}

/// What the engine holds after a packet: a symbol index it already has
/// keeps its first payload.
pub open spec fn after_packet(m: Map<u32, Seq<u8>>, index: u32, payload: Seq<u8>) -> Map<
    u32,
    Seq<u8>,
> {
    if m.contains_key(index) {
        m
    } else {
        m.insert(index, payload)
    }
}

/// Every source symbol index `0..k` has arrived.
pub open spec fn all_sources(m: Map<u32, Seq<u8>>, k: nat) -> bool {
    forall|i: u32| i < k ==> #[trigger] m.contains_key(i)
}

/// The payloads of source symbols `0..k`, in index order.
pub open spec fn source_concat(m: Map<u32, Seq<u8>>, k: nat) -> Seq<u8>
    decreases k,
{
    if k == 0 {
        Seq::empty()
    } else {
        source_concat(m, (k - 1) as nat) + m[(k - 1) as u32]
    }
}

/// Relies on raptorq's `partition` (RFC 6330, 4.4.1.2): `i` items in `j`
/// parts, the first `i mod j` parts of ceil(i / j) items and the rest of
/// floor(i / j). Returns (larger size, smaller size, larger count, smaller
/// count).
#[verifier::external_body]
pub(crate) fn engine_partition(i: u32, j: u32) -> (r: (u32, u32, u32, u32))
    requires
        j > 0,
    ensures
        r.0 == (if i % j == 0 {
            (i / j) as int
        } else {
            i / j + 1
        }),
        r.1 == i / j,
        r.2 == i - (i / j) * j,
        r.3 == j - (i - (i / j) * j),
{
    raptorq::partition(i, j)
}

/// Relies on raptorq's `ObjectTransmissionInformation::new` (whose
/// assertions `supported` parameters meet) and `SourceBlockEncoder::new`,
/// which cuts `data` into symbols of `symbol_size` bytes.
#[verifier::external_body]
fn new_source_block_encoder(block: u8, p: &TransmissionParameters, data: &[u8]) -> (r:
    SourceBlockEncoder)
    requires
        p.supported(),
        (data@.len() as int) % (p.symbol_size as int) == 0,
        0 < (data@.len() as int) / (p.symbol_size as int) <= MAX_SYMBOLS_PER_BLOCK,
{
    let config = ObjectTransmissionInformation::new(
        p.transfer_length,
        p.symbol_size,
        p.source_blocks,
        p.sub_blocks,
        p.symbol_alignment,
    );
    SourceBlockEncoder::new(block, &config, data)
}

/// Relies on raptorq's `SourceBlockEncoder::source_packets`: one packet per
/// source symbol, in symbol order, each carrying one symbol of the block;
/// with one sub-block the symbols are the block's bytes cut in order
/// (`create_symbols` takes `chunks(symbol_size)`).
#[verifier::external_body]
fn engine_source_packets(e: &BlockEncoder) -> (r: Vec<Packet>)
    ensures
        r@.len() == e.symbols,
        forall|j: int|
            0 <= j < r@.len() ==> {
                &&& (#[trigger] r@[j]).block_number == e.block
                &&& r@[j].symbol_index == j
                &&& r@[j].payload@.len() == e.symbol_size
                &&& e.sub_blocks == 1 ==> r@[j].payload@ == symbol_of(e.data@, e.symbol_size, j)
            },
{
    e.engine.source_packets().into_iter().map(
        |q: EncodingPacket|
            {
                let (id, payload) = q.split();
                Packet::new(id.source_block_number(), id.encoding_symbol_id(), payload)
            },
    ).collect()
}

/// Relies on raptorq's `SourceBlockEncoder::repair_packets`: `count` repair
/// packets whose symbol indices run on from `symbols + start`. Each repair
/// symbol depends only on the block's bytes, the symbol layout and its index
/// (`enc_into` over the intermediate symbols of the source symbols).
#[verifier::external_body]
fn engine_repair_packets(e: &BlockEncoder, start: u32, count: u32) -> (r: Vec<Packet>)
    requires
        e.symbols + start + count <= SYMBOL_INDEX_LIMIT,
    ensures
        r@.len() == count,
        forall|j: int|
            0 <= j < r@.len() ==> {
                &&& (#[trigger] r@[j]).block_number == e.block
                &&& r@[j].symbol_index == e.symbols + start + j
                &&& r@[j].payload@.len() == e.symbol_size
                &&& r@[j].payload@ == repair_payload(
                    e.data@,
                    e.symbol_size,
                    e.sub_blocks,
                    e.alignment,
                    (e.symbols + start + j) as u32,
                )
            },
{
    e.engine.repair_packets(start, count).into_iter().map(
        |q: EncodingPacket|
            {
                let (id, payload) = q.split();
                Packet::new(id.source_block_number(), id.encoding_symbol_id(), payload)
            },
    ).collect()
}

/// Relies on raptorq's `ObjectTransmissionInformation::new` and
/// `SourceBlockDecoder::new`, made for a block of `block_length` bytes.
#[verifier::external_body]
fn new_source_block_decoder(block: u8, p: &TransmissionParameters, block_length: u64) -> (r:
    SourceBlockDecoder)
    requires
        p.supported(),
{
    let config = ObjectTransmissionInformation::new(
        p.transfer_length,
        p.symbol_size,
        p.source_blocks,
        p.sub_blocks,
        p.symbol_alignment,
    );
    SourceBlockDecoder::new(block, &config, block_length)
}

/// Relies on raptorq's `SourceBlockDecoder::decode` with one packet. The
/// engine keeps the first payload of each symbol index (`received_esi`).
/// It answers `None` while fewer distinct indices than the block's source
/// symbols have arrived. Once every source index has arrived it returns
/// those payloads without solving; with one sub-block `unpack_sub_blocks`
/// lays them end to end in index order. Whatever it returns holds all the
/// block's symbols. The packet must belong to the decoder's block and carry
/// one whole symbol.
#[verifier::external_body]
fn engine_decode(d: &mut BlockDecoder, p: Packet) -> (r: Option<Vec<u8>>)
    requires
        p.wf(),
        p.block_number == old(d).block,
        p.payload@.len() == old(d).symbol_size,
        old(d).received@.dom().finite(),
    ensures
        final(d).block == old(d).block,
        final(d).symbol_size == old(d).symbol_size,
        final(d).sub_blocks == old(d).sub_blocks,
        final(d).symbols == old(d).symbols,
        final(d).received@ == after_packet(old(d).received@, p.symbol_index, p.payload@),
        ({
            let m = after_packet(old(d).received@, p.symbol_index, p.payload@);
            &&& m.dom().len() < old(d).symbols ==> r is None
            &&& all_sources(m, old(d).symbols as nat) ==> r is Some
            &&& all_sources(m, old(d).symbols as nat) && old(d).sub_blocks == 1 ==> (r matches Some(
                v,
            ) && v@ == source_concat(m, old(d).symbols as nat))
        }),
        r matches Some(v) ==> v@.len() == old(d).symbol_size * old(d).symbols,
{
    let q = EncodingPacket::new(PayloadId::new(p.block_number, p.symbol_index), p.payload);
    d.engine.decode(std::iter::once(q))
}

impl BlockEncoder {
    pub closed spec fn spec_block(&self) -> u8 {
        self.block
    }

    pub closed spec fn spec_symbol_size(&self) -> u16 {
        self.symbol_size
    }

    pub closed spec fn spec_symbols(&self) -> nat {
        self.symbols as nat
    }

    pub closed spec fn spec_sub_blocks(&self) -> u16 {
        self.sub_blocks
    }

    pub closed spec fn spec_alignment(&self) -> u8 {
        self.alignment
    }

    /// The block's bytes, padded to whole symbols.
    pub closed spec fn spec_data(&self) -> Seq<u8> {
        self.data@
    }

    /// An encoder for block `block` whose source symbols are `data`, cut
    /// into symbols of the transfer's symbol size.
    pub fn new(block: u8, p: &TransmissionParameters, data: &[u8]) -> (r: Self)
        requires
            p.supported(),
            (data@.len() as int) % (p.symbol_size as int) == 0,
            0 < (data@.len() as int) / (p.symbol_size as int) <= MAX_SYMBOLS_PER_BLOCK,
        ensures
            r.spec_block() == block,
            r.spec_symbol_size() == p.symbol_size,
            r.spec_symbols() == (data@.len() as int) / (p.symbol_size as int),
            r.spec_sub_blocks() == p.sub_blocks,
            r.spec_alignment() == p.symbol_alignment,
            r.spec_data() == data@,
    {
        let engine = new_source_block_encoder(block, p, data);
        let symbols = (data.len() / p.symbol_size as usize) as u32;
        BlockEncoder {
            engine,
            block,
            symbol_size: p.symbol_size,
            sub_blocks: p.sub_blocks,
            alignment: p.symbol_alignment,
            symbols,
            data: Ghost(data@),
        }
    }

    /// The block's source packets, serialized and concatenated in symbol order.
    pub fn source_bytes(&self) -> (r: Vec<u8>)
        ensures
            r@.len() == self.spec_symbols() * (crate::params::PACKET_ID_LEN + self.spec_symbol_size()),
            packet_run(r@, self.spec_block(), 0, self.spec_symbols() as int, self.spec_symbol_size()),
            self.spec_sub_blocks() == 1 ==> packet_run_of(
                r@,
                self.spec_block(),
                0,
                self.spec_symbols() as int,
                |j: int| symbol_of(self.spec_data(), self.spec_symbol_size(), j),
            ),
    {
        let packets = engine_source_packets(self);
        let r = concat_packets(&packets, self.symbol_size);
        assert(packet_run(r@, self.block, 0, self.symbols as int, self.symbol_size)) by {
            assert(forall|j: int|
                0 <= j < packets@.len() ==> {
                    &&& (#[trigger] packets@[j]).block_number == self.block
                    &&& packets@[j].symbol_index == 0 + j
                    &&& packets@[j].payload@.len() == self.symbol_size
                });
        }
        if self.sub_blocks == 1 {
            assert(packet_run_of(
                r@,
                self.block,
                0,
                self.symbols as int,
                |j: int| symbol_of(self.data@, self.symbol_size, j),
            )) by {
                assert(forall|j: int|
                    0 <= j < packets@.len() ==> {
                        &&& (#[trigger] packets@[j]).block_number == self.block
                        &&& packets@[j].symbol_index == 0 + j
                        &&& packets@[j].payload@ == (|j: int|
                            symbol_of(self.data@, self.symbol_size, j))(j)
                    });
            }
        }
        r
    }

    /// `count` repair packets from repair index `start` on, serialized and
    /// concatenated.
    pub fn repair_bytes(&self, start: u32, count: u32) -> (r: Vec<u8>)
        requires
            self.spec_symbols() + start + count <= SYMBOL_INDEX_LIMIT,
        ensures
            r@.len() == count * (crate::params::PACKET_ID_LEN + self.spec_symbol_size()),
            packet_run(
                r@,
                self.spec_block(),
                self.spec_symbols() + start,
                count as int,
                self.spec_symbol_size(),
            ),
            packet_run_of(
                r@,
                self.spec_block(),
                self.spec_symbols() + start,
                count as int,
                |j: int|
                    repair_payload(
                        self.spec_data(),
                        self.spec_symbol_size(),
                        self.spec_sub_blocks(),
                        self.spec_alignment(),
                        (self.spec_symbols() + start + j) as u32,
                    ),
            ),
    {
        let packets = engine_repair_packets(self, start, count);
        let r = concat_packets(&packets, self.symbol_size);
        let ghost first = self.symbols + start;
        assert(packet_run(r@, self.block, first, count as int, self.symbol_size)) by {
            assert(forall|j: int|
                0 <= j < packets@.len() ==> {
                    &&& (#[trigger] packets@[j]).block_number == self.block
                    &&& packets@[j].symbol_index == first + j
                    &&& packets@[j].payload@.len() == self.symbol_size
                });
        }
        assert(packet_run_of(
            r@,
            self.block,
            first,
            count as int,
            |j: int|
                repair_payload(
                    self.data@,
                    self.symbol_size,
                    self.sub_blocks,
                    self.alignment,
                    (self.symbols + start + j) as u32,
                ),
        )) by {
            assert(forall|j: int|
                0 <= j < packets@.len() ==> {
                    &&& (#[trigger] packets@[j]).block_number == self.block
                    &&& packets@[j].symbol_index == first + j
                    &&& packets@[j].payload@ == (|j: int|
                        repair_payload(
                            self.data@,
                            self.symbol_size,
                            self.sub_blocks,
                            self.alignment,
                            (self.symbols + start + j) as u32,
                        ))(j)
                });
        }
        r
    }
}

/// `bytes` is `count` packets of block `block` back to back, with symbol
/// indices `first`, `first + 1`, ..., each carrying `symbol_size` bytes.
pub open spec fn packet_run(bytes: Seq<u8>, block: u8, first: int, count: int, symbol_size: u16) -> bool {
    exists|ps: Seq<Packet>|
        {
            &&& ps.len() == count
            &&& bytes == packets_bytes(ps)
            &&& forall|j: int|
                0 <= j < count ==> {
                    &&& (#[trigger] ps[j]).block_number == block
                    &&& ps[j].symbol_index == first + j
                    &&& ps[j].payload@.len() == symbol_size
                }
        }
}

/// A run of `count` packets of `symbol_size`-byte symbols takes `count`
/// packet sizes.
pub proof fn lemma_packet_run_len(bytes: Seq<u8>, count: int, symbol_size: u16)
    requires
        exists|block: u8, first: int| packet_run(bytes, block, first, count, symbol_size),
    ensures
        bytes.len() == count * (crate::params::PACKET_ID_LEN + symbol_size),
{
    let (block, first) = choose|block: u8, first: int|
        packet_run(bytes, block, first, count, symbol_size);
    let ps = choose|ps: Seq<Packet>|
        {
            &&& ps.len() == count
            &&& bytes == packets_bytes(ps)
            &&& forall|j: int|
                0 <= j < count ==> {
                    &&& (#[trigger] ps[j]).block_number == block
                    &&& ps[j].symbol_index == first + j
                    &&& ps[j].payload@.len() == symbol_size
                }
        };
    lemma_packets_bytes_len(ps, symbol_size);
}

proof fn lemma_packets_bytes_len(ps: Seq<Packet>, symbol_size: u16)
    requires
        forall|j: int| 0 <= j < ps.len() ==> (#[trigger] ps[j]).payload@.len() == symbol_size,
    ensures
        packets_bytes(ps).len() == ps.len() * (crate::params::PACKET_ID_LEN + symbol_size),
    decreases ps.len(),
{
    if ps.len() > 0 {
        let q = ps.drop_last();
        assert forall|j: int| 0 <= j < q.len() implies (#[trigger] q[j]).payload@.len()
            == symbol_size by {
            assert(q[j] == ps[j]);
        }
        lemma_packets_bytes_len(q, symbol_size);
        assert(ps.last() == ps[ps.len() - 1]);
        assert((ps.len() - 1) * (crate::params::PACKET_ID_LEN + symbol_size) + (
        crate::params::PACKET_ID_LEN + symbol_size) == ps.len() * (crate::params::PACKET_ID_LEN
            + symbol_size)) by (nonlinear_arith);
    }
}

/// `bytes` is `count` packets of block `block` back to back, with symbol
/// indices `first`, `first + 1`, ..., the `j`-th carrying `payloads(j)`.
pub open spec fn packet_run_of(
    bytes: Seq<u8>,
    block: u8,
    first: int,
    count: int,
    payloads: spec_fn(int) -> Seq<u8>,
) -> bool {
    exists|ps: Seq<Packet>|
        {
            &&& ps.len() == count
            &&& bytes == packets_bytes(ps)
            &&& forall|j: int|
                0 <= j < count ==> {
                    &&& (#[trigger] ps[j]).block_number == block
                    &&& ps[j].symbol_index == first + j
                    &&& ps[j].payload@ == payloads(j)
                }
        }
}

/// The wire forms of `packets`, one after another.
pub open spec fn packets_bytes(packets: Seq<Packet>) -> Seq<u8>
    decreases packets.len(),
{
    if packets.len() == 0 {
        Seq::empty()
    } else {
        packets_bytes(packets.drop_last()) + packets.last().spec_bytes()
    }
}

/// Serializes packets that all carry `symbol_size` bytes, back to back.
pub fn concat_packets(packets: &Vec<Packet>, symbol_size: u16) -> (r: Vec<u8>)
    requires
        forall|j: int|
            0 <= j < packets@.len() ==> (#[trigger] packets@[j]).payload@.len() == symbol_size,
    ensures
        r@ == packets_bytes(packets@),
        r@.len() == packets@.len() * (crate::params::PACKET_ID_LEN + symbol_size),
{
    let mut out: Vec<u8> = Vec::new();
    let mut j: usize = 0;
    while j < packets.len()
        invariant
            j <= packets@.len(),
            forall|k: int|
                0 <= k < packets@.len() ==> (#[trigger] packets@[k]).payload@.len() == symbol_size,
            out@ == packets_bytes(packets@.subrange(0, j as int)),
            out@.len() == j * (crate::params::PACKET_ID_LEN + symbol_size),
        decreases packets@.len() - j,
    {
        crate::packet::append_packet(&mut out, &packets[j]);
        assert(packets@.subrange(0, j + 1).drop_last() =~= packets@.subrange(0, j as int));
        j = j + 1;
        assert((j - 1) * (crate::params::PACKET_ID_LEN + symbol_size) + (
        crate::params::PACKET_ID_LEN + symbol_size) == j * (crate::params::PACKET_ID_LEN
            + symbol_size)) by (nonlinear_arith);
    }
    assert(packets@.subrange(0, j as int) =~= packets@);
    out
}

impl BlockDecoder {
    pub closed spec fn spec_block(&self) -> u8 {
        self.block
    }

    pub closed spec fn spec_symbol_size(&self) -> u16 {
        self.symbol_size
    }

    pub closed spec fn spec_symbols(&self) -> nat {
        self.symbols as nat
    }

    pub closed spec fn spec_sub_blocks(&self) -> u16 {
        self.sub_blocks
    }

    /// Each symbol index taken so far, with the payload taken for it.
    pub closed spec fn spec_received(&self) -> Map<u32, Seq<u8>> {
        self.received@
    }

    /// A decoder for block `block` of `symbols` source symbols.
    pub fn new(block: u8, p: &TransmissionParameters, symbols: u32) -> (r: Self)
        requires
            p.supported(),
            0 < symbols <= MAX_SYMBOLS_PER_BLOCK,
        ensures
            r.spec_block() == block,
            r.spec_symbol_size() == p.symbol_size,
            r.spec_symbols() == symbols,
            r.spec_sub_blocks() == p.sub_blocks,
            r.spec_received() == Map::<u32, Seq<u8>>::empty(),
            r.spec_received().dom().finite(),
    {
        assert(symbols as u64 * p.symbol_size as u64 <= MAX_SYMBOLS_PER_BLOCK * 0x1_0000)
            by (nonlinear_arith)
            requires
                symbols <= MAX_SYMBOLS_PER_BLOCK,
                p.symbol_size < 0x1_0000,
        ;
        let capacity = symbols as u64 * p.symbol_size as u64;
        let engine = new_source_block_decoder(block, p, capacity);
        BlockDecoder {
            engine,
            block,
            symbol_size: p.symbol_size,
            sub_blocks: p.sub_blocks,
            symbols,
            received: Ghost(Map::empty()),
        }
    }

    /// Hands one packet of this block to the engine. Returns the block's
    /// symbols, all of them, once the engine can rebuild it: never while
    /// fewer distinct indices than source symbols have arrived, always once
    /// every source index has.
    pub fn accept(&mut self, p: Packet) -> (r: Option<Vec<u8>>)
        requires
            p.wf(),
            p.block_number == old(self).spec_block(),
            p.payload@.len() == old(self).spec_symbol_size(),
            old(self).spec_received().dom().finite(),
        ensures
            final(self).spec_block() == old(self).spec_block(),
            final(self).spec_symbol_size() == old(self).spec_symbol_size(),
            final(self).spec_symbols() == old(self).spec_symbols(),
            final(self).spec_sub_blocks() == old(self).spec_sub_blocks(),
            final(self).spec_received() == after_packet(
                old(self).spec_received(),
                p.symbol_index,
                p.payload@,
            ),
            final(self).spec_received().dom().finite(),
            final(self).spec_received().dom().len() < old(self).spec_symbols() ==> r is None,
            all_sources(final(self).spec_received(), old(self).spec_symbols()) ==> r is Some,
            all_sources(final(self).spec_received(), old(self).spec_symbols())
                && old(self).spec_sub_blocks() == 1 ==> (r matches Some(v) && v@ == source_concat(
                final(self).spec_received(),
                old(self).spec_symbols(),
            )),
            r matches Some(v) ==> v@.len() == old(self).spec_symbol_size() * old(
                self,
            ).spec_symbols(),
    {
        engine_decode(self, p)
    }
}

/// Every run of packets that the encoder emits for a transfer takes, per
/// packet, exactly the packet size that a receiver computes from the
/// transfer's header alone: 4 bytes plus the symbol size.
pub proof fn lemma_packet_size_from_header(
    p: crate::params::TransmissionParameters,
    bytes: Seq<u8>,
    block: u8,
    first: int,
    count: int,
)
    requires
        p.fits_wire(),
        packet_run(bytes, block, first, count, p.symbol_size),
    ensures
        bytes.len() == count * crate::params::params_from_header(
            crate::params::header_bytes(p),
        ).spec_packet_size(),
{
    crate::params::lemma_header_round_trip(p);
    lemma_packet_run_len(bytes, count, p.symbol_size);
}

proof fn lemma_packets_bytes_append(a: Seq<Packet>, b: Seq<Packet>)
    ensures
        packets_bytes(a + b) == packets_bytes(a) + packets_bytes(b),
    decreases b.len(),
{
    if b.len() == 0 {
        assert(a + b =~= a);
        assert(packets_bytes(b) =~= Seq::<u8>::empty());
        assert(packets_bytes(a) + packets_bytes(b) =~= packets_bytes(a));
    } else {
        lemma_packets_bytes_append(a, b.drop_last());
        assert((a + b).drop_last() =~= a + b.drop_last());
        assert((a + b).last() == b.last());
        assert(packets_bytes(a) + packets_bytes(b) =~= packets_bytes(a) + packets_bytes(
            b.drop_last(),
        ) + b.last().spec_bytes());
    }
}

proof fn lemma_packets_bytes_same(a: Seq<Packet>, b: Seq<Packet>)
    requires
        a.len() == b.len(),
        forall|j: int|
            0 <= j < a.len() ==> (#[trigger] a[j]).block_number == b[j].block_number
                && a[j].symbol_index == b[j].symbol_index && a[j].payload@ == b[j].payload@,
    ensures
        packets_bytes(a) == packets_bytes(b),
    decreases a.len(),
{
    if a.len() > 0 {
        lemma_packets_bytes_same(a.drop_last(), b.drop_last());
        assert(a.last() == a[a.len() - 1]);
        assert(b.last() == b[b.len() - 1]);
    }
}

/// A run of packets is fixed by its block, its first index, its length and
/// its payloads: two byte strings that are both such a run are equal.
pub proof fn lemma_run_unique(
    x: Seq<u8>,
    y: Seq<u8>,
    block: u8,
    first: int,
    count: int,
    payloads: spec_fn(int) -> Seq<u8>,
)
    requires
        packet_run_of(x, block, first, count, payloads),
        packet_run_of(y, block, first, count, payloads),
    ensures
        x == y,
{
    let px = choose|ps: Seq<Packet>|
        {
            &&& ps.len() == count
            &&& x == packets_bytes(ps)
            &&& forall|j: int|
                0 <= j < count ==> {
                    &&& (#[trigger] ps[j]).block_number == block
                    &&& ps[j].symbol_index == first + j
                    &&& ps[j].payload@ == payloads(j)
                }
        };
    let py = choose|ps: Seq<Packet>|
        {
            &&& ps.len() == count
            &&& y == packets_bytes(ps)
            &&& forall|j: int|
                0 <= j < count ==> {
                    &&& (#[trigger] ps[j]).block_number == block
                    &&& ps[j].symbol_index == first + j
                    &&& ps[j].payload@ == payloads(j)
                }
        };
    assert forall|j: int| 0 <= j < px.len() implies (#[trigger] px[j]).block_number
        == py[j].block_number && px[j].symbol_index == py[j].symbol_index && px[j].payload@
        == py[j].payload@ by {}
    lemma_packets_bytes_same(px, py);
}

/// Two runs of one block whose indices follow on, and whose payloads are
/// given by one function of the position in the whole range, make up the
/// run of the whole range. With `lemma_run_unique`, fetching repair packets
/// in batches gives the same bytes as one request for the whole range.
pub proof fn lemma_runs_concat(
    x: Seq<u8>,
    y: Seq<u8>,
    block: u8,
    first: int,
    n1: int,
    n2: int,
    payloads: spec_fn(int) -> Seq<u8>,
)
    requires
        0 <= n1,
        0 <= n2,
        packet_run_of(x, block, first, n1, payloads),
        packet_run_of(y, block, first + n1, n2, |j: int| payloads(n1 + j)),
    ensures
        packet_run_of(x + y, block, first, n1 + n2, payloads),
{
    let px = choose|ps: Seq<Packet>|
        {
            &&& ps.len() == n1
            &&& x == packets_bytes(ps)
            &&& forall|j: int|
                0 <= j < n1 ==> {
                    &&& (#[trigger] ps[j]).block_number == block
                    &&& ps[j].symbol_index == first + j
                    &&& ps[j].payload@ == payloads(j)
                }
        };
    let py = choose|ps: Seq<Packet>|
        {
            &&& ps.len() == n2
            &&& y == packets_bytes(ps)
            &&& forall|j: int|
                0 <= j < n2 ==> {
                    &&& (#[trigger] ps[j]).block_number == block
                    &&& ps[j].symbol_index == first + n1 + j
                    &&& ps[j].payload@ == (|j: int| payloads(n1 + j))(j)
                }
        };
    lemma_packets_bytes_append(px, py);
    let ps = px + py;
    assert forall|j: int| 0 <= j < n1 + n2 implies {
        &&& (#[trigger] ps[j]).block_number == block
        &&& ps[j].symbol_index == first + j
        &&& ps[j].payload@ == payloads(j)
    } by {
        if j >= n1 {
            assert(ps[j] == py[j - n1]);
            assert(n1 + (j - n1) == j);
        }
    }
}

/// A run stays a run under payload functions that agree on its positions.
pub proof fn lemma_run_congruent(
    x: Seq<u8>,
    block: u8,
    first: int,
    count: int,
    f: spec_fn(int) -> Seq<u8>,
    g: spec_fn(int) -> Seq<u8>,
)
    requires
        packet_run_of(x, block, first, count, f),
        forall|j: int| 0 <= j < count ==> #[trigger] f(j) == g(j),
    ensures
        packet_run_of(x, block, first, count, g),
{
    let ps = choose|ps: Seq<Packet>|
        {
            &&& ps.len() == count
            &&& x == packets_bytes(ps)
            &&& forall|j: int|
                0 <= j < count ==> {
                    &&& (#[trigger] ps[j]).block_number == block
                    &&& ps[j].symbol_index == first + j
                    &&& ps[j].payload@ == f(j)
                }
        };
    assert forall|j: int| 0 <= j < count implies {
        &&& (#[trigger] ps[j]).block_number == block
        &&& ps[j].symbol_index == first + j
        &&& ps[j].payload@ == g(j)
    } by {
        assert(f(j) == g(j));
    }
}

/// Two runs of one block whose indices follow on make up one run.
pub proof fn lemma_runs_concat_shape(
    x: Seq<u8>,
    y: Seq<u8>,
    block: u8,
    first: int,
    n1: int,
    n2: int,
    symbol_size: u16,
)
    requires
        0 <= n1,
        0 <= n2,
        packet_run(x, block, first, n1, symbol_size),
        packet_run(y, block, first + n1, n2, symbol_size),
    ensures
        packet_run(x + y, block, first, n1 + n2, symbol_size),
{
    let px = choose|ps: Seq<Packet>|
        {
            &&& ps.len() == n1
            &&& x == packets_bytes(ps)
            &&& forall|j: int|
                0 <= j < n1 ==> {
                    &&& (#[trigger] ps[j]).block_number == block
                    &&& ps[j].symbol_index == first + j
                    &&& ps[j].payload@.len() == symbol_size
                }
        };
    let py = choose|ps: Seq<Packet>|
        {
            &&& ps.len() == n2
            &&& y == packets_bytes(ps)
            &&& forall|j: int|
                0 <= j < n2 ==> {
                    &&& (#[trigger] ps[j]).block_number == block
                    &&& ps[j].symbol_index == first + n1 + j
                    &&& ps[j].payload@.len() == symbol_size
                }
        };
    lemma_packets_bytes_append(px, py);
    let ps = px + py;
    assert forall|j: int| 0 <= j < n1 + n2 implies {
        &&& (#[trigger] ps[j]).block_number == block
        &&& ps[j].symbol_index == first + j
        &&& ps[j].payload@.len() == symbol_size
    } by {
        if j >= n1 {
            assert(ps[j] == py[j - n1]);
        }
    }
}

} // verus!
