//! The receiving side: a per-block state machine that takes packets one at
//! a time, in any order, and hands out each block's bytes as soon as the
//! engine can rebuild it.
use vstd::prelude::*;
use crate::engine::{after_packet, all_sources, source_concat, BlockDecoder};
use crate::packet::{be24, Packet};
use crate::params::{
    block_layout, block_length, block_symbols, params_from_header, TransmissionParameters,
    HEADER_LEN, PACKET_ID_LEN,
};

verus! {

/// Why decoding stopped.
#[derive(Clone, Copy, Debug, PartialEq, Eq, Structural)]
pub enum DecodeError {
    /// Fewer than 12 header bytes arrived.
    TruncatedHeader { received: usize },
    /// The header describes sizes the FEC engine cannot decode.
    UnsupportedParameters,
    /// The stream ended inside a packet, after `packets` whole packets.
    TruncatedPacket { received: usize, expected: usize, packets: u64 },
    /// A packet names a block that the header does not have.
    UnknownBlock { block: u8 },
    /// The stream ended with only `completed` of `total` blocks rebuilt.
    Incomplete { completed: usize, total: usize },
}

/// Where one block stands.
#[derive(Clone, Copy, Debug, PartialEq, Eq, Structural)]
pub enum BlockStatus {
    /// No packet of the block has arrived.
    Unseen,
    /// Packets have arrived, too few to rebuild the block.
    Accumulating,
    /// The block was rebuilt and handed out.
    Complete,
}

enum BlockSlot {
    Unseen,
    Accumulating(BlockDecoder),
    Complete,
}

spec fn status_of(s: BlockSlot) -> BlockStatus {
    match s {
        BlockSlot::Unseen => BlockStatus::Unseen,
        BlockSlot::Accumulating(_) => BlockStatus::Accumulating,
        BlockSlot::Complete => BlockStatus::Complete,
    }
}

/// How many blocks of `s` are complete.
pub open spec fn completed_count(s: Seq<BlockStatus>) -> nat
    decreases s.len(),
{
    if s.len() == 0 {
        0
    } else {
        completed_count(s.drop_last()) + if s.last() == BlockStatus::Complete {
            1nat
        } else {
            0nat
        }
    }
}

proof fn lemma_count_update(s: Seq<BlockStatus>, i: int, x: BlockStatus)
    requires
        0 <= i < s.len(),
    ensures
        completed_count(s.update(i, x)) + (if s[i] == BlockStatus::Complete {
            1nat
        } else {
            0nat
        }) == completed_count(s) + (if x == BlockStatus::Complete {
            1nat
        } else {
            0nat
        }),
    decreases s.len(),
{
    if i == s.len() - 1 {
        assert(s.update(i, x).drop_last() =~= s.drop_last());
    } else {
        lemma_count_update(s.drop_last(), i, x);
        assert(s.update(i, x).drop_last() =~= s.drop_last().update(i, x));
    }
}

/// All blocks are complete exactly when the count reaches the length.
proof fn lemma_count_full(s: Seq<BlockStatus>)
    ensures
        completed_count(s) <= s.len(),
        completed_count(s) == s.len() <==> forall|i: int|
            0 <= i < s.len() ==> s[i] == BlockStatus::Complete,
    decreases s.len(),
{
    if s.len() > 0 {
        lemma_count_full(s.drop_last());
        if completed_count(s) == s.len() {
            assert forall|i: int| 0 <= i < s.len() implies s[i] == BlockStatus::Complete by {
                if i < s.len() - 1 {
                    assert(s.drop_last()[i] == s[i]);
                }
            }
        }
        if forall|i: int| 0 <= i < s.len() ==> s[i] == BlockStatus::Complete {
            assert forall|i: int| 0 <= i < s.drop_last().len() implies s.drop_last()[i]
                == BlockStatus::Complete by {
                assert(s.drop_last()[i] == s[i]);
            }
        }
    }
}

/// One decode run: the parameters read from the header, the state of each
/// block, and how many blocks are complete.
pub struct Reassembler {
    params: TransmissionParameters,
    slots: Vec<BlockSlot>,
    completed: usize,
    packets: u64,
}

impl Reassembler {
    pub closed spec fn spec_params(&self) -> TransmissionParameters {
        self.params
    }

    /// The state of each block, by block number.
    pub closed spec fn statuses(&self) -> Seq<BlockStatus> {
        self.slots@.map_values(|s: BlockSlot| status_of(s))
    }

    /// Whole packets taken so far.
    pub closed spec fn spec_packets(&self) -> u64 {
        self.packets
    }

    pub closed spec fn wf(&self) -> bool {
        &&& self.params.supported()
        &&& self.slots@.len() == self.params.source_blocks
        &&& self.completed == completed_count(self.statuses())
        &&& forall|i: int|
            0 <= i < self.slots@.len() ==> match #[trigger] self.slots@[i] {
                BlockSlot::Accumulating(d) => {
                    &&& d.spec_block() == i
                    &&& d.spec_symbol_size() == self.params.symbol_size
                    &&& d.spec_symbols() == block_symbols(self.params, i)
                    &&& d.spec_sub_blocks() == self.params.sub_blocks
                    &&& d.spec_received().dom().finite()
                    &&& !all_sources(d.spec_received(), d.spec_symbols())
                },
                _ => true,
            }
    }

    /// For a block still accumulating, each symbol index its decoder has
    /// taken, with the payload taken for it; empty for any other block.
    pub closed spec fn received(&self, b: int) -> Map<u32, Seq<u8>> {
        match self.slots@[b] {
            BlockSlot::Accumulating(d) => d.spec_received(),
            _ => Map::empty(),
        }
    }

    /// Starts a run from the header bytes that arrived. Fails if fewer than
    /// 12 arrived, or if the engine cannot decode what they describe.
    pub fn new(header: &[u8]) -> (r: Result<Self, DecodeError>)
        ensures
            header@.len() < HEADER_LEN ==> r == Err::<Self, DecodeError>(
                DecodeError::TruncatedHeader { received: header@.len() as usize },
            ),
            header@.len() >= HEADER_LEN && !params_from_header(header@).supported() ==> r
                == Err::<Self, DecodeError>(DecodeError::UnsupportedParameters),
            header@.len() >= HEADER_LEN && params_from_header(header@).supported() ==> r is Ok,
            r matches Ok(d) ==> {
                &&& d.wf()
                &&& d.spec_params() == params_from_header(header@)
                &&& d.spec_packets() == 0
                &&& d.statuses() == Seq::new(
                    params_from_header(header@).source_blocks as nat,
                    |i: int| BlockStatus::Unseen,
                )
            },
    {
        if header.len() < HEADER_LEN {
            return Err(DecodeError::TruncatedHeader { received: header.len() });
        }
        let params = TransmissionParameters::deserialize(header);
        if !crate::params::is_supported(&params) {
            return Err(DecodeError::UnsupportedParameters);
        }
        let mut slots: Vec<BlockSlot> = Vec::new();
        let mut i: u8 = 0;
        while i < params.source_blocks
            invariant
                i <= params.source_blocks,
                slots@.len() == i,
                forall|k: int| 0 <= k < i ==> #[trigger] slots@[k] == BlockSlot::Unseen,
            decreases params.source_blocks - i,
        {
            slots.push(BlockSlot::Unseen);
            i = i + 1;
        }
        let r = Reassembler { params, slots, completed: 0, packets: 0 };
        proof {
            let st = r.statuses();
            assert(st =~= Seq::new(params.source_blocks as nat, |i: int| BlockStatus::Unseen));
            lemma_count_zero(st);
        }
        Ok(r)
    }

    pub fn params(&self) -> (r: TransmissionParameters)
        ensures
            r == self.spec_params(),
    {
        self.params
    }

    /// Bytes that every packet of this run must have.
    pub fn packet_size(&self) -> (r: usize)
        ensures
            r == self.spec_params().spec_packet_size(),
    {
        self.params.packet_size()
    }

    /// Blocks complete so far.
    pub fn completed(&self) -> (r: usize)
        requires
            self.wf(),
        ensures
            r == completed_count(self.statuses()),
    {
        self.completed
    }

    /// Blocks the transfer has.
    pub fn total_blocks(&self) -> (r: usize)
        ensures
            r == self.spec_params().source_blocks,
    {
        self.params.source_blocks as usize
    }

    /// Whether every block is complete.
    pub fn is_done(&self) -> (r: bool)
        requires
            self.wf(),
        ensures
            r <==> forall|i: int|
                0 <= i < self.statuses().len() ==> self.statuses()[i] == BlockStatus::Complete,
    {
        proof {
            lemma_count_full(self.statuses());
        }
        self.completed == self.params.source_blocks as usize
    }

    /// Takes the next `packet_size` bytes of the stream.
    ///
    /// Fewer bytes mean the stream ended inside a packet. A packet of a
    /// block number the header does not have is refused. A packet of a
    /// complete block is ignored. Otherwise the packet goes to its block's
    /// decoder, made on the block's first packet. The block completes, and
    /// its record is returned, whenever every source index of the block has
    /// arrived, and never while fewer distinct indices than that have; in
    /// between the engine decides.
    pub fn push_packet(&mut self, bytes: &[u8]) -> (r: Result<Option<Vec<u8>>, DecodeError>)
        requires
            old(self).wf(),
        ensures
            final(self).wf(),
            final(self).spec_params() == old(self).spec_params(),
            final(self).statuses().len() == final(self).spec_params().source_blocks,
            ({
                let p = old(self).spec_params();
                let before = old(self).statuses();
                let after = final(self).statuses();
                let b = bytes@[0];
                let k = block_symbols(p, b as int);
                let len = block_length(p, b as int);
                let m = after_packet(
                    old(self).received(b as int),
                    be24(bytes@[1], bytes@[2], bytes@[3]),
                    bytes@.subrange(PACKET_ID_LEN as int, bytes@.len() as int),
                );
                if bytes@.len() != p.spec_packet_size() {
                    &&& r == Err::<Option<Vec<u8>>, DecodeError>(
                        DecodeError::TruncatedPacket {
                            received: bytes@.len() as usize,
                            expected: p.spec_packet_size() as usize,
                            packets: old(self).spec_packets(),
                        },
                    )
                    &&& after == before
                    &&& final(self).spec_packets() == old(self).spec_packets()
                } else if b >= p.source_blocks {
                    &&& r == Err::<Option<Vec<u8>>, DecodeError>(
                        DecodeError::UnknownBlock { block: b },
                    )
                    &&& after == before
                    &&& final(self).spec_packets() == old(self).spec_packets()
                } else {
                    &&& final(self).spec_packets() == if old(self).spec_packets() < u64::MAX {
                        (old(self).spec_packets() + 1) as u64
                    } else {
                        old(self).spec_packets()
                    }
                    &&& before[b as int] == BlockStatus::Complete ==> r == Ok::<
                        Option<Vec<u8>>,
                        DecodeError,
                    >(None) && after == before
                    &&& before[b as int] != BlockStatus::Complete ==> {
                        &&& m.dom().len() < k ==> r == Ok::<Option<Vec<u8>>, DecodeError>(None)
                        &&& all_sources(m, k as nat) ==> r is Ok && r->Ok_0 is Some
                        &&& all_sources(m, k as nat) && p.sub_blocks == 1 ==> r is Ok && r->Ok_0 is Some
                            && r->Ok_0->Some_0@ == block_record(b, source_concat(m, k as nat), len)
                        &&& match r {
                            Ok(None) => {
                                &&& after == before.update(b as int, BlockStatus::Accumulating)
                                &&& final(self).received(b as int) == m
                            },
                            Ok(Some(v)) => {
                                &&& after == before.update(b as int, BlockStatus::Complete)
                                &&& exists|sym: Seq<u8>|
                                    #![trigger block_record(b, sym, len)]
                                    sym.len() == k * p.symbol_size && v@ == block_record(
                                        b,
                                        sym,
                                        len,
                                    )
                            },
                            Err(_) => false,
                        }
                    }
                    &&& forall|c: int|
                        0 <= c < p.source_blocks && c != b ==> #[trigger] final(self).received(c)
                            == old(self).received(c)
                }
            }),
    {
        let ghost before = self.statuses();
        let packet_size = self.params.packet_size();
        if bytes.len() != packet_size {
            return Err(
                DecodeError::TruncatedPacket {
                    received: bytes.len(),
                    expected: packet_size,
                    packets: self.packets,
                },
            );
        }
        let b = bytes[0];
        if b >= self.params.source_blocks {
            return Err(DecodeError::UnknownBlock { block: b });
        }
        if self.packets < u64::MAX {
            self.packets = self.packets + 1;
        }
        let bi = b as usize;
        let ghost old_slots = self.slots@;
        let mut slot = BlockSlot::Unseen;
        std::mem::swap(&mut slot, &mut self.slots[bi]);
        let (_, syms, length) = block_layout(&self.params, b);
        let mut decoder = match slot {
            BlockSlot::Complete => {
                self.slots.set(bi, BlockSlot::Complete);
                assert(self.slots@ =~= old_slots);
                return Ok(None);
            },
            BlockSlot::Unseen => BlockDecoder::new(b, &self.params, syms as u32),
            BlockSlot::Accumulating(d) => d,
        };
        let packet = match Packet::deserialize(bytes, self.params.symbol_size) {
            Some(q) => q,
            None => {
                return Err(DecodeError::UnknownBlock { block: b });
            },
        };
        let outcome = decoder.accept(packet);
        proof {
            lemma_count_full(before);
        }
        match outcome {
            None => {
                self.slots.set(bi, BlockSlot::Accumulating(decoder));
                proof {
                    lemma_count_update(before, b as int, BlockStatus::Accumulating);
                    assert(self.statuses() =~= before.update(b as int, BlockStatus::Accumulating));
                }
                Ok(None)
            },
            Some(symbols) => {
                self.slots.set(bi, BlockSlot::Complete);
                proof {
                    lemma_count_update(before, b as int, BlockStatus::Complete);
                    assert(self.statuses() =~= before.update(b as int, BlockStatus::Complete));
                }
                self.completed = self.completed + 1;
                Ok(Some(block_record_of(b, &symbols, length)))
            },
        }
    }

    /// What the end of the stream means: success if every block is
    /// complete, else how many of how many blocks were.
    pub fn finish(&self) -> (r: Result<(), DecodeError>)
        requires
            self.wf(),
        ensures
            (forall|i: int|
                0 <= i < self.statuses().len() ==> self.statuses()[i] == BlockStatus::Complete)
                ==> r is Ok,
            !(forall|i: int|
                0 <= i < self.statuses().len() ==> self.statuses()[i] == BlockStatus::Complete)
                ==> r == Err::<(), DecodeError>(
                DecodeError::Incomplete {
                    completed: completed_count(self.statuses()) as usize,
                    total: self.spec_params().source_blocks as usize,
                },
            ),
    {
        if self.is_done() {
            Ok(())
        } else {
            Err(
                DecodeError::Incomplete {
                    completed: self.completed,
                    total: self.params.source_blocks as usize,
                },
            )
        }
    }
}

/// When some block never became complete, the run reports fewer completed
/// blocks than the transfer has, so ending the stream there fails with the
/// count of blocks done out of the total.
pub proof fn lemma_early_end_reported(s: Seq<BlockStatus>, b: int)
    requires
        0 <= b < s.len(),
        s[b] != BlockStatus::Complete,
    ensures
        completed_count(s) < s.len(),
{
    lemma_count_full(s);
}

/// What a rebuilt block is handed out as: its block number, then the bytes
/// of the transfer it carries (the engine's symbols without the padding).
pub open spec fn block_record(block: u8, symbols: Seq<u8>, length: int) -> Seq<u8> {
    seq![block] + symbols.subrange(0, length)
}

/// Builds the record of block `block` from the engine's symbols: the
/// block number, then the first `length` bytes.
pub fn block_record_of(block: u8, symbols: &Vec<u8>, length: u64) -> (r: Vec<u8>)
    requires
        length <= symbols@.len(),
    ensures
        r@ == block_record(block, symbols@, length as int),
{
    let mut record: Vec<u8> = Vec::with_capacity(1);
    record.push(block);
    let n = symbols.len();
    let mut k: usize = 0;
    while (k as u64) < length
        invariant
            length <= symbols@.len(),
            n == symbols@.len(),
            k <= length,
            record@ == seq![block] + symbols@.subrange(0, k as int),
        decreases length - k,
    {
        record.push(symbols[k]);
        k = k + 1;
        assert(record@ =~= seq![block] + symbols@.subrange(0, k as int));
    }
    record
}

proof fn lemma_count_zero(s: Seq<BlockStatus>)
    requires
        forall|i: int| 0 <= i < s.len() ==> s[i] == BlockStatus::Unseen,
    ensures
        completed_count(s) == 0,
    decreases s.len(),
{
    if s.len() > 0 {
        lemma_count_zero(s.drop_last());
    }
}

/// `recs` are records of distinct blocks, each rebuilt from symbols of the
/// size its block has under `p`.
pub open spec fn distinct_records(p: TransmissionParameters, recs: Seq<Vec<u8>>) -> bool {
    &&& forall|k: int|
        0 <= k < recs.len() ==> {
            let b = (#[trigger] recs[k])@[0];
            &&& b < p.source_blocks
            &&& exists|sym: Seq<u8>|
                #![trigger block_record(b, sym, block_length(p, b as int))]
                sym.len() == block_symbols(p, b as int) * p.symbol_size && recs[k]@
                    == block_record(b, sym, block_length(p, b as int))
        }
    &&& forall|k1: int, k2: int|
        0 <= k1 < recs.len() && 0 <= k2 < recs.len() && k1 != k2 ==> (#[trigger] recs[k1])@[0]
            != (#[trigger] recs[k2])@[0]
}

/// Block number of the `k`-th packet after the header.
pub open spec fn packet_block(stream: Seq<u8>, ps: int, k: int) -> u8 {
    stream[HEADER_LEN + k * ps]
}

/// Symbol index of the `k`-th packet after the header.
pub open spec fn packet_index(stream: Seq<u8>, ps: int, k: int) -> u32 {
    be24(
        stream[HEADER_LEN + k * ps + 1],
        stream[HEADER_LEN + k * ps + 2],
        stream[HEADER_LEN + k * ps + 3],
    )
}

/// After the header, `stream` is a whole number of packets, each naming a
/// block the header has.
pub open spec fn well_formed(stream: Seq<u8>) -> bool {
    let p = params_from_header(stream);
    let ps = p.spec_packet_size() as int;
    &&& stream.len() >= HEADER_LEN
    &&& (stream.len() - HEADER_LEN) % ps == 0
    &&& forall|k: int|
        0 <= k < (stream.len() - HEADER_LEN) / ps ==> #[trigger] packet_block(stream, ps, k)
            < p.source_blocks
}

/// For every block, a packet of each of its source symbol indices is in
/// the stream.
pub open spec fn holds_all_sources(stream: Seq<u8>) -> bool {
    let p = params_from_header(stream);
    let ps = p.spec_packet_size() as int;
    forall|b: u8, i: u32|
        b < p.source_blocks && i < block_symbols(p, b as int) ==> #[trigger] has_packet(
            stream,
            ps,
            b,
            i,
        )
}

/// Some packet after the header is of block `b` with symbol index `i`.
pub open spec fn has_packet(stream: Seq<u8>, ps: int, b: u8, i: u32) -> bool {
    exists|k: int|
        0 <= k < (stream.len() - HEADER_LEN) / ps && #[trigger] packet_block(stream, ps, k) == b
            && #[trigger] packet_index(stream, ps, k) == i
}

/// Some record of `recs` is headed by block number `b`.
pub open spec fn has_record(recs: Seq<Vec<u8>>, b: u8) -> bool {
    exists|i: int| 0 <= i < recs.len() && (#[trigger] recs[i])@[0] == b
}

proof fn lemma_block_range(k: nat)
    requires
        k <= 256,
    ensures
        Set::new(|b: u8| (b as nat) < k).finite(),
        Set::new(|b: u8| (b as nat) < k).len() == k,
    decreases k,
{
    let r = Set::new(|b: u8| (b as nat) < k);
    if k == 0 {
        assert(r =~= Set::empty());
    } else {
        lemma_block_range((k - 1) as nat);
        let q = Set::new(|b: u8| (b as nat) < (k - 1) as nat);
        let top = (k - 1) as u8;
        assert(r =~= q.insert(top));
        assert(!q.contains(top));
    }
}

/// As many records of distinct blocks as the header has blocks cover every
/// block: each block number of the header heads one record.
pub proof fn lemma_records_cover_blocks(p: TransmissionParameters, recs: Seq<Vec<u8>>)
    requires
        distinct_records(p, recs),
        recs.len() == p.source_blocks,
    ensures
        forall|b: u8| b < p.source_blocks ==> #[trigger] has_record(recs, b),
{
    let fs = Seq::new(recs.len(), |i: int| recs[i]@[0]);
    assert(fs.no_duplicates()) by {
        assert forall|i: int, j: int| 0 <= i < fs.len() && 0 <= j < fs.len() && i != j implies fs[i]
            != fs[j] by {
            assert(recs[i]@[0] != recs[j]@[0]);
        }
    }
    fs.unique_seq_to_set();
    let r = Set::new(|b: u8| (b as nat) < p.source_blocks as nat);
    lemma_block_range(p.source_blocks as nat);
    let st = fs.to_set();
    assert(st.subset_of(r)) by {
        assert forall|b: u8| st.contains(b) implies r.contains(b) by {
            let i = choose|i: int| 0 <= i < fs.len() && fs[i] == b;
            assert(recs[i]@[0] < p.source_blocks);
        }
    }
    vstd::set_lib::lemma_len_subset(st, r);
    vstd::set_lib::lemma_subset_equality(st, r);
    assert forall|b: u8| b < p.source_blocks implies #[trigger] has_record(recs, b) by {
        assert(r.contains(b));
        assert(st.contains(b));
        let i = choose|i: int| 0 <= i < fs.len() && fs[i] == b;
        assert(recs[i]@[0] == b);
    }
}

/// Symbol bytes of the `k`-th packet after the header.
pub open spec fn packet_payload(stream: Seq<u8>, ps: int, k: int) -> Seq<u8> {
    stream.subrange(HEADER_LEN + k * ps + PACKET_ID_LEN, HEADER_LEN + (k + 1) * ps)
}

/// For block `b`, each symbol index among the first `n` packets after the
/// header, with the payload of the first packet that carried it.
pub open spec fn first_payloads(stream: Seq<u8>, ps: int, b: u8, n: int) -> Map<u32, Seq<u8>>
    decreases n,
{
    if n <= 0 {
        Map::empty()
    } else {
        let m = first_payloads(stream, ps, b, n - 1);
        if packet_block(stream, ps, n - 1) == b {
            after_packet(m, packet_index(stream, ps, n - 1), packet_payload(stream, ps, n - 1))
        } else {
            m
        }
    }
}

/// Some block of the header gets fewer distinct symbol indices in the whole
/// stream than it has source symbols.
pub open spec fn lacks_packets(stream: Seq<u8>) -> bool {
    let p = params_from_header(stream);
    let ps = p.spec_packet_size() as int;
    exists|b: u8|
        b < p.source_blocks && #[trigger] first_payloads(
            stream,
            ps,
            b,
            (stream.len() - HEADER_LEN) / ps,
        ).dom().len() < block_symbols(p, b as int)
}

proof fn lemma_first_payloads_grow(stream: Seq<u8>, ps: int, b: u8, j: int, n: int)
    requires
        0 <= j <= n,
    ensures
        first_payloads(stream, ps, b, j).dom().subset_of(first_payloads(stream, ps, b, n).dom()),
        first_payloads(stream, ps, b, n).dom().finite(),
    decreases n,
{
    if n > 0 {
        if j < n {
            lemma_first_payloads_grow(stream, ps, b, j, n - 1);
        } else {
            lemma_first_payloads_grow(stream, ps, b, n - 1, n - 1);
        }
    }
}

/// Every whole packet after the header names a block the header has.
pub open spec fn blocks_in_range(stream: Seq<u8>) -> bool {
    let p = params_from_header(stream);
    let ps = p.spec_packet_size() as int;
    forall|k: int|
        0 <= k < (stream.len() - HEADER_LEN) / ps ==> #[trigger] packet_block(stream, ps, k)
            < p.source_blocks
}

/// Every packet of block `b` with a repair index comes after packets of all
/// of `b`'s source indices (as in the encoder's own output).
pub open spec fn sources_first(stream: Seq<u8>, b: u8) -> bool {
    let p = params_from_header(stream);
    let ps = p.spec_packet_size() as int;
    forall|k: int|
        0 <= k < (stream.len() - HEADER_LEN) / ps && packet_block(stream, ps, k) == b
            && packet_index(stream, ps, k) >= block_symbols(p, b as int) ==> all_sources(
            #[trigger] first_payloads(stream, ps, b, k),
            block_symbols(p, b as int) as nat,
        )
}

proof fn lemma_index_range(k: nat)
    requires
        k <= 0x1_0000_0000,
    ensures
        Set::new(|i: u32| (i as nat) < k).finite(),
        Set::new(|i: u32| (i as nat) < k).len() == k,
    decreases k,
{
    let r = Set::new(|i: u32| (i as nat) < k);
    if k == 0 {
        assert(r =~= Set::empty());
    } else {
        lemma_index_range((k - 1) as nat);
        let q = Set::new(|i: u32| (i as nat) < (k - 1) as nat);
        let top = (k - 1) as u32;
        assert(r =~= q.insert(top));
        assert(!q.contains(top));
    }
}

proof fn lemma_first_payloads_origin(stream: Seq<u8>, ps: int, b: u8, n: int, key: u32)
    requires
        first_payloads(stream, ps, b, n).contains_key(key),
    ensures
        exists|k: int|
            0 <= k < n && packet_block(stream, ps, k) == b && #[trigger] packet_index(stream, ps, k)
                == key,
    decreases n,
{
    if n > 0 {
        let m = first_payloads(stream, ps, b, n - 1);
        if m.contains_key(key) {
            lemma_first_payloads_origin(stream, ps, b, n - 1, key);
            let k = choose|k: int|
                0 <= k < n - 1 && packet_block(stream, ps, k) == b && #[trigger] packet_index(
                    stream,
                    ps,
                    k,
                ) == key;
            assert(packet_index(stream, ps, k) == key);
        } else {
            assert(packet_index(stream, ps, n - 1) == key);
        }
    }
}

proof fn lemma_first_payloads_stable(stream: Seq<u8>, ps: int, b: u8, j: int, n: int, key: u32)
    requires
        0 <= j <= n,
        first_payloads(stream, ps, b, j).contains_key(key),
    ensures
        first_payloads(stream, ps, b, n).contains_key(key),
        first_payloads(stream, ps, b, n)[key] == first_payloads(stream, ps, b, j)[key],
    decreases n,
{
    if j < n {
        lemma_first_payloads_stable(stream, ps, b, j, n - 1, key);
    }
}

proof fn lemma_source_concat_same(m1: Map<u32, Seq<u8>>, m2: Map<u32, Seq<u8>>, k: nat)
    requires
        k <= 0x1_0000_0000,
        forall|i: u32| (i as nat) < k ==> #[trigger] m1[i] == m2[i],
    ensures
        source_concat(m1, k) == source_concat(m2, k),
    decreases k,
{
    if k > 0 {
        lemma_source_concat_same(m1, m2, (k - 1) as nat);
        assert(m1[(k - 1) as u32] == m2[(k - 1) as u32]);
    }
}

/// The record of block `b` holds exactly the first payloads of its source
/// indices, cut to the block's length.
pub open spec fn record_from_stream(stream: Seq<u8>, b: u8) -> Seq<u8> {
    let p = params_from_header(stream);
    let ps = p.spec_packet_size() as int;
    block_record(
        b,
        source_concat(
            first_payloads(stream, ps, b, (stream.len() - HEADER_LEN) / ps),
            block_symbols(p, b as int) as nat,
        ),
        block_length(p, b as int),
    )
}

/// Decodes a whole encoded stream held in memory: the header, then packets
/// until every block is complete. Returns each block's record in the order
/// the blocks completed. Fails if the header is short or unusable, if the
/// stream ends inside a packet or before every block is complete, or if a
/// packet names a block the header does not have. A well-formed stream
/// never fails in the middle, and one that holds every source packet of
/// every block decodes.
pub fn decode_all(stream: &[u8]) -> (r: Result<Vec<Vec<u8>>, DecodeError>)
    ensures
        stream@.len() < HEADER_LEN ==> r == Err::<Vec<Vec<u8>>, DecodeError>(
            DecodeError::TruncatedHeader { received: stream@.len() as usize },
        ),
        stream@.len() >= HEADER_LEN && !params_from_header(stream@).supported() ==> r == Err::<
            Vec<Vec<u8>>,
            DecodeError,
        >(DecodeError::UnsupportedParameters),
        params_from_header(stream@).supported() && well_formed(stream@) ==> r is Ok || r is Err
            && r->Err_0 is Incomplete,
        params_from_header(stream@).supported() && well_formed(stream@) && holds_all_sources(
            stream@,
        ) ==> r is Ok,
        params_from_header(stream@).supported() && well_formed(stream@) && lacks_packets(stream@)
            ==> r is Err && r->Err_0 is Incomplete,
        params_from_header(stream@).supported() && blocks_in_range(stream@) ==> !(r is Err
            && r->Err_0 is UnknownBlock),
        r is Err && r->Err_0 is Incomplete ==> (stream@.len() - HEADER_LEN) % (params_from_header(
            stream@,
        ).spec_packet_size() as int) == 0,
        r matches Ok(recs) ==> {
            let p = params_from_header(stream@);
            &&& recs@.len() == p.source_blocks
            &&& distinct_records(p, recs@)
            &&& forall|b: u8| b < p.source_blocks ==> #[trigger] has_record(recs@, b)
        },
        r matches Err(DecodeError::Incomplete { completed, total }) ==> completed < total
            && total == params_from_header(stream@).source_blocks,
        r matches Ok(recs) ==> params_from_header(stream@).sub_blocks == 1 ==> forall|i: int|
            0 <= i < recs@.len() && sources_first(stream@, (#[trigger] recs@[i])@[0])
                ==> recs@[i]@ == record_from_stream(stream@, recs@[i]@[0]),
{
    let mut session = match Reassembler::new(stream) {
        Ok(d) => d,
        Err(e) => {
            return Err(e);
        },
    };
    let ghost p = session.spec_params();
    let packet_size = session.packet_size();
    let ghost ps = packet_size as int;
    let mut recs: Vec<Vec<u8>> = Vec::new();
    let mut pos: usize = HEADER_LEN;
    let ghost mut j: int = 0;
    let n = stream.len();
    proof {
        lemma_count_zero(session.statuses());
        if well_formed(stream@) {
            vstd::arithmetic::div_mod::lemma_fundamental_div_mod(n - HEADER_LEN, ps);
        }
    }
    let ghost cnt = if ps > 0 {
        (n - HEADER_LEN) / ps
    } else {
        0
    };
    let ghost lacking = p.supported() && well_formed(stream@) && lacks_packets(stream@);
    let ghost b0: u8 = if lacking {
        choose|b: u8|
            b < p.source_blocks && #[trigger] first_payloads(stream@, ps, b, cnt).dom().len()
                < block_symbols(p, b as int)
    } else {
        0
    };
    while pos < n
        invariant
            cnt == (n - HEADER_LEN) / ps,
            lacking == (p.supported() && well_formed(stream@) && lacks_packets(stream@)),
            lacking ==> well_formed(stream@) && b0 < p.source_blocks && first_payloads(
                stream@,
                ps,
                b0,
                cnt,
            ).dom().len() < block_symbols(p, b0 as int) && session.statuses()[b0 as int]
                != BlockStatus::Complete,
            forall|c: int|
                0 <= c < p.source_blocks && session.statuses()[c] != BlockStatus::Complete
                    ==> #[trigger] session.received(c) == first_payloads(stream@, ps, c as u8, j),
            p.sub_blocks == 1 ==> forall|i: int|
                0 <= i < recs@.len() && sources_first(stream@, (#[trigger] recs@[i])@[0])
                    ==> recs@[i]@ == record_from_stream(stream@, recs@[i]@[0]),
            session.wf(),
            session.spec_params() == p,
            p == params_from_header(stream@),
            packet_size == p.spec_packet_size(),
            ps == packet_size,
            n == stream@.len(),
            HEADER_LEN <= pos <= stream@.len(),
            j >= 0,
            pos == HEADER_LEN + j * ps,
            well_formed(stream@) ==> n - HEADER_LEN == ps * ((n - HEADER_LEN) / ps),
            recs@.len() == completed_count(session.statuses()),
            distinct_records(p, recs@),
            forall|k: int|
                0 <= k < recs@.len() ==> session.statuses()[(#[trigger] recs@[k])@[0] as int]
                    == BlockStatus::Complete,
            forall|k: int|
                0 <= k < j ==> #[trigger] packet_block(stream@, ps, k) < p.source_blocks && (
                session.statuses()[packet_block(stream@, ps, k) as int] == BlockStatus::Complete
                    || session.received(packet_block(stream@, ps, k) as int).contains_key(
                    packet_index(stream@, ps, k),
                )),
        decreases stream@.len() - pos,
    {
        let end = if n - pos < packet_size {
            n
        } else {
            pos + packet_size
        };
        proof {
            if well_formed(stream@) {
                let cnt = (n - HEADER_LEN) / ps;
                assert(j < cnt) by (nonlinear_arith)
                    requires
                        HEADER_LEN + j * ps < n,
                        n - HEADER_LEN == ps * cnt,
                        ps > 0,
                ;
                assert(j + 1 <= cnt);
                assert((j + 1) * ps <= cnt * ps) by (nonlinear_arith)
                    requires
                        j + 1 <= cnt,
                        ps > 0,
                ;
                assert((j + 1) * ps == j * ps + ps) by (nonlinear_arith);
                assert(packet_block(stream@, ps, j) < p.source_blocks);
            }
        }
        let chunk = vstd::slice::slice_subrange(stream, pos, end);
        let ghost before = session.statuses();
        let ghost old_session = session;
        let ghost nrecs = recs@;
        let out = session.push_packet(chunk);
        proof {
            if out is Err && out->Err_0 is UnknownBlock {
                vstd::arithmetic::div_mod::lemma_fundamental_div_mod(n - HEADER_LEN, ps);
                assert((j + 1) * ps == j * ps + ps) by (nonlinear_arith);
                assert(chunk@.len() == ps);
                assert(j + 1 <= cnt) by (nonlinear_arith)
                    requires
                        (j + 1) * ps <= n - HEADER_LEN,
                        n - HEADER_LEN == ps * cnt + (n - HEADER_LEN) % ps,
                        (n - HEADER_LEN) % ps < ps,
                        ps > 0,
                ;
                assert(chunk@[0] == packet_block(stream@, ps, j));
                assert(!blocks_in_range(stream@));
            }
            if out is Ok {
                let b = chunk@[0];
                assert((j + 1) * ps == j * ps + ps) by (nonlinear_arith);
                assert(chunk@.len() == ps);
                assert(chunk@ == stream@.subrange(pos as int, pos + ps));
                assert(chunk@.subrange(PACKET_ID_LEN as int, chunk@.len() as int)
                    =~= packet_payload(stream@, ps, j));
                assert forall|c: int|
                    0 <= c < p.source_blocks && session.statuses()[c] != BlockStatus::Complete
                        implies #[trigger] session.received(c) == first_payloads(
                        stream@,
                        ps,
                        c as u8,
                        j + 1,
                    ) by {
                    assert((c as u8) as int == c);
                    if c != b {
                        assert(session.received(c) == old_session.received(c));
                    }
                }
                if lacking && b == b0 && before[b0 as int] != BlockStatus::Complete {
                    lemma_first_payloads_grow(stream@, ps, b0, j + 1, cnt);
                    vstd::set_lib::lemma_len_subset(
                        first_payloads(stream@, ps, b0, j + 1).dom(),
                        first_payloads(stream@, ps, b0, cnt).dom(),
                    );
                }
                if lacking {
                    assert(session.statuses()[b0 as int] != BlockStatus::Complete);
                }
                assert(chunk@.len() == ps);
                assert(chunk@[0] == packet_block(stream@, ps, j));
                assert(be24(chunk@[1], chunk@[2], chunk@[3]) == packet_index(stream@, ps, j));
                assert((j + 1) * ps == j * ps + ps) by (nonlinear_arith);
                let b = chunk@[0];
                assert forall|k: int| 0 <= k < j + 1 implies #[trigger] packet_block(stream@, ps, k)
                    < p.source_blocks && (session.statuses()[packet_block(stream@, ps, k) as int]
                    == BlockStatus::Complete || session.received(
                    packet_block(stream@, ps, k) as int,
                ).contains_key(packet_index(stream@, ps, k))) by {
                    let c = packet_block(stream@, ps, k);
                    if k < j {
                        if c != b {
                            assert(session.received(c as int) == old_session.received(c as int));
                        }
                    }
                }
            }
        }
        match out {
            Err(e) => {
                return Err(e);
            },
            Ok(None) => {
                proof {
                    let b = chunk@[0];
                    if before[b as int] != BlockStatus::Complete {
                        lemma_count_update(before, b as int, BlockStatus::Accumulating);
                    }
                }
            },
            Ok(Some(rec)) => {
                let ghost b = chunk@[0];
                let ghost len = block_length(p, b as int);
                let ghost sym = choose|sym: Seq<u8>|
                    #![trigger block_record(b, sym, len)]
                    sym.len() == block_symbols(p, b as int) * p.symbol_size && rec@
                        == block_record(b, sym, len);
                proof {
                    lemma_count_update(before, b as int, BlockStatus::Complete);
                    assert(before[b as int] != BlockStatus::Complete);
                    assert(sym.len() == block_symbols(p, b as int) * p.symbol_size && rec@
                        == block_record(b, sym, len));
                    assert(rec@[0] == b);
                    if p.sub_blocks == 1 && sources_first(stream@, b) {
                        let kb = block_symbols(p, b as int);
                        let m = first_payloads(stream@, ps, b, j + 1);
                        vstd::arithmetic::div_mod::lemma_fundamental_div_mod(n - HEADER_LEN, ps);
                        assert(j + 1 <= cnt) by (nonlinear_arith)
                            requires
                                (j + 1) * ps <= n - HEADER_LEN,
                                n - HEADER_LEN == ps * cnt + (n - HEADER_LEN) % ps,
                                (n - HEADER_LEN) % ps < ps,
                                ps > 0,
                        ;
                        assert(old_session.received(b as int) == first_payloads(stream@, ps, b, j));
                        assert(m == after_packet(
                            old_session.received(b as int),
                            packet_index(stream@, ps, j),
                            packet_payload(stream@, ps, j),
                        ));
                        assert(1 <= kb <= crate::params::MAX_SYMBOLS_PER_BLOCK) by {
                            crate::params::lemma_blocks_tile_transfer(p);
                            assert(block_length(p, b as int) > 0);
                            assert(kb >= 1) by (nonlinear_arith)
                                requires
                                    block_length(p, b as int) <= kb * p.symbol_size,
                                    block_length(p, b as int) > 0,
                                    p.symbol_size > 0,
                            ;
                            assert(kb <= crate::params::large_block_symbols(p));
                        }
                        if !all_sources(m, kb as nat) {
                            let i0 = choose|i: u32| i < kb && !#[trigger] m.contains_key(i);
                            let rr = Set::new(|i: u32| (i as nat) < kb as nat);
                            lemma_index_range(kb as nat);
                            lemma_first_payloads_grow(stream@, ps, b, j + 1, j + 1);
                            assert forall|key: u32| m.dom().contains(key) implies rr.remove(
                                i0,
                            ).contains(key) by {
                                lemma_first_payloads_origin(stream@, ps, b, j + 1, key);
                                let k = choose|k: int|
                                    0 <= k < j + 1 && packet_block(stream@, ps, k) == b
                                        && #[trigger] packet_index(stream@, ps, k) == key;
                                if key >= kb {
                                    assert(packet_index(stream@, ps, k) == key);
                                    assert(all_sources(first_payloads(stream@, ps, b, k), kb as nat));
                                    assert(first_payloads(stream@, ps, b, k).contains_key(i0));
                                    lemma_first_payloads_stable(stream@, ps, b, k, j + 1, i0);
                                }
                            }
                            assert(m.dom().subset_of(rr.remove(i0)));
                            vstd::set_lib::lemma_len_subset(m.dom(), rr.remove(i0));
                            assert(rr.contains(i0));
                            assert(m.dom().len() < kb);
                            assert(false);
                        }
                        assert(rec@ == block_record(b, source_concat(m, kb as nat), len));
                        assert forall|i: u32| (i as nat) < kb as nat implies #[trigger] first_payloads(
                            stream@,
                            ps,
                            b,
                            cnt,
                        )[i] == m[i] by {
                            assert(m.contains_key(i));
                            lemma_first_payloads_stable(stream@, ps, b, j + 1, cnt, i);
                        }
                        lemma_source_concat_same(
                            first_payloads(stream@, ps, b, cnt),
                            m,
                            kb as nat,
                        );
                        assert(rec@ == record_from_stream(stream@, b));
                    }
                }
                let ghost rec_view = rec@;
                recs.push(rec);
                assert(p.sub_blocks == 1 ==> forall|i: int|
                    0 <= i < recs@.len() && sources_first(stream@, (#[trigger] recs@[i])@[0])
                        ==> recs@[i]@ == record_from_stream(stream@, recs@[i]@[0])) by {
                    assert forall|i: int|
                        0 <= i < recs@.len() && p.sub_blocks == 1 && sources_first(
                            stream@,
                            (#[trigger] recs@[i])@[0],
                        ) implies recs@[i]@ == record_from_stream(stream@, recs@[i]@[0]) by {
                        if i < nrecs.len() {
                            assert(recs@[i] == nrecs[i]);
                        } else {
                            assert(recs@[i]@ == rec_view);
                        }
                    }
                }
                assert forall|k: int|
                    0 <= k < recs@.len() implies session.statuses()[(#[trigger] recs@[k])@[0] as int]
                    == BlockStatus::Complete by {
                    if k < nrecs.len() {
                        assert(recs@[k] == nrecs[k]);
                    }
                }
                assert forall|k1: int, k2: int|
                    0 <= k1 < recs@.len() && 0 <= k2 < recs@.len() && k1 != k2 implies (
                    #[trigger] recs@[k1])@[0] != (#[trigger] recs@[k2])@[0] by {
                    if k1 < nrecs.len() && k2 < nrecs.len() {
                        assert(recs@[k1] == nrecs[k1]);
                        assert(recs@[k2] == nrecs[k2]);
                    } else if k1 < nrecs.len() {
                        assert(recs@[k1] == nrecs[k1]);
                        assert(before[recs@[k1]@[0] as int] == BlockStatus::Complete);
                    } else {
                        assert(recs@[k2] == nrecs[k2]);
                        assert(before[recs@[k2]@[0] as int] == BlockStatus::Complete);
                    }
                }
                assert forall|k: int| 0 <= k < recs@.len() implies {
                    let b = (#[trigger] recs@[k])@[0];
                    &&& b < p.source_blocks
                    &&& exists|sym: Seq<u8>|
                        #![trigger block_record(b, sym, block_length(p, b as int))]
                        sym.len() == block_symbols(p, b as int) * p.symbol_size && recs@[k]@
                            == block_record(b, sym, block_length(p, b as int))
                } by {
                    if k < nrecs.len() {
                        assert(recs@[k] == nrecs[k]);
                    } else {
                        assert(recs@[k] == rec);
                        assert(block_record(b, sym, len) == recs@[k]@);
                    }
                }
                if session.is_done() {
                    proof {
                        lemma_count_full(session.statuses());
                        lemma_records_cover_blocks(p, recs@);
                        if lacking {
                            assert(session.statuses()[b0 as int] != BlockStatus::Complete);
                            assert(b0 < session.statuses().len());
                        }
                    }
                    return Ok(recs);
                }
            },
        }
        pos = end;
        proof {
            j = j + 1;
        }
    }
    proof {
        lemma_count_full(session.statuses());
        assert(n - HEADER_LEN == j * ps);
        vstd::arithmetic::div_mod::lemma_mod_multiples_basic(j, ps);
        if well_formed(stream@) && holds_all_sources(stream@) {
            let cnt = (n - HEADER_LEN) / ps;
            assert(j == cnt) by (nonlinear_arith)
                requires
                    HEADER_LEN + j * ps == n,
                    n - HEADER_LEN == ps * cnt,
                    ps > 0,
            ;
            crate::params::lemma_blocks_tile_transfer(p);
            assert forall|c: int| 0 <= c < session.statuses().len() implies session.statuses()[c]
                == BlockStatus::Complete by {
                if session.statuses()[c] != BlockStatus::Complete {
                    let bc = c as u8;
                    let kk = block_symbols(p, c);
                    let m = session.received(c);
                    assert(block_length(p, c) > 0);
                    assert(kk >= 1) by (nonlinear_arith)
                        requires
                            block_length(p, c) <= kk * p.symbol_size,
                            block_length(p, c) > 0,
                    ;
                    assert forall|i: u32| i < kk implies #[trigger] m.contains_key(i) by {
                        assert(has_packet(stream@, ps, bc, i));
                        let k = choose|k: int|
                            0 <= k < cnt && #[trigger] packet_block(stream@, ps, k) == bc
                                && #[trigger] packet_index(stream@, ps, k) == i;
                    }
                    assert(!m.contains_key(0u32) ==> false);
                    match session.slots@[c] {
                        BlockSlot::Accumulating(d) => {
                            assert(all_sources(d.spec_received(), d.spec_symbols()));
                        },
                        _ => {},
                    }
                }
            }
        }
    }
    proof {
        if recs@.len() == p.source_blocks {
            lemma_records_cover_blocks(p, recs@);
        }
    }
    match session.finish() {
        Ok(()) => Ok(recs),
        Err(e) => Err(e),
    }
}

} // verus!
