//! One FEC packet: a 4-byte identifier followed by one symbol.
use vstd::prelude::*;
use crate::params::PACKET_ID_LEN;

verus! {

/// Largest symbol index plus one: the index takes three bytes on the wire.
pub const SYMBOL_INDEX_LIMIT: u32 = 0x100_0000;

/// A packet of one block, with its symbol index and symbol bytes.
#[derive(Clone, Debug, PartialEq, Eq)]
pub struct Packet {
    pub block_number: u8,
    pub symbol_index: u32,
    pub payload: Vec<u8>,
}

/// The identifier bytes: block number, then the symbol index in three
/// big-endian bytes.
pub open spec fn id_bytes(block_number: u8, symbol_index: u32) -> Seq<u8> {
    seq![
        block_number,
        ((symbol_index >> 16u32) & 0xffu32) as u8,
        ((symbol_index >> 8u32) & 0xffu32) as u8,
        (symbol_index & 0xffu32) as u8,
    ]
}

pub open spec fn be24(b1: u8, b2: u8, b3: u8) -> u32 {
    ((b1 as u32) << 16u32) | ((b2 as u32) << 8u32) | (b3 as u32)
}

/// The wire form of a packet.
pub open spec fn packet_bytes(block_number: u8, symbol_index: u32, payload: Seq<u8>) -> Seq<u8> {
    id_bytes(block_number, symbol_index) + payload
}

impl Packet {
    pub open spec fn wf(&self) -> bool {
        self.symbol_index < SYMBOL_INDEX_LIMIT
    }

    pub open spec fn spec_bytes(&self) -> Seq<u8> {
        packet_bytes(self.block_number, self.symbol_index, self.payload@)
    }

    pub fn new(block_number: u8, symbol_index: u32, payload: Vec<u8>) -> (r: Self)
        ensures
            r.block_number == block_number,
            r.symbol_index == symbol_index,
            r.payload == payload,
    {
        Packet { block_number, symbol_index, payload }
    }

    /// Writes the identifier and then the payload.
    pub fn serialize(&self) -> (r: Vec<u8>)
        ensures
            r@ == self.spec_bytes(),
            r@.len() == PACKET_ID_LEN + self.payload@.len(),
    {
        let mut r: Vec<u8> = Vec::with_capacity(PACKET_ID_LEN);
        append_packet(&mut r, self);
        assert(r@ =~= self.spec_bytes());
        r
    }

    /// Reads a packet of a transfer whose symbols have `symbol_size` bytes.
    /// Returns `None` exactly when `bytes` is not one packet long.
    pub fn deserialize(bytes: &[u8], symbol_size: u16) -> (r: Option<Self>)
        ensures
            r.is_some() <==> bytes@.len() == PACKET_ID_LEN + symbol_size,
            r matches Some(p) ==> {
                &&& p.wf()
                &&& p.block_number == bytes@[0]
                &&& p.symbol_index == be24(bytes@[1], bytes@[2], bytes@[3])
                &&& p.payload@ == bytes@.subrange(PACKET_ID_LEN as int, bytes@.len() as int)
            },
    {
        if bytes.len() != PACKET_ID_LEN + symbol_size as usize {
            return None;
        }
        let b1 = bytes[1];
        let b2 = bytes[2];
        let b3 = bytes[3];
        let symbol_index = ((b1 as u32) << 16u32) | ((b2 as u32) << 8u32) | (b3 as u32);
        assert(symbol_index < SYMBOL_INDEX_LIMIT) by (bit_vector)
            requires
                symbol_index == ((b1 as u32) << 16u32) | ((b2 as u32) << 8u32) | (b3 as u32),
        ;
        let mut payload: Vec<u8> = Vec::with_capacity(symbol_size as usize);
        let mut i: usize = PACKET_ID_LEN;
        while i < bytes.len()
            invariant
                PACKET_ID_LEN <= i <= bytes@.len(),
                payload@ == bytes@.subrange(PACKET_ID_LEN as int, i as int),
            decreases bytes@.len() - i,
        {
            payload.push(bytes[i]);
            i = i + 1;
            assert(payload@ =~= bytes@.subrange(PACKET_ID_LEN as int, i as int));
        }
        Some(Packet { block_number: bytes[0], symbol_index, payload })
    }
}

/// Appends the wire form of `p` to `out`.
pub fn append_packet(out: &mut Vec<u8>, p: &Packet)
    ensures
        final(out)@ == old(out)@ + p.spec_bytes(),
{
    let ghost start = out@;
    let i = p.symbol_index;
    out.push(p.block_number);
    out.push(((i >> 16u32) & 0xffu32) as u8);
    out.push(((i >> 8u32) & 0xffu32) as u8);
    out.push((i & 0xffu32) as u8);
    assert(out@ =~= start + id_bytes(p.block_number, i));
    let mut k: usize = 0;
    while k < p.payload.len()
        invariant
            k <= p.payload@.len(),
            out@ == start + id_bytes(p.block_number, i) + p.payload@.subrange(0, k as int),
        decreases p.payload@.len() - k,
    {
        out.push(p.payload[k]);
        k = k + 1;
        assert(out@ =~= start + id_bytes(p.block_number, i) + p.payload@.subrange(0, k as int));
    }
    assert(p.payload@.subrange(0, k as int) =~= p.payload@);
    assert(out@ =~= start + p.spec_bytes());
}

/// Reading back the wire form of a packet whose symbol index fits in three
/// bytes gives the same block number, index and payload.
pub proof fn lemma_packet_round_trip(block_number: u8, symbol_index: u32, payload: Seq<u8>)
    requires
        symbol_index < SYMBOL_INDEX_LIMIT,
    ensures
        ({
            let b = packet_bytes(block_number, symbol_index, payload);
            &&& b.len() == PACKET_ID_LEN + payload.len()
            &&& b[0] == block_number
            &&& be24(b[1], b[2], b[3]) == symbol_index
            &&& b.subrange(PACKET_ID_LEN as int, b.len() as int) == payload
        }),
{
    let b = packet_bytes(block_number, symbol_index, payload);
    let x = symbol_index;
    assert(be24(
        ((x >> 16u32) & 0xffu32) as u8,
        ((x >> 8u32) & 0xffu32) as u8,
        (x & 0xffu32) as u8,
    ) == x) by (bit_vector)
        requires
            x < 0x100_0000u32,
    ;
    assert(b.subrange(PACKET_ID_LEN as int, b.len() as int) =~= payload);
}

} // verus!
