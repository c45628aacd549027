use raptor_stream::decode::{decode_all, DecodeError, Reassembler};
use raptor_stream::encode::{
    block_source_data, encode_all, encoding_parameters, ConfigError, EncodeOptions, EncodeStage,
    StreamEncoder,
};
use raptor_stream::engine::BlockEncoder;
use raptor_stream::params::TransmissionParameters;

fn sample(len: usize, seed: u32) -> Vec<u8> {
    let mut x = seed;
    let mut out = Vec::with_capacity(len);
    for _ in 0..len {
        x = x.wrapping_mul(1_103_515_245).wrapping_add(12_345);
        out.push((x >> 16) as u8);
    }
    out
}

fn options(symbol_size: u16, repair: u32, blocks: u8) -> EncodeOptions {
    EncodeOptions {
        symbol_size,
        repair_symbols: repair,
        source_blocks: blocks,
        sub_blocks: 1,
        symbol_alignment: 8,
    }
}

fn split(stream: &[u8]) -> (Vec<u8>, Vec<Vec<u8>>) {
    let p = TransmissionParameters::deserialize(&stream[..12]);
    let size = p.packet_size();
    let packets = stream[12..].chunks(size).map(|c| c.to_vec()).collect();
    (stream[..12].to_vec(), packets)
}

fn join(header: &[u8], packets: &[Vec<u8>]) -> Vec<u8> {
    let mut out = header.to_vec();
    for p in packets {
        out.extend_from_slice(p);
    }
    out
}

fn reassemble(records: Vec<Vec<u8>>) -> Vec<u8> {
    let mut records = records;
    records.sort_by_key(|r| r[0]);
    let mut out = Vec::new();
    for r in records {
        out.extend_from_slice(&r[1..]);
    }
    out
}

#[test]
fn concrete_three_symbols_two_repairs() {
    let data = sample(3000, 7);
    let stream = encode_all(&data, &options(1000, 2, 1)).unwrap();
    assert_eq!(stream.len(), 12 + 5 * 1004);
    let (header, packets) = split(&stream);
    assert_eq!(packets.len(), 5);
    assert!(packets.iter().all(|p| p.len() == 1004));
    for keep in 0..3 {
        let chosen = vec![packets[3].clone(), packets[4].clone(), packets[keep].clone()];
        let records = decode_all(&join(&header, &chosen)).unwrap();
        assert_eq!(records.len(), 1);
        assert_eq!(records[0][0], 0);
        assert_eq!(&records[0][1..], &data[..]);
    }
    let two = vec![packets[0].clone(), packets[4].clone()];
    assert_eq!(
        decode_all(&join(&header, &two)),
        Err(DecodeError::Incomplete { completed: 0, total: 1 })
    );
}

#[test]
fn round_trip_in_order_many_blocks() {
    let data = sample(10_000, 3);
    let stream = encode_all(&data, &options(64, 5, 3)).unwrap();
    let records = decode_all(&stream).unwrap();
    assert_eq!(records.len(), 3);
    assert_eq!(reassemble(records), data);
}

#[test]
fn round_trip_uneven_blocks() {
    let data = sample(6500, 11);
    let stream = encode_all(&data, &options(1000, 1, 3)).unwrap();
    assert_eq!(reassemble(decode_all(&stream).unwrap()), data);
}

#[test]
fn round_trip_with_sub_blocks() {
    let data = sample(5000, 5);
    let o = EncodeOptions {
        symbol_size: 256,
        repair_symbols: 4,
        source_blocks: 2,
        sub_blocks: 2,
        symbol_alignment: 8,
    };
    let stream = encode_all(&data, &o).unwrap();
    assert_eq!(reassemble(decode_all(&stream).unwrap()), data);
}

#[test]
fn reordered_packets_decode_the_same() {
    let data = sample(9000, 21);
    let stream = encode_all(&data, &options(128, 6, 2)).unwrap();
    let (header, mut packets) = split(&stream);
    packets.reverse();
    let n = packets.len();
    for i in 0..n {
        let j = (i * 7 + 3) % n;
        packets.swap(i, j);
    }
    assert_eq!(reassemble(decode_all(&join(&header, &packets)).unwrap()), data);
}

#[test]
fn lost_source_packets_are_replaced_by_repairs() {
    let data = sample(4096, 9);
    let stream = encode_all(&data, &options(256, 8, 2)).unwrap();
    let (header, packets) = split(&stream);
    // each block: 8 source packets then 8 repair packets; drop 5 source packets per block
    let kept: Vec<Vec<u8>> = packets
        .iter()
        .enumerate()
        .filter(|(i, _)| !matches!(i % 16, 1 | 2 | 4 | 6 | 7))
        .map(|(_, p)| p.clone())
        .collect();
    assert_eq!(kept.len(), 22);
    assert_eq!(reassemble(decode_all(&join(&header, &kept)).unwrap()), data);
}

#[test]
fn missing_block_reports_count() {
    let data = sample(4096, 13);
    let stream = encode_all(&data, &options(256, 2, 2)).unwrap();
    let (header, packets) = split(&stream);
    // keep block 0 whole (10 packets), and only three packets of block 1
    let mut kept: Vec<Vec<u8>> = packets[..10].to_vec();
    kept.extend_from_slice(&packets[10..13]);
    assert_eq!(
        decode_all(&join(&header, &kept)),
        Err(DecodeError::Incomplete { completed: 1, total: 2 })
    );
}

#[test]
fn short_header_fails() {
    assert_eq!(
        decode_all(&[0, 0, 0, 1, 2]),
        Err(DecodeError::TruncatedHeader { received: 5 })
    );
    assert_eq!(decode_all(&[]), Err(DecodeError::TruncatedHeader { received: 0 }));
}

#[test]
fn partial_packet_fails() {
    let data = sample(100, 1);
    let stream = encode_all(&data, &options(64, 0, 1)).unwrap();
    let cut = &stream[..12 + 68 + 10];
    assert_eq!(
        decode_all(cut),
        Err(DecodeError::TruncatedPacket { received: 10, expected: 68, packets: 1 })
    );
}

#[test]
fn unusable_header_fails() {
    let header = TransmissionParameters::new(100, 0, 1, 1, 8).serialize();
    assert_eq!(decode_all(&header), Err(DecodeError::UnsupportedParameters));
    let zero_blocks = TransmissionParameters::new(100, 64, 0, 1, 8).serialize();
    assert_eq!(decode_all(&zero_blocks), Err(DecodeError::UnsupportedParameters));
}

#[test]
fn packet_of_unknown_block_fails() {
    let header = TransmissionParameters::new(8, 8, 1, 1, 8).serialize();
    let mut r = Reassembler::new(&header).unwrap();
    assert_eq!(r.packet_size(), 12);
    let packet = [5u8, 0, 0, 0, 1, 2, 3, 4, 5, 6, 7, 8];
    assert_eq!(r.push_packet(&packet), Err(DecodeError::UnknownBlock { block: 5 }));
}

#[test]
fn late_packets_after_completion_are_ignored() {
    let data = sample(200, 4);
    let stream = encode_all(&data, &options(64, 2, 1)).unwrap();
    let (header, packets) = split(&stream);
    let mut r = Reassembler::new(&header).unwrap();
    assert_eq!(r.push_packet(&packets[0]), Ok(None));
    assert_eq!(r.push_packet(&packets[1]), Ok(None));
    assert_eq!(r.push_packet(&packets[2]), Ok(None));
    assert!(r.finish().is_err());
    let record = r.push_packet(&packets[3]).unwrap().unwrap();
    assert_eq!(record[0], 0);
    assert_eq!(&record[1..], &data[..]);
    assert!(r.is_done());
    assert_eq!(r.completed(), 1);
    assert_eq!(r.push_packet(&packets[4]), Ok(None));
    assert_eq!(r.push_packet(&packets[0]), Ok(None));
    assert_eq!(r.finish(), Ok(()));
}

#[test]
fn configuration_errors() {
    let o = EncodeOptions { symbol_alignment: 0, ..options(64, 1, 1) };
    assert_eq!(encoding_parameters(10, &o), Err(ConfigError::ZeroAlignment));
    let o = EncodeOptions { symbol_size: 60, ..options(64, 1, 1) };
    assert_eq!(encoding_parameters(10, &o), Err(ConfigError::MisalignedSymbolSize));
    assert_eq!(encoding_parameters(0, &options(64, 1, 1)), Err(ConfigError::EmptyInput));
    assert_eq!(encoding_parameters(10, &options(64, 1, 0)), Err(ConfigError::Unsupported));
    assert_eq!(encoding_parameters(64, &options(64, 1, 2)), Err(ConfigError::Unsupported));
    assert_eq!(
        encoding_parameters(100, &options(64, 1, 1)),
        Ok(TransmissionParameters::new(100, 64, 1, 1, 8))
    );
    assert_eq!(encode_all(&[], &options(64, 1, 1)), Err(ConfigError::EmptyInput));
}

#[test]
fn repair_packets_come_in_batches() {
    let data = sample(300, 2);
    let mut e = StreamEncoder::new(&data, &options(64, 120, 1)).unwrap();
    assert_eq!(e.stage(), EncodeStage::Header);
    let (h, flush) = e.next_chunk().unwrap();
    assert_eq!(h, TransmissionParameters::new(300, 64, 1, 1, 8).serialize());
    assert!(!flush);
    let (src, flush) = e.next_chunk().unwrap();
    assert_eq!(src.len(), 5 * 68);
    assert!(!flush);
    let mut sizes = Vec::new();
    let mut flushes = Vec::new();
    while let Some((chunk, flush)) = e.next_chunk() {
        sizes.push(chunk.len() / 68);
        flushes.push(flush);
    }
    assert_eq!(sizes, vec![50, 50, 20]);
    assert_eq!(flushes, vec![false, false, true]);
    assert_eq!(e.stage(), EncodeStage::Done);
}

#[test]
fn batched_repairs_match_one_request() {
    let data = sample(300, 8);
    let stream = encode_all(&data, &options(64, 120, 1)).unwrap();
    let (_, packets) = split(&stream);
    assert_eq!(packets.len(), 125);
    for (i, p) in packets.iter().enumerate() {
        let esi = ((p[1] as usize) << 16) | ((p[2] as usize) << 8) | p[3] as usize;
        assert_eq!(p[0], 0);
        assert_eq!(esi, i);
    }
}

#[test]
fn batched_repair_bytes_equal_one_request() {
    let data = sample(300, 8);
    let o = options(64, 120, 1);
    let p = encoding_parameters(data.len(), &o).unwrap();
    let block = block_source_data(&p, &data, 0);
    assert_eq!(block.len(), 5 * 64);
    assert_eq!(&block[..300], &data[..]);
    assert!(block[300..].iter().all(|&x| x == 0));
    let enc = BlockEncoder::new(0, &p, &block);
    let whole = enc.repair_bytes(0, 120);
    assert_eq!(whole.len(), 120 * 68);
    let mut batched = enc.repair_bytes(0, 50);
    batched.extend(enc.repair_bytes(50, 50));
    batched.extend(enc.repair_bytes(100, 20));
    assert_eq!(batched, whole);
    let stream = encode_all(&data, &o).unwrap();
    assert_eq!(&stream[12 + 5 * 68..], &whole[..]);
    let source = enc.source_bytes();
    assert_eq!(&stream[12..12 + 5 * 68], &source[..]);
    for i in 0..5 {
        assert_eq!(&source[68 * i..68 * i + 4], &[0, 0, 0, i as u8]);
        assert_eq!(&source[68 * i + 4..68 * (i + 1)], &block[64 * i..64 * (i + 1)]);
    }
}

#[test]
fn concrete_stream_layout() {
    let data = sample(3000, 17);
    let stream = encode_all(&data, &options(1000, 2, 1)).unwrap();
    assert_eq!(&stream[..12], &[0, 0, 0, 0x0b, 0xb8, 0, 0x03, 0xe8, 1, 0, 1, 8]);
    for i in 0..5 {
        let at = 12 + 1004 * i;
        assert_eq!(&stream[at..at + 4], &[0, 0, 0, i as u8]);
    }
    for i in 0..3 {
        let at = 16 + 1004 * i;
        assert_eq!(&stream[at..at + 1000], &data[1000 * i..1000 * (i + 1)]);
    }
}

#[test]
fn whole_packet_prefix_never_truncates() {
    let data = sample(3000, 23);
    let stream = encode_all(&data, &options(1000, 2, 1)).unwrap();
    for k in 0..3 {
        let prefix = &stream[..12 + k * 1004];
        assert_eq!(
            decode_all(prefix),
            Err(DecodeError::Incomplete { completed: 0, total: 1 })
        );
    }
}

#[test]
fn bytes_after_completion_do_not_matter() {
    let data = sample(3000, 29);
    let stream = encode_all(&data, &options(1000, 2, 1)).unwrap();
    let base = decode_all(&stream[..12 + 3 * 1004]).unwrap();
    let mut longer = stream[..12 + 3 * 1004].to_vec();
    longer.extend_from_slice(&[9, 9, 9]);
    assert_eq!(decode_all(&longer).unwrap(), base);
    let mut junk = stream[..12 + 3 * 1004].to_vec();
    junk.extend_from_slice(&[200u8; 1004]);
    assert_eq!(decode_all(&junk).unwrap(), base);
    assert_eq!(base[0][0], 0);
    assert_eq!(&base[0][1..], &data[..]);
}

#[test]
fn partial_tail_is_truncation() {
    let data = sample(3000, 31);
    let stream = encode_all(&data, &options(1000, 2, 1)).unwrap();
    let cut = &stream[..12 + 2 * 1004 + 500];
    assert_eq!(
        decode_all(cut),
        Err(DecodeError::TruncatedPacket { received: 500, expected: 1004, packets: 2 })
    );
}
