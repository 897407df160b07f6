use bitcoin::hashes::sha256;
use windfish::model::{DeltaMap, MempoolSerde, Txn, TxId, UnbroadcastSet};
use windfish::{MempoolSerdeError, MEMPOOL_DUMP_VERSION, MEMPOOL_DUMP_VERSION_NO_XOR_KEY};

fn push_u64_le(v: &mut Vec<u8>, x: u64) {
    let mut w = x;
    for _ in 0..8 {
        v.push((w % 0x100) as u8);
        w /= 0x100;
    }
}

fn push_i64_le(v: &mut Vec<u8>, x: i64) {
    push_u64_le(v, x as u64);
}

/// A minimal legacy transaction: one all-zero input, one empty output, 60 bytes.
fn tx_bytes() -> Vec<u8> {
    let mut v = vec![1u8, 0, 0, 0]; // version
    v.push(1); // input count
    for _ in 0..32 {
        v.push(0); // previous txid
    }
    v.extend_from_slice(&[0, 0, 0, 0]); // previous vout
    v.push(0); // script length
    v.extend_from_slice(&[0xff, 0xff, 0xff, 0xff]); // sequence
    v.push(1); // output count
    v.extend_from_slice(&[0x00, 0xe1, 0xf5, 0x05, 0, 0, 0, 0]); // value
    v.push(0); // script length
    v.extend_from_slice(&[0, 0, 0, 0]); // lock time
    v
}

fn id_bytes(tag: u8) -> Vec<u8> {
    let mut v = vec![tag; 4];
    v.extend_from_slice(&[0u8; 28]);
    v
}

/// A file with one entry, one override and one unbroadcast identifier.
fn sample_file() -> Vec<u8> {
    let mut f = Vec::new();
    push_u64_le(&mut f, 1); // version tag
    push_u64_le(&mut f, 1); // entry count
    f.extend_from_slice(&tx_bytes());
    push_i64_le(&mut f, 1_700_000_000); // time
    push_i64_le(&mut f, -250); // fee delta
    f.push(1); // override count (varint)
    f.extend_from_slice(&id_bytes(0xaa));
    push_i64_le(&mut f, 9000);
    f.push(1); // unbroadcast count (varint)
    f.extend_from_slice(&id_bytes(0xbb));
    f
}

#[test]
fn parse_v1_vector() {
    let file = sample_file();
    let mempool = MempoolSerde::from_bytes(&file).unwrap();
    assert_eq!(mempool.version, 1);
    assert_ne!(mempool.version, 2);
    assert_eq!(mempool.txs.len(), 1);
    assert_eq!(mempool.txs[0].payload, tx_bytes());
    assert_eq!(mempool.txs[0].time, 1_700_000_000);
    assert_eq!(mempool.txs[0].fee_delta, -250);
    assert_eq!(mempool.map_deltas.pairs.len(), 1);
    assert_eq!(mempool.map_deltas.pairs[0].0.bytes, id_bytes(0xaa));
    assert_eq!(mempool.map_deltas.pairs[0].1, 9000);
    assert_eq!(mempool.unbroadcast_txids.ids.len(), 1);
    assert_eq!(mempool.unbroadcast_txids.ids[0].bytes, id_bytes(0xbb));
    println!("{}", format!("{} entries", mempool.txs.len()));
}

#[test]
fn roundtrip_serialization() {
    let original_bytes = sample_file();
    let mempool = MempoolSerde::from_bytes(&original_bytes).unwrap();
    let serialized_bytes = mempool.to_bytes().unwrap();
    let original_hash = <sha256::Hash as bitcoin::hashes::Hash>::hash(&original_bytes);
    let serialized_hash = <sha256::Hash as bitcoin::hashes::Hash>::hash(&serialized_bytes);

    assert_eq!(original_hash, serialized_hash, "SHA256 hashes don't match");
    assert_eq!(original_bytes, serialized_bytes);
}

#[test]
fn version_gate_rejects_masked_variant() {
    let mut f = Vec::new();
    push_u64_le(&mut f, MEMPOOL_DUMP_VERSION); // the masked-variant tag
    push_u64_le(&mut f, 0);
    f.push(0);
    f.push(0);
    let r = MempoolSerde::from_bytes(&f);
    assert!(matches!(r, Err(MempoolSerdeError::UnsupportedVersion(2))));
}

#[test]
fn version_gate_rejects_unknown_tag() {
    let mut f = Vec::new();
    push_u64_le(&mut f, 77);
    let r = MempoolSerde::from_bytes(&f);
    assert!(matches!(r, Err(MempoolSerdeError::UnsupportedVersion(77))));
}

#[test]
fn truncated_header_is_rejected() {
    let f = vec![1u8, 0, 0];
    assert!(matches!(
        MempoolSerde::from_bytes(&f),
        Err(MempoolSerdeError::Decode)
    ));
}

#[test]
fn truncated_mid_entry_is_rejected() {
    let mut f = Vec::new();
    push_u64_le(&mut f, MEMPOOL_DUMP_VERSION_NO_XOR_KEY);
    push_u64_le(&mut f, 1); // one entry announced
    let tx = tx_bytes();
    f.extend_from_slice(&tx[..tx.len() - 10]); // entry cut short
    assert!(matches!(
        MempoolSerde::from_bytes(&f),
        Err(MempoolSerdeError::Decode)
    ));
}

#[test]
fn entry_count_exceeding_available_bytes_is_rejected() {
    let mut f = Vec::new();
    push_u64_le(&mut f, MEMPOOL_DUMP_VERSION_NO_XOR_KEY);
    push_u64_le(&mut f, 5); // five entries announced
    f.extend_from_slice(&tx_bytes());
    push_i64_le(&mut f, 0);
    push_i64_le(&mut f, 0); // only one present
    assert!(matches!(
        MempoolSerde::from_bytes(&f),
        Err(MempoolSerdeError::Decode)
    ));
}

#[test]
fn truncated_override_section_is_rejected() {
    let mut f = Vec::new();
    push_u64_le(&mut f, MEMPOOL_DUMP_VERSION_NO_XOR_KEY);
    push_u64_le(&mut f, 0);
    f.push(2); // two overrides announced
    f.extend_from_slice(&id_bytes(0xaa));
    push_i64_le(&mut f, 1); // only one present
    assert!(matches!(
        MempoolSerde::from_bytes(&f),
        Err(MempoolSerdeError::Decode)
    ));
}

#[test]
fn concrete_scenario_one_override() {
    // version=1, entry count=0, one override (identifier -> -500), no
    // unbroadcast identifiers.
    let ident = id_bytes(0x42);
    let mut f = Vec::new();
    push_u64_le(&mut f, 1);
    push_u64_le(&mut f, 0);
    f.push(1);
    f.extend_from_slice(&ident);
    push_i64_le(&mut f, -500);
    f.push(0);
    assert_eq!(f.len(), 8 + 8 + 1 + 32 + 8 + 1);

    let mempool = MempoolSerde::from_bytes(&f).unwrap();
    assert_eq!(mempool.txs.len(), 0);
    assert_eq!(mempool.map_deltas.pairs.len(), 1);
    assert_eq!(mempool.map_deltas.pairs[0].0.bytes, ident);
    assert_eq!(mempool.map_deltas.pairs[0].1, -500);
    assert_eq!(mempool.unbroadcast_txids.ids.len(), 0);

    let again = mempool.to_bytes().unwrap();
    assert_eq!(again, f);
}

#[test]
fn duplicate_override_key_last_write_wins() {
    let ident = id_bytes(0x42);
    let mut f = Vec::new();
    push_u64_le(&mut f, 1);
    push_u64_le(&mut f, 0);
    f.push(2);
    f.extend_from_slice(&ident);
    push_i64_le(&mut f, 100);
    f.extend_from_slice(&ident);
    push_i64_le(&mut f, -7);
    f.push(0);

    let mempool = MempoolSerde::from_bytes(&f).unwrap();
    assert_eq!(mempool.map_deltas.pairs.len(), 1);
    assert_eq!(mempool.map_deltas.pairs[0].1, -7);
}

#[test]
fn duplicate_unbroadcast_identifier_is_kept_once() {
    let ident = id_bytes(0x42);
    let mut f = Vec::new();
    push_u64_le(&mut f, 1);
    push_u64_le(&mut f, 0);
    f.push(0);
    f.push(2);
    f.extend_from_slice(&ident);
    f.extend_from_slice(&ident);

    let mempool = MempoolSerde::from_bytes(&f).unwrap();
    assert_eq!(mempool.unbroadcast_txids.ids.len(), 1);
    assert_eq!(mempool.unbroadcast_txids.ids[0].bytes, ident);
}

#[test]
fn wide_varint_count_round_trips() {
    // 253 overrides force the three-byte varint form.
    let mut f = Vec::new();
    push_u64_le(&mut f, 1);
    push_u64_le(&mut f, 0);
    f.extend_from_slice(&[0xfd, 0xfd, 0x00]);
    for i in 0..253u32 {
        let mut ident = vec![(i % 256) as u8, (i / 256) as u8];
        ident.extend_from_slice(&[7u8; 30]);
        f.extend_from_slice(&ident);
        push_i64_le(&mut f, i as i64);
    }
    f.push(0);

    let mempool = MempoolSerde::from_bytes(&f).unwrap();
    assert_eq!(mempool.map_deltas.pairs.len(), 253);
    assert_eq!(mempool.to_bytes().unwrap(), f);
}

#[test]
fn non_minimal_varint_is_rejected() {
    // Count 1 written in the three-byte form.
    let mut f = Vec::new();
    push_u64_le(&mut f, 1);
    push_u64_le(&mut f, 0);
    f.extend_from_slice(&[0xfd, 0x01, 0x00]);
    f.extend_from_slice(&id_bytes(0x42));
    push_i64_le(&mut f, 1);
    f.push(0);
    assert!(matches!(
        MempoolSerde::from_bytes(&f),
        Err(MempoolSerdeError::Decode)
    ));
}

#[test]
fn entry_order_is_preserved() {
    // Three entries with distinct metadata; decode then re-encode keeps each
    // entry at its index.
    let mut f = Vec::new();
    push_u64_le(&mut f, 1);
    push_u64_le(&mut f, 3);
    for k in 0..3i64 {
        f.extend_from_slice(&tx_bytes());
        push_i64_le(&mut f, 1000 + k);
        push_i64_le(&mut f, -k);
    }
    f.push(0);
    f.push(0);

    let mempool = MempoolSerde::from_bytes(&f).unwrap();
    assert_eq!(mempool.txs.len(), 3);
    for k in 0..3usize {
        assert_eq!(mempool.txs[k].time, 1000 + k as i64);
        assert_eq!(mempool.txs[k].fee_delta, -(k as i64));
    }
    let again = mempool.to_bytes().unwrap();
    assert_eq!(again, f);
    let back = MempoolSerde::from_bytes(&again).unwrap();
    for k in 0..3usize {
        assert_eq!(back.txs[k].payload, mempool.txs[k].payload);
        assert_eq!(back.txs[k].time, mempool.txs[k].time);
        assert_eq!(back.txs[k].fee_delta, mempool.txs[k].fee_delta);
    }
}

#[test]
fn serialize_empty_snapshot() {
    let mempool = MempoolSerde {
        version: MEMPOOL_DUMP_VERSION_NO_XOR_KEY,
        txs: Vec::<Txn>::new(),
        map_deltas: DeltaMap { pairs: Vec::new() },
        unbroadcast_txids: UnbroadcastSet { ids: Vec::new() },
    };
    let b = mempool.to_bytes().unwrap();
    let mut expect = Vec::new();
    push_u64_le(&mut expect, 1);
    push_u64_le(&mut expect, 0);
    expect.push(0);
    expect.push(0);
    assert_eq!(b, expect);
}

#[test]
fn delta_map_insert_overwrites_in_place() {
    let mut dm = DeltaMap::new();
    dm.insert(TxId { bytes: id_bytes(1) }, 5);
    dm.insert(TxId { bytes: id_bytes(2) }, 6);
    dm.insert(TxId { bytes: id_bytes(1) }, -9);
    assert_eq!(dm.pairs.len(), 2);
    assert_eq!(dm.pairs[0].0.bytes, id_bytes(1));
    assert_eq!(dm.pairs[0].1, -9);
    assert_eq!(dm.pairs[1].0.bytes, id_bytes(2));
    assert_eq!(dm.pairs[1].1, 6);
}

#[test]
fn varint_widths_round_trip() {
    let samples: [u64; 8] = [
        0,
        0xfc,
        0xfd,
        0xffff,
        0x10000,
        0xffffffff,
        0x100000000,
        u64::MAX,
    ];
    for v in samples {
        let mut buf = Vec::new();
        windfish::bytes::write_varint(&mut buf, v);
        let (w, end) = windfish::bytes::read_varint(&buf, 0).unwrap();
        assert_eq!(w, v);
        assert_eq!(end, buf.len());
    }
    // the non-minimal forms the on-disk format forbids
    assert!(windfish::bytes::read_varint(&vec![0xfd, 0x01, 0x00], 0).is_none());
    assert!(windfish::bytes::read_varint(&vec![0xfe, 0xff, 0xff, 0x00, 0x00], 0).is_none());
    assert!(windfish::bytes::read_varint(&vec![0xff, 1, 0, 0, 0, 0, 0, 0, 0], 0).is_none());
}

#[test]
fn signed_fields_round_trip_through_their_bytes() {
    let samples: [i64; 5] = [0, 1, -1, i64::MIN, i64::MAX];
    for x in samples {
        let mut buf = Vec::new();
        windfish::bytes::write_i64(&mut buf, x);
        assert_eq!(buf.len(), 8);
        let (y, end) = windfish::bytes::read_i64(&buf, 0).unwrap();
        assert_eq!(y, x);
        assert_eq!(end, 8);
    }
    // -500 encodes as the two's-complement little-endian bytes
    let mut buf = Vec::new();
    windfish::bytes::write_i64(&mut buf, -500);
    assert_eq!(buf, vec![0x0c, 0xfe, 0xff, 0xff, 0xff, 0xff, 0xff, 0xff]);
}
