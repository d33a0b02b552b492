use qsim::circuit::Circuit;
use qsim::shader_types::{decode_results, encode_ops, OpRecord, Result as Sample};
use qsim::ops::RZ;

#[test]
fn parsed_record_round_trips_through_bytes() {
    let c = Circuit::from_str("rz(0.5) 3\n").unwrap();
    let op = &c.ops[1];
    let bits = 0.5f32.to_bits();
    let rec = op.to_record(bits);
    assert_eq!(rec, OpRecord { op_id: RZ, q1: 3, q2: 0, q3: 0, angle_bits: bits });
    let bytes = rec.encode();
    assert_eq!(bytes.len(), 256);
    assert_eq!(&bytes[0..8], &[14, 0, 0, 0, 3, 0, 0, 0]);
    assert_eq!(&bytes[16..20], &0.5f32.to_le_bytes());
    assert!(bytes[20..].iter().all(|b| *b == 0));
    let back = OpRecord::decode(&bytes).unwrap();
    assert_eq!(back, rec);
    assert_eq!(f32::from_bits(back.angle_bits), 0.5);
}

#[test]
fn record_without_angle_encodes_zero_angle() {
    let c = Circuit::from_str("cx 1 2\n").unwrap();
    let rec = c.ops[1].to_record(0x1234_5678);
    assert_eq!(rec.angle_bits, 0);
    assert_eq!((rec.q1, rec.q2), (1, 2));
}

#[test]
fn decode_rejects_wrong_length() {
    assert_eq!(OpRecord::decode(&[0u8; 255]), None);
    assert_eq!(OpRecord::decode(&[0u8; 257]), None);
    let big = OpRecord { op_id: 0xdead_beef, q1: u32::MAX, q2: 1, q3: 2, angle_bits: 0x8000_0001 };
    assert_eq!(OpRecord::decode(&big.encode()), Some(big));
}

#[test]
fn ops_buffer_places_records_at_256_byte_stride() {
    let c = Circuit::from_str("h 0\nrx(1.5) 1\n").unwrap();
    let bits: Vec<u32> = c
        .ops
        .iter()
        .map(|o| match &o.angle {
            Some(a) => std::str::from_utf8(a).unwrap().parse::<f32>().unwrap().to_bits(),
            None => 0,
        })
        .collect();
    let records = c.records(&bits);
    assert_eq!(records.len(), 4);
    let buf = encode_ops(&records);
    assert_eq!(buf.len(), 4 * 256);
    for (i, r) in records.iter().enumerate() {
        assert_eq!(OpRecord::decode(&buf[i * 256..(i + 1) * 256]), Some(*r));
    }
    assert_eq!(f32::from_bits(records[2].angle_bits), 1.5);
}

#[test]
fn results_are_read_from_little_endian_pairs() {
    let mut bytes = Vec::new();
    bytes.extend_from_slice(&0u32.to_le_bytes());
    bytes.extend_from_slice(&0.5f32.to_le_bytes());
    bytes.extend_from_slice(&3u32.to_le_bytes());
    bytes.extend_from_slice(&0.5f32.to_le_bytes());
    bytes.extend_from_slice(&[1, 2, 3]);
    let results = decode_results(&bytes);
    assert_eq!(results.len(), 2);
    assert_eq!(results[0], Sample { entry_idx: 0, probability_bits: 0.5f32.to_bits() });
    assert_eq!(results[1].entry_idx, 3);
    assert!((f32::from_bits(results[1].probability_bits) - 0.5).abs() < 1e-6);
}
