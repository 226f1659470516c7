use nlhe::card::NUM_COMBOS;
use nlhe::game::Street;
use nlhe::samples::{
    decode_equity, decode_samples, encode_equity, encode_samples, SampleError, SampleRecord,
    EQUITY_BYTES, SAMPLE_BYTES,
};

fn sample(street: Street, board: Vec<u8>, seed: u32) -> SampleRecord {
    let mut ranges = [[0u32; NUM_COMBOS]; 2];
    let mut ev = [[0u32; NUM_COMBOS]; 2];
    for p in 0..2 {
        for c in 0..NUM_COMBOS {
            ranges[p][c] = (0.5f32 + c as f32).to_bits() ^ seed;
            ev[p][c] = (-(c as f32) * 0.25 + p as f32).to_bits().wrapping_add(seed);
        }
    }
    SampleRecord {
        board,
        street,
        pot: 120 + seed as i32,
        stacks: [-7, 1000],
        ranges,
        ev,
        iterations: 300,
        exploitability_pct: 0.125f32.to_bits(),
    }
}

fn same(a: &SampleRecord, b: &SampleRecord) -> bool {
    a.board == b.board
        && a.street == b.street
        && a.pot == b.pot
        && a.stacks == b.stacks
        && a.ranges == b.ranges
        && a.ev == b.ev
        && a.iterations == b.iterations
        && a.exploitability_pct == b.exploitability_pct
}

#[test]
fn samples_read_back_as_written() {
    let v = vec![
        sample(Street::River, vec![1, 5, 9, 13, 51], 1),
        sample(Street::Turn, vec![0, 2, 4, 6], 2),
    ];
    let bytes = encode_samples(&v);
    assert_eq!(bytes.len(), 12 + 2 * SAMPLE_BYTES);
    assert_eq!(&bytes[0..4], b"PGS1");
    assert_eq!(&bytes[4..8], &[1, 0, 0, 0]);
    assert_eq!(&bytes[8..12], &[2, 0, 0, 0]);
    // The turn sample's fifth board slot is unused.
    assert_eq!(bytes[12 + SAMPLE_BYTES + 5], 0xFF);
    let back = decode_samples(&bytes).unwrap();
    assert_eq!(back.len(), 2);
    assert!(same(&back[0], &v[0]));
    assert!(same(&back[1], &v[1]));
    // Bytes after the announced samples are ignored.
    let mut longer = bytes.clone();
    longer.extend_from_slice(&[9, 9, 9]);
    assert_eq!(decode_samples(&longer).unwrap().len(), 2);
}

#[test]
fn sample_errors() {
    let v = vec![sample(Street::River, vec![1, 5, 9, 13, 51], 3)];
    let bytes = encode_samples(&v);
    assert_eq!(decode_samples(&bytes[..3]).err(), Some(SampleError::Truncated));
    assert_eq!(decode_samples(&bytes[..bytes.len() - 1]).err(), Some(SampleError::Truncated));
    let mut bad = bytes.clone();
    bad[3] = b'2';
    assert_eq!(decode_samples(&bad).err(), Some(SampleError::BadMagic));
    let mut bad = bytes.clone();
    bad[4] = 2;
    assert_eq!(decode_samples(&bad).err(), Some(SampleError::BadVersion));
    let mut bad = bytes.clone();
    bad[12] = 1;
    assert_eq!(decode_samples(&bad).err(), Some(SampleError::BadStreet(1)));
    // A flop sample is written with its street index but cannot be read back.
    let flop = encode_samples(&[sample(Street::Flop, vec![1, 2, 3], 4)]);
    assert_eq!(decode_samples(&flop).err(), Some(SampleError::BadStreet(1)));
    assert_eq!(decode_samples(&flop[..12]).err(), Some(SampleError::Truncated));
}

#[test]
fn equity_reads_back_as_written() {
    let mut a = [[0u32; NUM_COMBOS]; 2];
    for p in 0..2 {
        for c in 0..NUM_COMBOS {
            a[p][c] = (c as u32) * 7 + p as u32;
        }
    }
    let data = vec![a, [[u32::MAX; NUM_COMBOS]; 2]];
    let bytes = encode_equity(&data);
    assert_eq!(bytes.len(), 8 + 2 * EQUITY_BYTES);
    assert_eq!(&bytes[0..4], b"PGSE");
    assert_eq!(decode_equity(&bytes).unwrap(), data);
    assert_eq!(decode_equity(&bytes[..bytes.len() - 1]).err(), Some(SampleError::Truncated));
    let mut bad = bytes.clone();
    bad[0] = 0;
    assert_eq!(decode_equity(&bad).err(), Some(SampleError::BadMagic));
}
