use shredder::shred::{capacity, Shred, SHRED_TICK_REFERENCE_MASK};
use shredder::erasure::{
    get_erasure_batch_size, CODING_SHREDS_PER_FEC_BLOCK, DATA_SHREDS_PER_FEC_BLOCK,
};
use shredder::{ReedSolomonCache, ShredError, Shredder};
use solana_keypair::Keypair;
use solana_signer::Signer;

const SLOT: u64 = 0x1234_5678_9abc_def0;

fn payload_of(len: usize, seed: u64) -> Vec<u8> {
    let mut x = seed.wrapping_mul(6364136223846793005).wrapping_add(1442695040888963407);
    (0..len)
        .map(|_| {
            x = x.wrapping_mul(6364136223846793005).wrapping_add(1442695040888963407);
            (x >> 33) as u8
        })
        .collect()
}

fn split(shreds: Vec<Shred>) -> (Vec<Shred>, Vec<Shred>) {
    shreds.into_iter().partition(|s| s.is_data())
}

#[test]
fn parent_slot_is_checked() {
    assert!(matches!(
        Shredder::new(SLOT, SLOT + 1, 0, 0),
        Err(ShredError::InvalidParentSlot { .. })
    ));
    assert!(matches!(
        Shredder::new(SLOT, SLOT - 1 - 0xffff, 0, 0),
        Err(ShredError::InvalidParentSlot { .. })
    ));
    let shredder = Shredder::new(SLOT, SLOT - 0xffff, 0, 0).unwrap();
    assert_eq!(shredder.parent_slot(), SLOT - 0xffff);
    assert!(Shredder::new(SLOT, SLOT, 0, 0).is_ok());
}

#[test]
fn full_fec_set_for_last_in_slot() {
    let keypair = Keypair::new();
    let shredder = Shredder::new(SLOT, SLOT - 5, 0, 0).unwrap();
    let data = payload_of(DATA_SHREDS_PER_FEC_BLOCK * capacity(false), 1);
    let cache = ReedSolomonCache::new();
    let shreds = shredder
        .make_shreds_from_data_slice(&keypair, &data, true, None, 0, 0, &cache)
        .unwrap();
    let (data_shreds, code_shreds) = split(shreds);
    assert_eq!(data_shreds.len(), DATA_SHREDS_PER_FEC_BLOCK);
    assert_eq!(code_shreds.len(), CODING_SHREDS_PER_FEC_BLOCK);
    let payloads: Vec<Vec<u8>> = data_shreds.iter().map(|s| s.payload().clone()).collect();
    assert_eq!(Shredder::deshred(&payloads).unwrap(), data);
    for (i, s) in data_shreds.iter().enumerate() {
        assert_eq!(s.slot(), SLOT);
        assert_eq!(s.index(), i as u32);
        assert_eq!(s.parent_offset(), Some(5));
        assert_eq!(s.fec_set_index(), 0);
    }
    assert!(data_shreds.last().unwrap().last_in_slot());
    for (j, s) in code_shreds.iter().enumerate() {
        assert_eq!(s.index(), j as u32);
        assert_eq!(s.fec_set_index(), 0);
        assert_eq!(s.num_data_shreds(), Some(32));
        assert_eq!(s.num_coding_shreds(), Some(32));
        assert_eq!(s.position(), Some(j as u16));
        assert_eq!(s.erasure_shard_index(), Some(32 + j));
    }
}

#[test]
fn indices_versions_and_completion() {
    let keypair = Keypair::new();
    for is_last in [false, true] {
        let shredder = Shredder::new(100, 90, 7, 4242).unwrap();
        let data = payload_of(10 * capacity(true) + 17, 2);
        let root = Some([9u8; 32]);
        let cache = ReedSolomonCache::new();
        let shreds = shredder
            .make_shreds_from_data_slice(&keypair, &data, is_last, root, 40, 7, &cache)
            .unwrap();
        let (data_shreds, code_shreds) = split(shreds);
        // 11 shreds of data, padded out to one FEC set of 32.
        assert_eq!(data_shreds.len(), 32);
        let n = data_shreds.len();
        for (i, s) in data_shreds.iter().enumerate() {
            assert_eq!(s.index(), 40 + i as u32);
            assert_eq!(s.version(), 4242);
            assert_eq!(s.parent_offset(), Some(10));
            assert_eq!(s.reference_tick(), 7);
            assert_eq!(s.data_complete(), i == n - 1);
            assert_eq!(s.last_in_slot(), i == n - 1 && is_last);
            assert_eq!(&s.payload()[88..120], &[9u8; 32][..]);
        }
        assert_eq!(code_shreds.len(), get_erasure_batch_size(32, is_last) - 32);
        assert!(data_shreds[11..].iter().all(|s| s.data() == Some(&[][..])));
        for (j, s) in code_shreds.iter().enumerate() {
            assert_eq!(s.index(), 7 + j as u32);
            assert_eq!(s.version(), 4242);
            assert_eq!(s.fec_set_index(), 40);
        }
        let payloads: Vec<Vec<u8>> = data_shreds.iter().map(|s| s.payload().clone()).collect();
        assert_eq!(Shredder::deshred(&payloads).unwrap(), data);
    }
}

#[test]
fn reference_tick_is_capped() {
    let keypair = Keypair::new();
    let shredder = Shredder::new(SLOT, SLOT - 5, u8::MAX, 0).unwrap();
    let data = payload_of(3 * capacity(false), 3);
    let cache = ReedSolomonCache::new();
    let shreds = shredder
        .make_shreds_from_data_slice(&keypair, &data, false, None, 0, 0, &cache)
        .unwrap();
    let (data_shreds, _) = split(shreds);
    assert!(!data_shreds.is_empty());
    for s in &data_shreds {
        assert_eq!(s.reference_tick(), SHRED_TICK_REFERENCE_MASK);
    }
}

#[test]
fn many_fec_sets_from_nonzero_index() {
    let keypair = Keypair::new();
    let shredder = Shredder::new(SLOT, SLOT - 1, 0, 0).unwrap();
    let data = payload_of(500 * 300, 4);
    let cache = ReedSolomonCache::new();
    let shreds = shredder
        .make_shreds_from_data_slice(&keypair, &data, true, None, 0x12, 0x12, &cache)
        .unwrap();
    let (data_shreds, code_shreds) = split(shreds);
    assert_eq!(data_shreds[0].fec_set_index(), 0x12);
    let mut sets: Vec<(u32, usize)> = Vec::new();
    for s in &data_shreds {
        match sets.last_mut() {
            Some((f, n)) if *f == s.fec_set_index() => *n += 1,
            _ => {
                assert_eq!(s.index(), s.fec_set_index());
                sets.push((s.fec_set_index(), 1));
            }
        }
    }
    assert!(sets.len() > 1);
    for (_, n) in &sets {
        assert!(*n >= DATA_SHREDS_PER_FEC_BLOCK && *n < 2 * DATA_SHREDS_PER_FEC_BLOCK);
    }
    // Code shreds come set by set, with the set's FEC set index.
    let mut expected: Vec<u32> = Vec::new();
    for (k, (f, n)) in sets.iter().enumerate() {
        let last = k == sets.len() - 1;
        for _ in 0..get_erasure_batch_size(*n, last) - n {
            expected.push(*f);
        }
    }
    let got: Vec<u32> = code_shreds.iter().map(|s| s.fec_set_index()).collect();
    assert_eq!(got, expected);
    // Merkle batches: the i-th code shred codes the FEC set of the i-th data shred.
    assert_eq!(code_shreds.len(), data_shreds.len());
    for (c, d) in code_shreds.iter().zip(&data_shreds) {
        assert_eq!(c.fec_set_index(), d.fec_set_index());
    }
    for (f, n) in &sets {
        assert_eq!(*n, DATA_SHREDS_PER_FEC_BLOCK);
        assert_eq!(code_shreds.iter().filter(|s| s.fec_set_index() == *f).count(), *n);
    }
    for (j, s) in code_shreds.iter().enumerate() {
        assert_eq!(s.index(), 0x12 + j as u32);
    }
}

#[test]
fn shreds_are_signed() {
    let keypair = Keypair::new();
    let shredder = Shredder::new(5, 4, 0, 0).unwrap();
    let data = payload_of(2000, 5);
    let cache = ReedSolomonCache::new();
    let shreds = shredder
        .make_shreds_from_data_slice(&keypair, &data, false, None, 0, 0, &cache)
        .unwrap();
    for s in &shreds {
        let payload = s.payload();
        let expected: [u8; 64] = keypair.sign_message(&payload[64..]).into();
        assert_eq!(&payload[..64], &expected[..]);
    }
}

#[test]
fn empty_payload_makes_no_shreds() {
    let keypair = Keypair::new();
    let shredder = Shredder::new(5, 4, 0, 0).unwrap();
    let cache = ReedSolomonCache::new();
    let shreds = shredder
        .make_shreds_from_data_slice(&keypair, &[], true, None, 0, 0, &cache)
        .unwrap();
    assert!(shreds.is_empty());
}

#[test]
fn index_overflow_is_refused() {
    let keypair = Keypair::new();
    let shredder = Shredder::new(5, 4, 0, 0).unwrap();
    let cache = ReedSolomonCache::new();
    let data = payload_of(3 * capacity(false), 6);
    let r = shredder.make_shreds_from_data_slice(&keypair, &data, false, None, u32::MAX - 1, 0, &cache);
    assert!(matches!(r, Err(ShredError::IndexOverflow)));
    let r = shredder.make_shreds_from_data_slice(&keypair, &data, false, None, 0, u32::MAX - 3, &cache);
    assert!(matches!(r, Err(ShredError::IndexOverflow)));
    // The last index may be u32::MAX itself: one FEC set of 32 data shreds.
    assert!(shredder
        .make_shreds_from_data_slice(&keypair, &data, false, None, u32::MAX - 31, u32::MAX - 31, &cache)
        .is_ok());
    let r = shredder.make_shreds_from_data_slice(&keypair, &data, false, None, u32::MAX - 30, 0, &cache);
    assert!(matches!(r, Err(ShredError::IndexOverflow)));
}

#[test]
fn parse_round_trip_and_errors() {
    let keypair = Keypair::new();
    let shredder = Shredder::new(5, 4, 0, 0).unwrap();
    let cache = ReedSolomonCache::new();
    let shreds = shredder
        .make_shreds_from_data_slice(&keypair, &payload_of(3000, 7), false, None, 0, 0, &cache)
        .unwrap();
    for s in &shreds {
        let parsed = Shred::new_from_serialized_shred(s.payload().clone()).unwrap();
        assert_eq!(parsed.payload(), s.payload());
    }
    assert!(matches!(
        Shred::new_from_serialized_shred(vec![0u8; 10]),
        Err(ShredError::InvalidPayloadSize(10))
    ));
    assert!(matches!(
        Shred::new_from_serialized_shred(vec![0u8; 200]),
        Err(ShredError::InvalidShredVariant)
    ));
    let mut bad = shreds[0].payload().clone();
    bad[86] = 0xff;
    bad[87] = 0xff;
    assert!(matches!(
        Shred::new_from_serialized_shred(bad),
        Err(ShredError::InvalidDataSize { size: 0xffff, .. })
    ));
}

#[test]
fn small_block_makes_one_full_batch() {
    // About as many bytes as five single-transfer entries.
    let keypair = Keypair::new();
    let shredder = Shredder::new(SLOT, SLOT - 5, 0, 0).unwrap();
    let data = payload_of(1300, 8);
    let cache = ReedSolomonCache::new();
    let shreds = shredder
        .make_shreds_from_data_slice(&keypair, &data, true, None, 0, 0, &cache)
        .unwrap();
    let (data_shreds, code_shreds) = split(shreds);
    assert_eq!(data_shreds.len(), DATA_SHREDS_PER_FEC_BLOCK);
    assert_eq!(code_shreds.len(), CODING_SHREDS_PER_FEC_BLOCK);
    let mut indices: Vec<u32> = data_shreds.iter().map(|s| s.index()).collect();
    indices.sort();
    indices.dedup();
    assert_eq!(indices, (0..DATA_SHREDS_PER_FEC_BLOCK as u32).collect::<Vec<_>>());
    let mut indices: Vec<u32> = code_shreds.iter().map(|s| s.index()).collect();
    indices.sort();
    indices.dedup();
    assert_eq!(indices, (0..CODING_SHREDS_PER_FEC_BLOCK as u32).collect::<Vec<_>>());
    for s in &data_shreds {
        assert!(s.is_data());
        assert_eq!(s.slot(), SLOT);
        assert_eq!(s.parent_offset(), Some(5));
        let payload = s.payload();
        let expected: [u8; 64] = keypair.sign_message(&payload[64..]).into();
        assert_eq!(&payload[..64], &expected[..]);
    }
    for s in &code_shreds {
        assert!(s.is_code());
        assert_eq!(s.slot(), SLOT);
        let payload = s.payload();
        let expected: [u8; 64] = keypair.sign_message(&payload[64..]).into();
        assert_eq!(&payload[..64], &expected[..]);
    }
    assert!(data_shreds.last().unwrap().last_in_slot());
    let payloads: Vec<Vec<u8>> = data_shreds.iter().map(|s| s.payload().clone()).collect();
    assert_eq!(Shredder::deshred(&payloads).unwrap(), data);
}

#[test]
fn default_cache_is_usable() {
    let cache = ReedSolomonCache::default();
    assert!(cache.get(32, 32).is_ok());
}

#[test]
fn both_shapes_from_data() {
    let keypair = Keypair::new();
    let shredder = Shredder::new(SLOT, SLOT - 2, 3, 77).unwrap();
    let cache = ReedSolomonCache::new();
    let data = payload_of(5 * capacity(false) + 9, 21);
    let (d, c) = shredder
        .shreds_from_data(&keypair, &data, false, Some([4u8; 32]), 10, 20, false, &cache)
        .unwrap();
    // The planner's shape: six data shreds, one FEC set, no chained root.
    assert_eq!(d.len(), 6);
    assert_eq!(c.len(), get_erasure_batch_size(6, false) - 6);
    assert!(d.iter().all(|s| s.fec_set_index() == 10));
    assert!(c.iter().enumerate().all(|(j, s)| s.index() == 20 + j as u32));
    let payloads: Vec<Vec<u8>> = d.iter().map(|s| s.payload().clone()).collect();
    assert_eq!(Shredder::deshred(&payloads).unwrap(), data);
    let (d, c) = shredder
        .shreds_from_data(&keypair, &data, false, Some([4u8; 32]), 10, 20, true, &cache)
        .unwrap();
    // Merkle batches: padded to 32 data shreds, 32 code shreds.
    assert_eq!(d.len(), 32);
    assert_eq!(c.len(), 32);
    assert_eq!(&d[0].payload()[88..120], &[4u8; 32][..]);
    let payloads: Vec<Vec<u8>> = d.iter().map(|s| s.payload().clone()).collect();
    assert_eq!(Shredder::deshred(&payloads).unwrap(), data);
}

#[test]
fn set_signature_writes_the_signature() {
    let keypair = Keypair::new();
    let shredder = Shredder::new(5, 4, 0, 0).unwrap();
    let cache = ReedSolomonCache::new();
    let shreds = shredder
        .make_shreds_from_data_slice(&keypair, &payload_of(100, 22), false, None, 0, 0, &cache)
        .unwrap();
    let mut s = shreds[0].clone();
    let before = s.payload().clone();
    s.set_signature(&[7u8; 64]);
    assert_eq!(&s.payload()[..64], &[7u8; 64][..]);
    assert_eq!(&s.payload()[64..], &before[64..]);
}
