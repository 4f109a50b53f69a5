use shredder::shred::capacity;
use shredder::erasure::get_erasure_batch_size;
use shredder::{ReedSolomonCache, Shred, ShredError, Shredder};
use solana_keypair::Keypair;

const SLOT: u64 = 0x1234_5678_9abc_def0;

fn payload_of(len: usize, seed: u64) -> Vec<u8> {
    let mut x = seed.wrapping_mul(6364136223846793005).wrapping_add(1);
    (0..len)
        .map(|_| {
            x = x.wrapping_mul(6364136223846793005).wrapping_add(1442695040888963407);
            (x >> 33) as u8
        })
        .collect()
}

/// Data and code shreds, the legacy way: data shreds first, then the code
/// shreds of their FEC sets.
fn legacy_shreds(
    shredder: &Shredder,
    keypair: &Keypair,
    data: &[u8],
    is_last_in_slot: bool,
    next_shred_index: u32,
    next_code_index: u32,
    cache: &ReedSolomonCache,
) -> (Vec<Shred>, Vec<Shred>) {
    let data_shreds = shredder
        .make_data_shreds(keypair, data, is_last_in_slot, &None, next_shred_index)
        .unwrap();
    let code_shreds =
        Shredder::data_shreds_to_coding_shreds(keypair, &data_shreds, next_code_index, cache)
            .unwrap();
    (data_shreds, code_shreds)
}

fn payloads(shreds: &[Shred]) -> Vec<Vec<u8>> {
    shreds.iter().map(|s| s.payload().clone()).collect()
}

fn run_test_recovery_and_reassembly(slot: u64, is_last_in_slot: bool) {
    let keypair = Keypair::new();
    let shredder = Shredder::new(slot, slot - 5, 0, 0).unwrap();
    let num_data_shreds: usize = 5;
    let serialized_entries = payload_of(num_data_shreds * capacity(false) - 100, 11);
    let reed_solomon_cache = ReedSolomonCache::new();
    let (data_shreds, coding_shreds) = legacy_shreds(
        &shredder,
        &keypair,
        &serialized_entries,
        is_last_in_slot,
        0,
        0,
        &reed_solomon_cache,
    );
    let num_coding_shreds = coding_shreds.len();
    assert_eq!(data_shreds.len(), num_data_shreds);
    assert_eq!(
        num_coding_shreds,
        get_erasure_batch_size(num_data_shreds, is_last_in_slot) - num_data_shreds
    );
    let all_shreds: Vec<Shred> = data_shreds.iter().cloned().chain(coding_shreds.iter().cloned()).collect();

    // Only data shreds, not all of them: nothing to recover from.
    let recovered = Shredder::try_recovery(
        data_shreds[..data_shreds.len() - 1].to_vec(),
        &reed_solomon_cache,
    )
    .unwrap();
    assert!(recovered.is_empty());

    // All data shreds: nothing missing.
    let recovered = Shredder::try_recovery(data_shreds.to_vec(), &reed_solomon_cache).unwrap();
    assert!(recovered.is_empty());

    // Keep the even positions: data shreds 1 and 3 are missing.
    let mut shred_info: Vec<Shred> = all_shreds
        .iter()
        .enumerate()
        .filter_map(|(i, b)| if i % 2 == 0 { Some(b.clone()) } else { None })
        .collect();
    let mut recovered = Shredder::try_recovery(shred_info.clone(), &reed_solomon_cache).unwrap();
    assert_eq!(recovered.len(), 2);
    let r = recovered.remove(0);
    assert_eq!(r.index(), 1);
    assert_eq!(r.payload(), data_shreds[1].payload());
    shred_info.insert(1, r);
    let r = recovered.remove(0);
    assert_eq!(r.index(), 3);
    assert_eq!(r.payload(), data_shreds[3].payload());
    shred_info.insert(3, r);
    let result = Shredder::deshred(&payloads(&shred_info[..num_data_shreds])).unwrap();
    assert!(result.len() >= serialized_entries.len());
    assert_eq!(serialized_entries[..], result[..serialized_entries.len()]);

    // Keep the odd positions: data shreds 0, 2 and 4 are missing.
    let mut shred_info: Vec<Shred> = all_shreds
        .iter()
        .enumerate()
        .filter_map(|(i, b)| if i % 2 != 0 { Some(b.clone()) } else { None })
        .collect();
    let recovered = Shredder::try_recovery(shred_info.clone(), &reed_solomon_cache).unwrap();
    assert_eq!(recovered.len(), 3);
    for (i, r) in recovered.into_iter().enumerate() {
        let index = i * 2;
        assert_eq!(r.index() as usize, index);
        assert_eq!(r.payload(), data_shreds[index].payload());
        assert_eq!(r.slot(), slot);
        assert_eq!(r.parent_offset(), Some(5));
        let is_last_data = index == num_data_shreds - 1;
        assert_eq!(r.last_in_slot(), is_last_data && is_last_in_slot);
        assert_eq!(r.data_complete(), is_last_data);
        shred_info.insert(i * 2, r);
    }
    let result = Shredder::deshred(&payloads(&shred_info[..num_data_shreds])).unwrap();
    assert_eq!(serialized_entries[..], result[..serialized_entries.len()]);

    // Two data shreds missing, the last one kept: reassembly fails.
    let kept: Vec<Shred> = all_shreds[..num_data_shreds]
        .iter()
        .enumerate()
        .filter_map(|(i, s)| {
            if (i < 4 && i % 2 != 0) || i == num_data_shreds - 1 {
                Some(s.clone())
            } else {
                None
            }
        })
        .collect();
    assert_eq!(kept.len(), 3);
    assert!(matches!(
        Shredder::deshred(&payloads(&kept)),
        Err(ShredError::ErasureError(reed_solomon_erasure::Error::TooFewDataShards))
    ));

    // From a nonzero index.
    let (data_shreds, coding_shreds) = legacy_shreds(
        &shredder,
        &keypair,
        &serialized_entries,
        is_last_in_slot,
        25,
        25,
        &reed_solomon_cache,
    );
    assert_eq!(data_shreds.len(), num_data_shreds);
    let all_shreds: Vec<Shred> = data_shreds.iter().cloned().chain(coding_shreds.iter().cloned()).collect();
    let mut shred_info: Vec<Shred> = all_shreds
        .iter()
        .enumerate()
        .filter_map(|(i, b)| if i % 2 != 0 { Some(b.clone()) } else { None })
        .collect();
    let recovered = Shredder::try_recovery(shred_info.clone(), &reed_solomon_cache).unwrap();
    assert_eq!(recovered.len(), 3);
    for (i, r) in recovered.into_iter().enumerate() {
        let index = 25 + (i * 2);
        assert_eq!(r.index() as usize, index);
        assert_eq!(r.payload(), data_shreds[i * 2].payload());
        assert_eq!(r.slot(), slot);
        assert_eq!(r.parent_offset(), Some(5));
        assert_eq!(r.last_in_slot(), index == 25 + num_data_shreds - 1 && is_last_in_slot);
        assert_eq!(r.data_complete(), index == 25 + num_data_shreds - 1);
        shred_info.insert(i * 2, r);
    }
    let result = Shredder::deshred(&payloads(&shred_info[..num_data_shreds])).unwrap();
    assert_eq!(serialized_entries[..], result[..serialized_entries.len()]);

    // Everything that was missing is back: nothing more to recover.
    let recovered = Shredder::try_recovery(shred_info.clone(), &reed_solomon_cache).unwrap();
    assert!(recovered.is_empty());
}

#[test]
fn test_recovery_and_reassembly() {
    run_test_recovery_and_reassembly(SLOT, false);
    run_test_recovery_and_reassembly(SLOT, true);
}

fn run_recovery_with_expanded_coding_shreds(num_bytes: usize, is_last_in_slot: bool, seed: u64) {
    let keypair = Keypair::new();
    let slot = 71489660;
    let shredder = Shredder::new(slot, slot - 1 - seed % 26, 0, (seed * 7919) as u16).unwrap();
    let next_shred_index = 1 + (seed as u32 * 37) % 1023;
    let reed_solomon_cache = ReedSolomonCache::new();
    let data = payload_of(num_bytes, seed);
    let (data_shreds, coding_shreds) = legacy_shreds(
        &shredder,
        &keypair,
        &data,
        is_last_in_slot,
        next_shred_index,
        next_shred_index,
        &reed_solomon_cache,
    );
    let num_data_shreds = data_shreds.len();
    let mut shreds = coding_shreds;
    shreds.extend(data_shreds.iter().cloned());
    // A deterministic shuffle, then keep as many shreds as there are data shreds.
    let n = shreds.len();
    for i in 0..n {
        let j = (i * 31 + seed as usize * 17) % n;
        shreds.swap(i, j);
    }
    shreds.truncate(num_data_shreds);
    shreds.sort_by_key(|shred| {
        if shred.is_data() {
            shred.index()
        } else {
            shred.index() + num_data_shreds as u32
        }
    });
    let exclude: Vec<u32> = shreds.iter().filter(|s| s.is_data()).map(|s| s.index()).collect();
    let recovered_shreds = Shredder::try_recovery(shreds, &reed_solomon_cache).unwrap();
    let expected: Vec<Vec<u8>> = data_shreds
        .iter()
        .filter(|shred| !exclude.contains(&shred.index()))
        .map(|s| s.payload().clone())
        .collect();
    assert_eq!(payloads(&recovered_shreds), expected);
}

#[test]
fn test_recovery_with_expanded_coding_shreds() {
    for num_kb in 0..50u64 {
        let num_bytes = 1 + (num_kb as usize) * 700;
        run_recovery_with_expanded_coding_shreds(num_bytes, false, num_kb);
        run_recovery_with_expanded_coding_shreds(num_bytes, true, num_kb);
    }
}

#[test]
fn recovery_of_empty_input_fails() {
    let cache = ReedSolomonCache::new();
    assert!(matches!(
        Shredder::try_recovery(Vec::new(), &cache),
        Err(ShredError::ErasureError(reed_solomon_erasure::Error::TooFewShardsPresent))
    ));
}

#[test]
fn recovery_rejects_out_of_range_position() {
    let keypair = Keypair::new();
    let shredder = Shredder::new(9, 8, 0, 0).unwrap();
    let cache = ReedSolomonCache::new();
    let data = payload_of(3 * capacity(false), 12);
    let (data_shreds, coding_shreds) = legacy_shreds(&shredder, &keypair, &data, false, 0, 0, &cache);
    // A data shred from far beyond this FEC set claims a position past its end.
    let (far, _) = legacy_shreds(&shredder, &keypair, &data, false, 1000, 0, &cache);
    let mut far_one = far[0].payload().clone();
    far_one[79..83].copy_from_slice(&0u32.to_le_bytes());
    let far_one = Shred::new_from_serialized_shred(far_one).unwrap();
    let input = vec![coding_shreds[0].clone(), data_shreds[0].clone(), far_one];
    assert!(matches!(
        Shredder::try_recovery(input, &cache),
        Err(ShredError::ErasureError(reed_solomon_erasure::Error::InvalidIndex))
    ));
}

#[test]
fn deshred_rejects_trailing_shreds() {
    let keypair = Keypair::new();
    let shredder = Shredder::new(9, 8, 0, 0).unwrap();
    let cache = ReedSolomonCache::new();
    let (first, _) = legacy_shreds(&shredder, &keypair, &payload_of(100, 13), false, 0, 0, &cache);
    let (second, _) = legacy_shreds(&shredder, &keypair, &payload_of(100, 14), false, 1, 0, &cache);
    let both = vec![first[0].payload().clone(), second[0].payload().clone()];
    assert!(matches!(Shredder::deshred(&both), Err(ShredError::InvalidDeshredSet)));
    // A shred with no completion flag.
    let (many, _) = legacy_shreds(&shredder, &keypair, &payload_of(3000, 15), false, 0, 0, &cache);
    let partial = vec![many[0].payload().clone()];
    assert!(matches!(
        Shredder::deshred(&partial),
        Err(ShredError::ErasureError(reed_solomon_erasure::Error::TooFewDataShards))
    ));
    // A payload too short to hold an index.
    assert!(matches!(
        Shredder::deshred(&[vec![0u8; 20]]),
        Err(ShredError::InvalidPayloadSize(20))
    ));
    // Nothing at all.
    assert!(Shredder::deshred(&[]).is_err());
}

#[test]
fn codec_cache_reports_bad_dimensions() {
    let cache = ReedSolomonCache::new();
    assert!(matches!(cache.get(0, 4), Err(reed_solomon_erasure::Error::TooFewDataShards)));
    assert!(matches!(cache.get(4, 0), Err(reed_solomon_erasure::Error::TooFewParityShards)));
    assert!(matches!(cache.get(200, 57), Err(reed_solomon_erasure::Error::TooManyShards)));
    assert!(cache.get(200, 56).is_ok());
    // Asking again gives the same outcome.
    assert!(cache.get(200, 56).is_ok());
    assert!(matches!(cache.get(0, 4), Err(reed_solomon_erasure::Error::TooFewDataShards)));
}

#[test]
fn oversized_fec_set_cannot_be_coded() {
    let keypair = Keypair::new();
    let shredder = Shredder::new(9, 8, 0, 0).unwrap();
    let cache = ReedSolomonCache::new();
    // 200 data shreds in one FEC set need 400 shards in all.
    let data = payload_of(200 * capacity(false), 16);
    let mut data_shreds = shredder.make_data_shreds(&keypair, &data, false, &None, 0).unwrap();
    let mut same_set: Vec<Shred> = Vec::new();
    for s in data_shreds.drain(..) {
        let mut p = s.payload().clone();
        p[79..83].copy_from_slice(&0u32.to_le_bytes());
        same_set.push(Shred::new_from_serialized_shred(p).unwrap());
    }
    assert!(matches!(
        Shredder::generate_coding_shreds(&same_set, 0, &cache),
        Err(ShredError::ErasureError(reed_solomon_erasure::Error::TooManyShards))
    ));
}
