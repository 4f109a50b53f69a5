use shredder::erasure::{
    get_erasure_batch_size, get_fec_set_offsets, CODING_SHREDS_PER_FEC_BLOCK,
    DATA_SHREDS_PER_FEC_BLOCK,
};

/// Most data shreds a slot may hold.
const MAX_DATA_SHREDS_PER_SLOT: usize = 32_768;
/// Most code shreds a slot may hold.
const MAX_CODE_SHREDS_PER_SLOT: usize = MAX_DATA_SHREDS_PER_SLOT;

/// Runs of equal offsets, as (offset, run length).
fn runs(offsets: &[usize]) -> Vec<(usize, usize)> {
    let mut out: Vec<(usize, usize)> = Vec::new();
    for &offset in offsets {
        match out.last_mut() {
            Some((o, n)) if *o == offset => *n += 1,
            _ => out.push((offset, 1)),
        }
    }
    out
}

#[test]
fn test_get_fec_set_offsets() {
    const MIN_CHUNK_SIZE: usize = 32usize;
    for num_shreds in 0usize..MIN_CHUNK_SIZE {
        let offsets = get_fec_set_offsets(num_shreds, MIN_CHUNK_SIZE);
        assert_eq!(offsets, vec![0usize; num_shreds]);
    }
    for num_shreds in MIN_CHUNK_SIZE..MIN_CHUNK_SIZE * 8 {
        let chunks = runs(&get_fec_set_offsets(num_shreds, MIN_CHUNK_SIZE));
        assert_eq!(
            chunks.iter().map(|(_offset, chunk_size)| chunk_size).sum::<usize>(),
            num_shreds
        );
        assert!(chunks.iter().all(|(_offset, chunk_size)| *chunk_size >= MIN_CHUNK_SIZE));
        assert!(chunks.iter().all(|(_offset, chunk_size)| *chunk_size < 2 * MIN_CHUNK_SIZE));
        assert_eq!(chunks[0].0, 0);
        assert!(chunks
            .windows(2)
            .all(|w| w[0].0 + w[0].1 == w[1].0));
    }
}

#[test]
fn test_max_shreds_per_slot() {
    for num_data_shreds in 32..128 {
        let num_coding_shreds = get_erasure_batch_size(num_data_shreds, /*is_last_in_slot:*/ false)
            .checked_sub(num_data_shreds)
            .unwrap();
        assert!(
            MAX_DATA_SHREDS_PER_SLOT * num_coding_shreds
                <= MAX_CODE_SHREDS_PER_SLOT * num_data_shreds
        );
    }
}

#[test]
fn planner_total_matches_input() {
    for min in [1usize, 2, 3, 7, 32, 50] {
        for n in 0usize..400 {
            let offsets = get_fec_set_offsets(n, min);
            assert_eq!(offsets.len(), n);
            let total: usize = runs(&offsets).iter().map(|(_, c)| c).sum();
            assert_eq!(total, n);
        }
    }
}

#[test]
fn planner_small_input_is_all_zeros() {
    assert_eq!(get_fec_set_offsets(5, 32), vec![0; 5]);
    assert!(get_fec_set_offsets(0, 32).is_empty());
}

#[test]
fn planner_exact_cuts() {
    // 100 shreds at 32 a set: three sets of 34, 33, 33.
    let offsets = get_fec_set_offsets(100, 32);
    assert_eq!(runs(&offsets), vec![(0, 34), (34, 33), (67, 33)]);
    // 63 shreds stay one oversized set.
    assert_eq!(runs(&get_fec_set_offsets(63, 32)), vec![(0, 63)]);
    // 64 shreds make two full sets.
    assert_eq!(runs(&get_fec_set_offsets(64, 32)), vec![(0, 32), (32, 32)]);
}

#[test]
fn batch_sizes_follow_table() {
    assert_eq!(get_erasure_batch_size(0, false), 0);
    assert_eq!(get_erasure_batch_size(1, false), 18);
    assert_eq!(get_erasure_batch_size(5, false), 25);
    assert_eq!(get_erasure_batch_size(32, false), 64);
    assert_eq!(get_erasure_batch_size(33, false), 66);
    assert_eq!(get_erasure_batch_size(5, true), 64);
    assert_eq!(get_erasure_batch_size(40, true), 80);
    assert_eq!(
        get_erasure_batch_size(DATA_SHREDS_PER_FEC_BLOCK, false) - DATA_SHREDS_PER_FEC_BLOCK,
        CODING_SHREDS_PER_FEC_BLOCK
    );
}
