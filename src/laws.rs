//! What holds of the shreds the shredder makes, across its functions.
use vstd::prelude::*;
use crate::erasure::DATA_SHREDS_PER_FEC_BLOCK;
use crate::layout::{data_result, flags_result};
use crate::shred::{
    data_capacity, data_of, fec_set_index_of, flags_byte, flags_of, index_of, is_data_complete,
    is_data_shred, is_last_in_slot, parent_offset_of, slot_of, version_of, DATA_COMPLETE_SHRED,
    LAST_SHRED_IN_SLOT, SHRED_TICK_REFERENCE_MASK, SIZE_OF_COMMON_SHRED_HEADER,
    code_payload_wf, erasure_shard_index_of, erasure_shard_of, is_data_variant, num_coding_of,
    num_data_of, payload_wf, position_of, variant_of, VARIANT_CODE,
};
use crate::coding::{codec_error, consistent_with, rs_parity};
use crate::erasure::erasure_batch_table;
use crate::shredder::{
    first_code, is_fec_group, laid_out, position_present,
    groups_codable, total_parity, chunk_of, coding_for_groups, completion_flags, deshred_fold, deshred_result, deshred_step,
    fec_groups, first_run_len, is_coding_for, keeps_recovered, num_data_shreds, num_parity_for,
    recovered_upto, DeshredState, Shredder, lemma_chunk_bounds, lemma_num_shreds_for,
    lemma_merkle_coding, lemma_shred_offsets, padded_count, shred_offset,
};
use crate::ShredError;

verus! {

proof fn lemma_flag_bits(completion: u8, reference_tick: u8)
    requires
        completion == 0 || completion == DATA_COMPLETE_SHRED || completion == LAST_SHRED_IN_SLOT,
    ensures
        (flags_byte(completion, reference_tick) & DATA_COMPLETE_SHRED == DATA_COMPLETE_SHRED) == (
        completion != 0),
        (flags_byte(completion, reference_tick) & LAST_SHRED_IN_SLOT == LAST_SHRED_IN_SLOT) == (
        completion == LAST_SHRED_IN_SLOT),
        flags_byte(completion, reference_tick) & SHRED_TICK_REFERENCE_MASK == if reference_tick
            < SHRED_TICK_REFERENCE_MASK {
            reference_tick
        } else {
            SHRED_TICK_REFERENCE_MASK
        },
{
    let t: u8 = if reference_tick < 63 { reference_tick } else { 63 };
    assert(t <= 63);
    assert(t <= 63 ==> ((0u8 | t) & 0x40u8) != 0x40u8 && ((0u8 | t) & 0xc0u8) != 0xc0u8 && ((0u8
        | t) & 0x3fu8) == t) by (bit_vector);
    assert(t <= 63 ==> ((0x40u8 | t) & 0x40u8) == 0x40u8 && ((0x40u8 | t) & 0xc0u8) != 0xc0u8 && ((
    0x40u8 | t) & 0x3fu8) == t) by (bit_vector);
    assert(t <= 63 ==> ((0xc0u8 | t) & 0x40u8) == 0x40u8 && ((0xc0u8 | t) & 0xc0u8) == 0xc0u8 && ((
    0xc0u8 | t) & 0x3fu8) == t) by (bit_vector);
}

/// The completion marker: of the data shreds of one call, only the last
/// completes the data, and it is marked last in its slot exactly when the
/// call says so; every data shred reports the reference tick, capped at
/// the tick mask.
pub proof fn lemma_completion_marker(
    shredder: Shredder,
    shreds: Seq<Seq<u8>>,
    data: Seq<u8>,
    is_last_in_slot_flag: bool,
    chained_root: Option<Seq<u8>>,
    next_shred_index: u32,
    merkle: bool,
)
    requires
        shredder.data_shreds_for(shreds, data, is_last_in_slot_flag, chained_root, next_shred_index, merkle),
    ensures
        forall|i: int|
            0 <= i < shreds.len() ==> {
                &&& is_data_complete(#[trigger] shreds[i]) == (i == shreds.len() - 1)
                &&& is_last_in_slot(shreds[i]) == (i == shreds.len() - 1 && is_last_in_slot_flag)
                &&& flags_of(shreds[i]) & SHRED_TICK_REFERENCE_MASK == if shredder.spec_reference_tick()
                    < SHRED_TICK_REFERENCE_MASK {
                    shredder.spec_reference_tick()
                } else {
                    SHRED_TICK_REFERENCE_MASK
                }
            },
{
    let k = shreds.len();
    assert forall|i: int| 0 <= i < shreds.len() implies {
        &&& is_data_complete(#[trigger] shreds[i]) == (i == shreds.len() - 1)
        &&& is_last_in_slot(shreds[i]) == (i == shreds.len() - 1 && is_last_in_slot_flag)
        &&& flags_of(shreds[i]) & SHRED_TICK_REFERENCE_MASK == if shredder.spec_reference_tick()
            < SHRED_TICK_REFERENCE_MASK {
            shredder.spec_reference_tick()
        } else {
            SHRED_TICK_REFERENCE_MASK
        }
    } by {
        lemma_flag_bits(completion_flags(i as nat, k, is_last_in_slot_flag), shredder.spec_reference_tick());
    }
}

/// Index continuity: the data shreds of one call have the indices
/// `next_shred_index ..next_shred_index + k`, each once, in order.
pub proof fn lemma_data_shred_indices(
    shredder: Shredder,
    shreds: Seq<Seq<u8>>,
    data: Seq<u8>,
    is_last_in_slot_flag: bool,
    chained_root: Option<Seq<u8>>,
    next_shred_index: u32,
    merkle: bool,
)
    requires
        shredder.data_shreds_for(shreds, data, is_last_in_slot_flag, chained_root, next_shred_index, merkle),
        next_shred_index + shreds.len() <= u32::MAX + 1,
    ensures
        forall|i: int| 0 <= i < shreds.len() ==> index_of(#[trigger] shreds[i]) == next_shred_index + i,
        forall|i: int, j: int|
            0 <= i < shreds.len() && 0 <= j < shreds.len() && i != j ==> index_of(#[trigger] shreds[i])
                != index_of(#[trigger] shreds[j]),
{
}

/// FEC-set contiguity: the first data shred starts a FEC set at
/// `next_shred_index`, and every other one either starts a FEC set (its
/// FEC set index is its own index) or stays in the FEC set of the shred
/// before it. With at least `DATA_SHREDS_PER_FEC_BLOCK` shreds, each FEC
/// set holds `DATA_SHREDS_PER_FEC_BLOCK ..2 * DATA_SHREDS_PER_FEC_BLOCK`
/// of them; with fewer, all share the first FEC set.
pub proof fn lemma_fec_set_contiguity(
    shredder: Shredder,
    shreds: Seq<Seq<u8>>,
    data: Seq<u8>,
    is_last_in_slot_flag: bool,
    chained_root: Option<Seq<u8>>,
    next_shred_index: u32,
    merkle: bool,
)
    requires
        shredder.data_shreds_for(shreds, data, is_last_in_slot_flag, chained_root, next_shred_index, merkle),
        next_shred_index + shreds.len() <= u32::MAX + 1,
    ensures
        shreds.len() > 0 ==> fec_set_index_of(shreds[0]) == next_shred_index,
        forall|i: int|
            0 <= i < shreds.len() ==> fec_set_index_of(#[trigger] shreds[i]) == index_of(shreds[i]) || (
            i > 0 && fec_set_index_of(shreds[i]) == fec_set_index_of(shreds[i - 1])),
        shreds.len() < DATA_SHREDS_PER_FEC_BLOCK ==> forall|i: int|
            0 <= i < shreds.len() ==> fec_set_index_of(#[trigger] shreds[i]) == next_shred_index,
        shreds.len() >= DATA_SHREDS_PER_FEC_BLOCK ==> {
            &&& forall|i: int|
                0 <= i < shreds.len() ==> index_of(#[trigger] shreds[i]) - fec_set_index_of(shreds[i])
                    < 2 * DATA_SHREDS_PER_FEC_BLOCK - 1
            &&& forall|i: int|
                0 < i < shreds.len() && fec_set_index_of(#[trigger] shreds[i]) == index_of(shreds[i])
                    ==> index_of(shreds[i]) - fec_set_index_of(shreds[i - 1]) >= DATA_SHREDS_PER_FEC_BLOCK
            &&& index_of(shreds.last()) + 1 - fec_set_index_of(shreds.last()) >= DATA_SHREDS_PER_FEC_BLOCK
        },
{
    let k = shreds.len();
    lemma_num_shreds_for(data.len(), data_capacity(chained_root is Some), merkle);
    lemma_shred_offsets(merkle, k);
    assert forall|i: int| 0 <= i < shreds.len() implies fec_set_index_of(#[trigger] shreds[i]) == index_of(
        shreds[i],
    ) || (i > 0 && fec_set_index_of(shreds[i]) == fec_set_index_of(shreds[i - 1])) by {
        assert(0 <= shred_offset(merkle, k, i) <= i);
        if i > 0 {
            assert(0 <= shred_offset(merkle, k, i - 1) <= i - 1);
            assert(fec_set_index_of(shreds[i - 1]) == (next_shred_index + shred_offset(merkle, k, i - 1)) as u32);
        }
    }
    if k > 0 {
        assert(0 <= shred_offset(merkle, k, 0) <= 0);
    }
    if k < DATA_SHREDS_PER_FEC_BLOCK {
        assert forall|i: int| 0 <= i < shreds.len() implies fec_set_index_of(#[trigger] shreds[i])
            == next_shred_index by {
            assert(shred_offset(merkle, k, i) == 0);
        }
    } else {
        assert forall|i: int| 0 <= i < shreds.len() implies index_of(#[trigger] shreds[i]) - fec_set_index_of(shreds[i])
            < 2 * DATA_SHREDS_PER_FEC_BLOCK - 1 by {
            assert(0 <= shred_offset(merkle, k, i) <= i);
        }
        assert forall|i: int|
            0 < i < shreds.len() && fec_set_index_of(#[trigger] shreds[i]) == index_of(shreds[i])
                implies index_of(shreds[i]) - fec_set_index_of(shreds[i - 1])
                >= DATA_SHREDS_PER_FEC_BLOCK by {
            assert(0 <= shred_offset(merkle, k, i) <= i);
            assert(0 <= shred_offset(merkle, k, i - 1) <= i - 1);
            assert(shred_offset(merkle, k, i) == i);
        }
        assert(0 <= shred_offset(merkle, k, k - 1) <= k - 1);
        assert(shreds.last() == shreds[k - 1]);
    }
}

/// Round trip: reassembling the data shreds made for non-empty `data`
/// gives back `data`.
pub proof fn lemma_round_trip(
    shredder: Shredder,
    shreds: Seq<Seq<u8>>,
    data: Seq<u8>,
    is_last_in_slot_flag: bool,
    chained_root: Option<Seq<u8>>,
    next_shred_index: u32,
    merkle: bool,
)
    requires
        shredder.data_shreds_for(shreds, data, is_last_in_slot_flag, chained_root, next_shred_index, merkle),
        next_shred_index + shreds.len() <= u32::MAX + 1,
        data.len() > 0,
    ensures
        deshred_result(shreds) == Ok::<Seq<u8>, ShredError>(data),
{
    let cap = data_capacity(chained_root is Some);
    let k = shreds.len();
    lemma_num_shreds_for(data.len(), cap, merkle);
    lemma_chunk_bounds(data.len(), cap, k);
    lemma_round_trip_prefix(shredder, shreds, data, is_last_in_slot_flag, chained_root, next_shred_index, merkle, k);
    assert(shreds.take(k as int) =~= shreds);
    assert(data.subrange(0, data.len() as int) =~= data);
}

proof fn lemma_round_trip_prefix(
    shredder: Shredder,
    shreds: Seq<Seq<u8>>,
    data: Seq<u8>,
    is_last_in_slot_flag: bool,
    chained_root: Option<Seq<u8>>,
    next_shred_index: u32,
    merkle: bool,
    i: nat,
)
    requires
        shredder.data_shreds_for(shreds, data, is_last_in_slot_flag, chained_root, next_shred_index, merkle),
        next_shred_index + shreds.len() <= u32::MAX + 1,
        i <= shreds.len(),
    ensures
        ({
            let cap = data_capacity(chained_root is Some);
            let end = if i * cap <= data.len() { i * cap } else { data.len() };
            deshred_fold(shreds.take(i as int)) == Ok::<DeshredState, ShredError>(
                (
                    data.subrange(0, end as int),
                    if i == 0 { None } else { Some((next_shred_index + i - 1) as u32) },
                    i > 0 && i == shreds.len(),
                ),
            )
        }),
    decreases i,
{
    let cap = data_capacity(chained_root is Some);
    let k = shreds.len();
    if i == 0 {
        assert(shreds.take(0) =~= Seq::<Seq<u8>>::empty());
        assert(data.subrange(0, 0) =~= Seq::<u8>::empty());
    } else {
        let j = (i - 1) as nat;
        lemma_round_trip_prefix(shredder, shreds, data, is_last_in_slot_flag, chained_root, next_shred_index, merkle, j);
        let p = shreds[j as int];
        assert(shreds.take(i as int).drop_last() =~= shreds.take(j as int));
        assert(shreds.take(i as int).last() == p);
        lemma_step_facts(shredder, shreds, data, is_last_in_slot_flag, chained_root, next_shred_index, merkle, j);
        lemma_chunk_concat(data, cap, j);
        let end_j = if j * cap <= data.len() { j * cap } else { data.len() };
        let end_i = if i * cap <= data.len() { i * cap } else { data.len() };
        let st: DeshredState = (
            data.subrange(0, end_j as int),
            if j == 0 { None } else { Some((next_shred_index + j - 1) as u32) },
            j > 0 && j == k,
        );
        assert(!st.2);
        assert(index_of(p) == (next_shred_index + j) as u32);
        if j > 0 {
            assert((next_shred_index + j - 1) as u32 != u32::MAX);
            assert(index_of(p) == ((next_shred_index + j - 1) as u32) + 1);
        }
        assert(deshred_step(st, p) == Ok::<DeshredState, ShredError>(
            (
                data.subrange(0, end_i as int),
                Some((next_shred_index + i - 1) as u32),
                i == k,
            ),
        ));
    }
}

proof fn lemma_chunk_concat(data: Seq<u8>, cap: nat, j: nat)
    requires
        cap > 0,
    ensures
        ({
            let end_j = if j * cap <= data.len() { j * cap } else { data.len() };
            let end_i = if (j + 1) * cap <= data.len() { (j + 1) * cap } else { data.len() };
            data.subrange(0, end_j as int) + chunk_of(data, cap, j) == data.subrange(0, end_i as int)
        }),
{
    assert((j + 1) * cap == j * cap + cap) by (nonlinear_arith);
    let end_j = if j * cap <= data.len() { j * cap } else { data.len() };
    let end_i = if (j + 1) * cap <= data.len() { (j + 1) * cap } else { data.len() };
    assert(data.subrange(0, end_j as int) + chunk_of(data, cap, j) =~= data.subrange(0, end_i as int));
}

/// What reassembly reads off data shred `j`.
proof fn lemma_step_facts(
    shredder: Shredder,
    shreds: Seq<Seq<u8>>,
    data: Seq<u8>,
    is_last_in_slot_flag: bool,
    chained_root: Option<Seq<u8>>,
    next_shred_index: u32,
    merkle: bool,
    j: nat,
)
    requires
        shredder.data_shreds_for(shreds, data, is_last_in_slot_flag, chained_root, next_shred_index, merkle),
        next_shred_index + shreds.len() <= u32::MAX + 1,
        j < shreds.len(),
    ensures
        shreds[j as int].len() >= SIZE_OF_COMMON_SHRED_HEADER,
        index_of(shreds[j as int]) == next_shred_index + j,
        data_result(shreds[j as int]) == Ok::<Seq<u8>, ShredError>(
            chunk_of(data, data_capacity(chained_root is Some), j),
        ),
        flags_result(shreds[j as int]) == Ok::<u8, ShredError>(flags_of(shreds[j as int])),
        (flags_of(shreds[j as int]) & DATA_COMPLETE_SHRED == DATA_COMPLETE_SHRED) == (j + 1
            == shreds.len()),
{
    let k = shreds.len();
    let p = shreds[j as int];
    lemma_flag_bits(completion_flags(j, k, is_last_in_slot_flag), shredder.spec_reference_tick());
    assert(is_data_shred(
        p,
        shredder.spec_slot(),
        (next_shred_index + j) as u32,
        (shredder.spec_slot() - shredder.spec_parent_slot()) as u16,
        chunk_of(data, data_capacity(chained_root is Some), j),
        flags_byte(completion_flags(j, k, is_last_in_slot_flag), shredder.spec_reference_tick()),
        shredder.spec_version(),
        (next_shred_index + shred_offset(merkle, k, j as int)) as u32,
        chained_root,
    ));
}

/// Recovery hands back only shreds rebuilt at positions that no input
/// shred held.
pub proof fn lemma_recovered_from_missing(
    shards: Seq<Option<Seq<u8>>>,
    present: Seq<bool>,
    slot: u64,
    num_data: nat,
    n: nat,
)
    requires
        n <= shards.len(),
        n <= present.len(),
    ensures
        forall|j: int|
            0 <= j < recovered_upto(shards, present, slot, num_data, n).len() ==> exists|pos: int|
                0 <= pos < n && !present[pos] && shards[pos] == Some(
                    #[trigger] recovered_upto(shards, present, slot, num_data, n)[j],
                ),
    decreases n,
{
    if n > 0 {
        let m = (n - 1) as nat;
        lemma_recovered_from_missing(shards, present, slot, num_data, m);
        let prev = recovered_upto(shards, present, slot, num_data, m);
        let cur = recovered_upto(shards, present, slot, num_data, n);
        assert forall|j: int| 0 <= j < cur.len() implies exists|pos: int|
            0 <= pos < n && !present[pos] && shards[pos] == Some(#[trigger] cur[j]) by {
            if j < prev.len() {
                assert(cur[j] == prev[j]);
                let pos = choose|pos: int| 0 <= pos < m && !present[pos] && shards[pos] == Some(prev[j]);
                assert(0 <= pos < n && !present[pos] && shards[pos] == Some(cur[j]));
            } else {
                assert(keeps_recovered(shards[m as int], present[m as int], slot, num_data));
                assert(cur[j] == shards[m as int]->0);
                assert(0 <= m < n && !present[m as int] && shards[m as int] == Some(cur[j]));
            }
        }
    }
}

proof fn lemma_first_run_len_bounds(data: Seq<Seq<u8>>)
    ensures
        data.len() > 0 ==> 1 <= first_run_len(data) <= data.len(),
    decreases data.len(),
{
    if data.len() > 1 {
        lemma_first_run_len_bounds(data.drop_first());
    }
}

/// Every FEC set that grouping cuts is non-empty and made of shreds of the
/// run.
proof fn lemma_fec_groups_members(data: Seq<Seq<u8>>)
    ensures
        forall|g: int|
            0 <= g < fec_groups(data).len() ==> (#[trigger] fec_groups(data)[g]).len() >= 1
                && forall|t: int|
                0 <= t < fec_groups(data)[g].len() ==> data.contains(
                    #[trigger] fec_groups(data)[g][t],
                ),
    decreases data.len(),
{
    if data.len() > 0 {
        lemma_first_run_len_bounds(data);
        let n = first_run_len(data);
        let rest = data.skip(n as int);
        lemma_fec_groups_members(rest);
        let groups = fec_groups(data);
        assert(groups =~= seq![data.take(n as int)] + fec_groups(rest));
        assert forall|g: int| 0 <= g < groups.len() implies (#[trigger] groups[g]).len() >= 1
            && forall|t: int| 0 <= t < groups[g].len() ==> data.contains(#[trigger] groups[g][t]) by {
            if g == 0 {
                assert forall|t: int| 0 <= t < groups[g].len() implies data.contains(
                    #[trigger] groups[g][t],
                ) by {
                    assert(groups[g][t] == data[t]);
                }
            } else {
                assert(groups[g] == fec_groups(rest)[g - 1]);
                assert forall|t: int| 0 <= t < groups[g].len() implies data.contains(
                    #[trigger] groups[g][t],
                ) by {
                    let x = groups[g][t];
                    assert(rest.contains(x));
                    let k = choose|k: int| 0 <= k < rest.len() && rest[k] == x;
                    assert(data[n + k] == x);
                }
            }
        }
    }
}

/// Code shreds carry the version of the FEC set they code.
proof fn lemma_code_shred_versions(
    code: Seq<Seq<u8>>,
    groups: Seq<Seq<Seq<u8>>>,
    next_code_index: nat,
    version: u16,
    slot: u64,
)
    requires
        coding_for_groups(code, groups, next_code_index),
        forall|g: int|
            0 <= g < groups.len() ==> (#[trigger] groups[g]).len() >= 1 && version_of(groups[g][0])
                == version && slot_of(groups[g][0]) == slot,
    ensures
        forall|j: int| 0 <= j < code.len() ==> version_of(#[trigger] code[j]) == version && slot_of(code[j]) == slot,
    decreases groups.len(),
{
    if groups.len() > 0 {
        let p = num_parity_for(groups[0]);
        let rest = groups.drop_first();
        assert forall|g: int| 0 <= g < rest.len() implies (#[trigger] rest[g]).len() >= 1
            && version_of(rest[g][0]) == version && slot_of(rest[g][0]) == slot by {
            assert(rest[g] == groups[g + 1]);
        }
        lemma_code_shred_versions(code.skip(p as int), rest, next_code_index + p, version, slot);
        assert(is_coding_for(code.take(p as int), groups[0], next_code_index));
        assert forall|j: int| 0 <= j < code.len() implies version_of(#[trigger] code[j]) == version
            && slot_of(code[j]) == slot by {
            if j < p {
                assert(code[j] == code.take(p as int)[j]);
            } else {
                assert(code[j] == code.skip(p as int)[j - p]);
            }
        }
    }
}

/// Every shred made for a slot carries the shredder's slot and version;
/// data shreds also carry the distance to the parent slot.
pub proof fn lemma_versions_and_parent_offset(
    shredder: Shredder,
    data_shreds: Seq<Seq<u8>>,
    code_shreds: Seq<Seq<u8>>,
    data: Seq<u8>,
    is_last_in_slot_flag: bool,
    chained_root: Option<Seq<u8>>,
    next_shred_index: u32,
    next_code_index: nat,
    merkle: bool,
)
    requires
        shredder.data_shreds_for(data_shreds, data, is_last_in_slot_flag, chained_root, next_shred_index, merkle),
        coding_for_groups(code_shreds, fec_groups(data_shreds), next_code_index),
    ensures
        forall|i: int|
            0 <= i < data_shreds.len() ==> version_of(#[trigger] data_shreds[i]) == shredder.spec_version()
                && slot_of(data_shreds[i]) == shredder.spec_slot() && parent_offset_of(data_shreds[i])
                == (shredder.spec_slot() - shredder.spec_parent_slot()) as u16,
        forall|j: int|
            0 <= j < code_shreds.len() ==> version_of(#[trigger] code_shreds[j]) == shredder.spec_version()
                && slot_of(code_shreds[j]) == shredder.spec_slot(),
{
    let groups = fec_groups(data_shreds);
    lemma_fec_groups_members(data_shreds);
    assert forall|g: int| 0 <= g < groups.len() implies (#[trigger] groups[g]).len() >= 1
        && version_of(groups[g][0]) == shredder.spec_version() && slot_of(groups[g][0])
        == shredder.spec_slot() by {
        let x = groups[g][0];
        assert(data_shreds.contains(x));
        let k = choose|k: int| 0 <= k < data_shreds.len() && data_shreds[k] == x;
        assert(version_of(data_shreds[k]) == shredder.spec_version());
    }
    lemma_code_shred_versions(
        code_shreds,
        groups,
        next_code_index,
        shredder.spec_version(),
        shredder.spec_slot(),
    );
}

proof fn lemma_batch_table(n: nat)
    requires
        1 <= n <= 32,
    ensures
        n < erasure_batch_table(n) <= 64,
{
    if n == 1 {
        assert(erasure_batch_table(n) == 18);
    } else if n == 2 {
        assert(erasure_batch_table(n) == 20);
    } else if n == 3 {
        assert(erasure_batch_table(n) == 22);
    } else if n == 4 {
        assert(erasure_batch_table(n) == 23);
    } else if n == 5 {
        assert(erasure_batch_table(n) == 25);
    } else if n == 6 {
        assert(erasure_batch_table(n) == 27);
    } else if n == 7 {
        assert(erasure_batch_table(n) == 28);
    } else if n == 8 {
        assert(erasure_batch_table(n) == 30);
    } else if n == 9 {
        assert(erasure_batch_table(n) == 32);
    } else if n == 10 {
        assert(erasure_batch_table(n) == 33);
    } else if n == 11 {
        assert(erasure_batch_table(n) == 35);
    } else if n == 12 {
        assert(erasure_batch_table(n) == 36);
    } else if n == 13 {
        assert(erasure_batch_table(n) == 38);
    } else if n == 14 {
        assert(erasure_batch_table(n) == 39);
    } else if n == 15 {
        assert(erasure_batch_table(n) == 41);
    } else if n == 16 {
        assert(erasure_batch_table(n) == 42);
    } else if n == 17 {
        assert(erasure_batch_table(n) == 43);
    } else if n == 18 {
        assert(erasure_batch_table(n) == 45);
    } else if n == 19 {
        assert(erasure_batch_table(n) == 46);
    } else if n == 20 {
        assert(erasure_batch_table(n) == 48);
    } else if n == 21 {
        assert(erasure_batch_table(n) == 49);
    } else if n == 22 {
        assert(erasure_batch_table(n) == 51);
    } else if n == 23 {
        assert(erasure_batch_table(n) == 52);
    } else if n == 24 {
        assert(erasure_batch_table(n) == 53);
    } else if n == 25 {
        assert(erasure_batch_table(n) == 55);
    } else if n == 26 {
        assert(erasure_batch_table(n) == 56);
    } else if n == 27 {
        assert(erasure_batch_table(n) == 58);
    } else if n == 28 {
        assert(erasure_batch_table(n) == 59);
    } else if n == 29 {
        assert(erasure_batch_table(n) == 60);
    } else if n == 30 {
        assert(erasure_batch_table(n) == 62);
    } else if n == 31 {
        assert(erasure_batch_table(n) == 63);
    } else if n == 32 {
        assert(erasure_batch_table(n) == 64);
    }
}

/// A FEC set of one to `2 * DATA_SHREDS_PER_FEC_BLOCK` data shreds gets at
/// least one code shred, and at most 256 shards in all.
proof fn lemma_small_group_codable(group: Seq<Seq<u8>>)
    requires
        1 <= group.len() <= 2 * DATA_SHREDS_PER_FEC_BLOCK,
    ensures
        codec_error(group.len(), num_parity_for(group)) is None,
{
    let n = group.len();
    if n <= 32 {
        lemma_batch_table(n);
    }
}

proof fn lemma_first_run(data: Seq<Seq<u8>>)
    requires
        data.len() > 0,
    ensures
        1 <= first_run_len(data) <= data.len(),
        forall|t: int| 0 <= t < first_run_len(data) ==> fec_set_index_of(#[trigger] data[t]) == fec_set_index_of(data[0]),
        first_run_len(data) < data.len() ==> fec_set_index_of(data[first_run_len(data) as int]) != fec_set_index_of(data[0]),
    decreases data.len(),
{
    if data.len() > 1 && fec_set_index_of(data[1]) == fec_set_index_of(data[0]) {
        let t = data.drop_first();
        lemma_first_run(t);
        assert forall|u: int| 0 <= u < first_run_len(data) implies fec_set_index_of(#[trigger] data[u])
            == fec_set_index_of(data[0]) by {
            if u > 0 {
                assert(data[u] == t[u - 1]);
            }
        }
        if first_run_len(data) < data.len() {
            assert(data[first_run_len(data) as int] == t[first_run_len(t) as int]);
        }
    }
}

/// In a run of data shreds with consecutive indices from `base`, where each
/// shred either starts a FEC set or continues the previous one and sits
/// less than `bound` past its set's start, every FEC set has at most
/// `bound` shreds.
proof fn lemma_groups_bounded(data: Seq<Seq<u8>>, base: int, bound: nat)
    requires
        forall|t: int| 0 <= t < data.len() ==> index_of(#[trigger] data[t]) == base + t,
        forall|t: int|
            0 <= t < data.len() ==> fec_set_index_of(#[trigger] data[t]) <= index_of(data[t])
                && index_of(data[t]) - fec_set_index_of(data[t]) < bound,
        forall|t: int|
            0 <= t < data.len() && (t == 0 || fec_set_index_of(#[trigger] data[t]) != fec_set_index_of(data[t - 1]))
                ==> fec_set_index_of(data[t]) == index_of(data[t]),
    ensures
        forall|g: int|
            0 <= g < fec_groups(data).len() ==> 1 <= (#[trigger] fec_groups(data)[g]).len() <= bound,
    decreases data.len(),
{
    if data.len() > 0 {
        lemma_first_run(data);
        let n = first_run_len(data);
        let rest = data.skip(n as int);
        assert(fec_set_index_of(data[0]) == index_of(data[0]));
        assert(index_of(data[n - 1]) - fec_set_index_of(data[n - 1]) < bound);
        assert forall|t: int| 0 <= t < rest.len() implies index_of(#[trigger] rest[t]) == (base + n) + t by {
            assert(rest[t] == data[n + t]);
        }
        assert forall|t: int| 0 <= t < rest.len() implies fec_set_index_of(#[trigger] rest[t]) <= index_of(rest[t])
            && index_of(rest[t]) - fec_set_index_of(rest[t]) < bound by {
            assert(rest[t] == data[n + t]);
        }
        assert forall|t: int|
            0 <= t < rest.len() && (t == 0 || fec_set_index_of(#[trigger] rest[t]) != fec_set_index_of(rest[t - 1]))
                implies fec_set_index_of(rest[t]) == index_of(rest[t]) by {
            assert(rest[t] == data[n + t]);
            if t > 0 {
                assert(rest[t - 1] == data[n + t - 1]);
            } else {
                assert(data[n - 1 + 1] == data[n as int]);
                assert(fec_set_index_of(data[n - 1]) == fec_set_index_of(data[0]));
            }
        }
        lemma_groups_bounded(rest, base + n, bound);
        let groups = fec_groups(data);
        assert(groups =~= seq![data.take(n as int)] + fec_groups(rest));
        assert forall|g: int| 0 <= g < groups.len() implies 1 <= (#[trigger] groups[g]).len() <= bound by {
            if g > 0 {
                assert(groups[g] == fec_groups(rest)[g - 1]);
            }
        }
    }
}

proof fn lemma_fec_set_bounds(
    shredder: Shredder,
    shreds: Seq<Seq<u8>>,
    data: Seq<u8>,
    is_last_in_slot_flag: bool,
    chained_root: Option<Seq<u8>>,
    next_shred_index: u32,
    merkle: bool,
)
    requires
        shredder.data_shreds_for(shreds, data, is_last_in_slot_flag, chained_root, next_shred_index, merkle),
        next_shred_index + shreds.len() <= u32::MAX + 1,
    ensures
        forall|t: int| 0 <= t < shreds.len() ==> index_of(#[trigger] shreds[t]) == next_shred_index + t,
        forall|t: int|
            0 <= t < shreds.len() ==> fec_set_index_of(#[trigger] shreds[t]) <= index_of(shreds[t])
                && index_of(shreds[t]) - fec_set_index_of(shreds[t]) < 2 * DATA_SHREDS_PER_FEC_BLOCK,
        forall|t: int|
            0 <= t < shreds.len() && (t == 0 || fec_set_index_of(#[trigger] shreds[t]) != fec_set_index_of(shreds[t - 1]))
                ==> fec_set_index_of(shreds[t]) == index_of(shreds[t]),
{
    let k = shreds.len();
    lemma_num_shreds_for(data.len(), data_capacity(chained_root is Some), merkle);
    lemma_shred_offsets(merkle, k);
    assert forall|t: int| 0 <= t < shreds.len() implies fec_set_index_of(#[trigger] shreds[t]) <= index_of(shreds[t])
        && index_of(shreds[t]) - fec_set_index_of(shreds[t]) < 2 * DATA_SHREDS_PER_FEC_BLOCK by {
        assert(0 <= shred_offset(merkle, k, t) <= t);
        if k < DATA_SHREDS_PER_FEC_BLOCK {
            assert(shred_offset(merkle, k, t) == 0);
        }
    }
    lemma_fec_set_contiguity(shredder, shreds, data, is_last_in_slot_flag, chained_root, next_shred_index, merkle);
}

/// The FEC sets of the data shreds the data shredder makes can all be
/// coded.
pub proof fn lemma_data_shred_groups_codable(
    shredder: Shredder,
    shreds: Seq<Seq<u8>>,
    data: Seq<u8>,
    is_last_in_slot_flag: bool,
    chained_root: Option<Seq<u8>>,
    next_shred_index: u32,
    merkle: bool,
)
    requires
        shredder.data_shreds_for(shreds, data, is_last_in_slot_flag, chained_root, next_shred_index, merkle),
        next_shred_index + shreds.len() <= u32::MAX + 1,
    ensures
        groups_codable(fec_groups(shreds)),
{
    lemma_fec_set_bounds(shredder, shreds, data, is_last_in_slot_flag, chained_root, next_shred_index, merkle);
    lemma_groups_bounded(shreds, next_shred_index as int, 2 * DATA_SHREDS_PER_FEC_BLOCK as nat);
    let groups = fec_groups(shreds);
    assert forall|g: int| 0 <= g < groups.len() implies codec_error(
        (#[trigger] groups[g]).len(),
        num_parity_for(groups[g]),
    ) is None by {
        lemma_small_group_codable(groups[g]);
    }
}

proof fn lemma_same_first_run(a: Seq<Seq<u8>>, b: Seq<Seq<u8>>)
    requires
        a.len() == b.len(),
        forall|i: int| 0 <= i < a.len() ==> fec_set_index_of(#[trigger] a[i]) == fec_set_index_of(b[i]),
    ensures
        first_run_len(a) == first_run_len(b),
    decreases a.len(),
{
    if a.len() > 1 {
        assert(fec_set_index_of(a[1]) == fec_set_index_of(b[1]));
        assert(fec_set_index_of(a[0]) == fec_set_index_of(b[0]));
        let (ta, tb) = (a.drop_first(), b.drop_first());
        assert forall|i: int| 0 <= i < ta.len() implies fec_set_index_of(#[trigger] ta[i]) == fec_set_index_of(tb[i]) by {
            assert(ta[i] == a[i + 1] && tb[i] == b[i + 1]);
        }
        lemma_same_first_run(ta, tb);
    }
}

/// Runs of data shreds that agree on FEC set indices and on the last-in-slot
/// mark need the same number of code shreds.
proof fn lemma_same_total_parity(a: Seq<Seq<u8>>, b: Seq<Seq<u8>>)
    requires
        a.len() == b.len(),
        forall|i: int|
            0 <= i < a.len() ==> fec_set_index_of(#[trigger] a[i]) == fec_set_index_of(b[i])
                && is_last_in_slot(a[i]) == is_last_in_slot(b[i]),
    ensures
        total_parity(fec_groups(a)) == total_parity(fec_groups(b)),
    decreases a.len(),
{
    if a.len() > 0 {
        lemma_same_first_run(a, b);
        lemma_first_run(a);
        let n = first_run_len(a);
        let (ra, rb) = (a.skip(n as int), b.skip(n as int));
        assert forall|i: int|
            0 <= i < ra.len() implies fec_set_index_of(#[trigger] ra[i]) == fec_set_index_of(rb[i])
                && is_last_in_slot(ra[i]) == is_last_in_slot(rb[i]) by {
            assert(ra[i] == a[n + i] && rb[i] == b[n + i]);
        }
        lemma_same_total_parity(ra, rb);
        let (ga, gb) = (fec_groups(a), fec_groups(b));
        assert(ga =~= seq![a.take(n as int)] + fec_groups(ra));
        assert(gb =~= seq![b.take(n as int)] + fec_groups(rb));
        assert(a.take(n as int).last() == a[n - 1]);
        assert(b.take(n as int).last() == b[n - 1]);
        assert(num_parity_for(ga[0]) == num_parity_for(gb[0]));
        assert(ga.drop_first() =~= fec_groups(ra));
        assert(gb.drop_first() =~= fec_groups(rb));
    }
}

/// Every run of data shreds the data shredder may make for the same input
/// needs the same number of code shreds: signatures aside, they are the
/// same shreds.
pub proof fn lemma_data_shreds_total_parity(
    shredder: Shredder,
    a: Seq<Seq<u8>>,
    b: Seq<Seq<u8>>,
    data: Seq<u8>,
    is_last_in_slot_flag: bool,
    root_a: Option<Seq<u8>>,
    root_b: Option<Seq<u8>>,
    next_shred_index: u32,
    merkle: bool,
)
    requires
        shredder.data_shreds_for(a, data, is_last_in_slot_flag, root_a, next_shred_index, merkle),
        shredder.data_shreds_for(b, data, is_last_in_slot_flag, root_b, next_shred_index, merkle),
        root_a is Some <==> root_b is Some,
    ensures
        total_parity(fec_groups(a)) == total_parity(fec_groups(b)),
{
    let k = a.len();
    assert forall|i: int|
        0 <= i < a.len() implies fec_set_index_of(#[trigger] a[i]) == fec_set_index_of(b[i])
            && is_last_in_slot(a[i]) == is_last_in_slot(b[i]) by {
        assert(flags_of(a[i]) == flags_of(b[i]));
    }
    lemma_same_total_parity(a, b);
}

/// Merkle batches: the data shreds come in FEC sets of exactly 32, each
/// coded by 32 code shreds, so there are as many code shreds as data
/// shreds; the `j`th code shred belongs to the FEC set of the `j`th data
/// shred, and carries the shredder's slot and version.
pub proof fn lemma_merkle_batches(
    shredder: Shredder,
    data_shreds: Seq<Seq<u8>>,
    code_shreds: Seq<Seq<u8>>,
    data: Seq<u8>,
    is_last_in_slot_flag: bool,
    chained_root: Option<Seq<u8>>,
    next_shred_index: u32,
    next_code_index: nat,
)
    requires
        shredder.data_shreds_for(data_shreds, data, is_last_in_slot_flag, chained_root, next_shred_index, true),
        next_shred_index + data_shreds.len() <= u32::MAX + 1,
        coding_for_groups(code_shreds, fec_groups(data_shreds), next_code_index),
    ensures
        data_shreds.len() % 32 == 0,
        code_shreds.len() == data_shreds.len(),
        forall|i: int|
            0 <= i < data_shreds.len() ==> fec_set_index_of(#[trigger] data_shreds[i]) == next_shred_index
                + (i / 32) * 32,
        forall|j: int|
            0 <= j < code_shreds.len() ==> fec_set_index_of(#[trigger] code_shreds[j]) == fec_set_index_of(
                data_shreds[j],
            ) && slot_of(code_shreds[j]) == shredder.spec_slot() && version_of(code_shreds[j])
                == shredder.spec_version(),
{
    let k = data_shreds.len();
    lemma_num_shreds_for(data.len(), data_capacity(chained_root is Some), true);
    lemma_shred_offsets(true, k);
    assert forall|t: int| 0 <= t < k implies fec_set_index_of(#[trigger] data_shreds[t])
        == next_shred_index + (t / 32) * 32 by {
        assert(0 <= shred_offset(true, k, t) <= t);
    }
    lemma_merkle_coding(data_shreds, code_shreds, next_shred_index as int, next_code_index);
    assert forall|j: int| 0 <= j < code_shreds.len() implies fec_set_index_of(#[trigger] code_shreds[j])
        == fec_set_index_of(data_shreds[j]) && slot_of(code_shreds[j]) == shredder.spec_slot()
        && version_of(code_shreds[j]) == shredder.spec_version() by {
        assert(0 <= (j / 32) * 32 <= j) by (nonlinear_arith)
            requires
                j >= 0,
        ;
    }
}

/// How many of `shreds` carry FEC set index `f`.
pub open spec fn count_in_fec_set(shreds: Seq<Seq<u8>>, f: u32) -> nat
    decreases shreds.len(),
{
    if shreds.len() == 0 {
        0
    } else {
        (if fec_set_index_of(shreds.last()) == f { 1nat } else { 0nat }) + count_in_fec_set(
            shreds.drop_last(),
            f,
        )
    }
}

/// Code shreds owed to the FEC sets among `groups` whose index is `f`.
pub open spec fn parity_in_fec_set(groups: Seq<Seq<Seq<u8>>>, f: u32) -> nat
    decreases groups.len(),
{
    if groups.len() == 0 {
        0
    } else {
        (if fec_set_index_of(groups[0][0]) == f { num_parity_for(groups[0]) } else { 0 })
            + parity_in_fec_set(groups.drop_first(), f)
    }
}

proof fn lemma_count_append(a: Seq<Seq<u8>>, b: Seq<Seq<u8>>, f: u32)
    ensures
        count_in_fec_set(a + b, f) == count_in_fec_set(a, f) + count_in_fec_set(b, f),
    decreases b.len(),
{
    if b.len() == 0 {
        assert(a + b =~= a);
    } else {
        assert((a + b).drop_last() =~= a + b.drop_last());
        assert((a + b).last() == b.last());
        lemma_count_append(a, b.drop_last(), f);
    }
}

proof fn lemma_count_uniform(a: Seq<Seq<u8>>, g: u32, f: u32)
    requires
        forall|i: int| 0 <= i < a.len() ==> fec_set_index_of(#[trigger] a[i]) == g,
    ensures
        count_in_fec_set(a, f) == if g == f { a.len() } else { 0 },
    decreases a.len(),
{
    if a.len() > 0 {
        let b = a.drop_last();
        assert forall|i: int| 0 <= i < b.len() implies fec_set_index_of(#[trigger] b[i]) == g by {
            assert(b[i] == a[i]);
        }
        lemma_count_uniform(b, g, f);
        assert(a.last() == a[a.len() - 1]);
    }
}

/// However the FEC sets fall, the code shreds made for them that carry a
/// FEC set index are exactly the code shreds owed to the sets with that
/// index.
pub proof fn lemma_code_count_per_fec_set(
    code: Seq<Seq<u8>>,
    groups: Seq<Seq<Seq<u8>>>,
    next_code_index: nat,
    f: u32,
)
    requires
        coding_for_groups(code, groups, next_code_index),
        forall|g: int| 0 <= g < groups.len() ==> (#[trigger] groups[g]).len() >= 1,
    ensures
        count_in_fec_set(code, f) == parity_in_fec_set(groups, f),
    decreases groups.len(),
{
    if groups.len() == 0 {
        assert(code.len() == 0);
    } else {
        let p = num_parity_for(groups[0]);
        let (head, tail) = (code.take(p as int), code.skip(p as int));
        let rest = groups.drop_first();
        assert forall|g: int| 0 <= g < rest.len() implies (#[trigger] rest[g]).len() >= 1 by {
            assert(rest[g] == groups[g + 1]);
        }
        lemma_code_count_per_fec_set(tail, rest, next_code_index + p, f);
        assert(is_coding_for(head, groups[0], next_code_index));
        assert forall|i: int| 0 <= i < head.len() implies fec_set_index_of(#[trigger] head[i])
            == fec_set_index_of(groups[0][0]) by {}
        lemma_count_uniform(head, fec_set_index_of(groups[0][0]), f);
        assert(code =~= head + tail);
        lemma_count_append(head, tail, f);
    }
}

proof fn lemma_parity_absent(groups: Seq<Seq<Seq<u8>>>, f: u32)
    requires
        forall|g: int| 0 <= g < groups.len() ==> fec_set_index_of((#[trigger] groups[g])[0]) != f,
    ensures
        parity_in_fec_set(groups, f) == 0,
    decreases groups.len(),
{
    if groups.len() > 0 {
        let rest = groups.drop_first();
        assert forall|g: int| 0 <= g < rest.len() implies fec_set_index_of((#[trigger] rest[g])[0]) != f by {
            assert(rest[g] == groups[g + 1]);
        }
        lemma_parity_absent(rest, f);
    }
}

proof fn lemma_parity_unique(groups: Seq<Seq<Seq<u8>>>, g: int)
    requires
        0 <= g < groups.len(),
        forall|a: int, b: int|
            0 <= a < b < groups.len() ==> fec_set_index_of((#[trigger] groups[a])[0]) < fec_set_index_of(
                (#[trigger] groups[b])[0],
            ),
    ensures
        parity_in_fec_set(groups, fec_set_index_of(groups[g][0])) == num_parity_for(groups[g]),
    decreases groups.len(),
{
    let f = fec_set_index_of(groups[g][0]);
    let rest = groups.drop_first();
    assert forall|a: int, b: int|
        0 <= a < b < rest.len() implies fec_set_index_of((#[trigger] rest[a])[0]) < fec_set_index_of(
            (#[trigger] rest[b])[0],
        ) by {
        assert(rest[a] == groups[a + 1] && rest[b] == groups[b + 1]);
    }
    if g == 0 {
        assert forall|h: int| 0 <= h < rest.len() implies fec_set_index_of((#[trigger] rest[h])[0]) != f by {
            assert(rest[h] == groups[h + 1]);
        }
        lemma_parity_absent(rest, f);
    } else {
        assert(rest[g - 1] == groups[g]);
        lemma_parity_unique(rest, g - 1);
    }
}

/// The FEC sets of a run of data shreds with consecutive indices from
/// `base`, each starting where its index is its FEC set index, have
/// strictly increasing FEC set indices, none below `base`.
proof fn lemma_groups_increasing(data: Seq<Seq<u8>>, base: int)
    requires
        forall|t: int| 0 <= t < data.len() ==> index_of(#[trigger] data[t]) == base + t,
        forall|t: int|
            0 <= t < data.len() && (t == 0 || fec_set_index_of(#[trigger] data[t]) != fec_set_index_of(data[t - 1]))
                ==> fec_set_index_of(data[t]) == index_of(data[t]),
    ensures
        forall|g: int|
            0 <= g < fec_groups(data).len() ==> (#[trigger] fec_groups(data)[g]).len() >= 1
                && fec_set_index_of(fec_groups(data)[g][0]) >= base,
        forall|a: int, b: int|
            0 <= a < b < fec_groups(data).len() ==> fec_set_index_of((#[trigger] fec_groups(data)[a])[0])
                < fec_set_index_of((#[trigger] fec_groups(data)[b])[0]),
    decreases data.len(),
{
    if data.len() > 0 {
        lemma_first_run(data);
        let n = first_run_len(data);
        let rest = data.skip(n as int);
        assert(fec_set_index_of(data[0]) == index_of(data[0]));
        assert forall|t: int| 0 <= t < rest.len() implies index_of(#[trigger] rest[t]) == (base + n) + t by {
            assert(rest[t] == data[n + t]);
        }
        assert forall|t: int|
            0 <= t < rest.len() && (t == 0 || fec_set_index_of(#[trigger] rest[t]) != fec_set_index_of(rest[t - 1]))
                implies fec_set_index_of(rest[t]) == index_of(rest[t]) by {
            assert(rest[t] == data[n + t]);
            if t > 0 {
                assert(rest[t - 1] == data[n + t - 1]);
            } else {
                assert(data[n - 1 + 1] == data[n as int]);
                assert(fec_set_index_of(data[n - 1]) == fec_set_index_of(data[0]));
            }
        }
        lemma_groups_increasing(rest, base + n);
        let groups = fec_groups(data);
        assert(groups =~= seq![data.take(n as int)] + fec_groups(rest));
        assert(groups[0][0] == data[0]);
        assert forall|g: int| 0 <= g < groups.len() implies (#[trigger] groups[g]).len() >= 1
            && fec_set_index_of(groups[g][0]) >= base by {
            if g > 0 {
                assert(groups[g] == fec_groups(rest)[g - 1]);
            }
        }
        assert forall|a: int, b: int| 0 <= a < b < groups.len() implies fec_set_index_of(
            (#[trigger] groups[a])[0],
        ) < fec_set_index_of((#[trigger] groups[b])[0]) by {
            assert(groups[b] == fec_groups(rest)[b - 1]);
            if a > 0 {
                assert(groups[a] == fec_groups(rest)[a - 1]);
            }
        }
    }
}

/// Code-shred pairing: of the code shreds made for the data shreds the
/// data shredder makes, exactly `batch_size(n, t) - n` carry the FEC set
/// index of each FEC set of `n` data shreds whose last one has the
/// last-in-slot mark `t`.
pub proof fn lemma_code_shreds_per_fec_set(
    shredder: Shredder,
    data_shreds: Seq<Seq<u8>>,
    code_shreds: Seq<Seq<u8>>,
    data: Seq<u8>,
    is_last_in_slot_flag: bool,
    chained_root: Option<Seq<u8>>,
    next_shred_index: u32,
    next_code_index: nat,
    merkle: bool,
)
    requires
        shredder.data_shreds_for(data_shreds, data, is_last_in_slot_flag, chained_root, next_shred_index, merkle),
        next_shred_index + data_shreds.len() <= u32::MAX + 1,
        coding_for_groups(code_shreds, fec_groups(data_shreds), next_code_index),
    ensures
        forall|g: int|
            0 <= g < fec_groups(data_shreds).len() ==> count_in_fec_set(
                code_shreds,
                fec_set_index_of((#[trigger] fec_groups(data_shreds)[g])[0]),
            ) == num_parity_for(fec_groups(data_shreds)[g]),
{
    lemma_fec_set_contiguity(shredder, data_shreds, data, is_last_in_slot_flag, chained_root, next_shred_index, merkle);
    lemma_data_shred_indices(shredder, data_shreds, data, is_last_in_slot_flag, chained_root, next_shred_index, merkle);
    lemma_groups_increasing(data_shreds, next_shred_index as int);
    let groups = fec_groups(data_shreds);
    assert forall|g: int| 0 <= g < groups.len() implies count_in_fec_set(
        code_shreds,
        fec_set_index_of((#[trigger] groups[g])[0]),
    ) == num_parity_for(groups[g]) by {
        lemma_code_count_per_fec_set(code_shreds, groups, next_code_index, fec_set_index_of(groups[g][0]));
        lemma_parity_unique(groups, g);
    }
}

/// A block of data that fits one Merkle batch (1 to 32 shreds' worth)
/// makes exactly 32 data shreds, indexed `next_shred_index` onwards, all in
/// the FEC set starting at `next_shred_index`.
pub proof fn lemma_single_merkle_batch(
    shredder: Shredder,
    shreds: Seq<Seq<u8>>,
    data: Seq<u8>,
    is_last_in_slot_flag: bool,
    chained_root: Option<Seq<u8>>,
    next_shred_index: u32,
)
    requires
        shredder.data_shreds_for(shreds, data, is_last_in_slot_flag, chained_root, next_shred_index, true),
        next_shred_index + shreds.len() <= u32::MAX + 1,
        0 < data.len() <= 32 * data_capacity(chained_root is Some),
    ensures
        shreds.len() == DATA_SHREDS_PER_FEC_BLOCK,
        forall|i: int|
            0 <= i < shreds.len() ==> index_of(#[trigger] shreds[i]) == next_shred_index + i
                && fec_set_index_of(shreds[i]) == next_shred_index,
{
    let cap = data_capacity(chained_root is Some);
    let len = data.len();
    let k = num_data_shreds(len, cap);
    assert(1 <= k <= 32) by (nonlinear_arith)
        requires
            k == (if len % cap == 0 { len / cap } else { len / cap + 1 }),
            0 < len <= 32 * cap,
            cap > 0,
    ;
    assert(padded_count(k) == 32) by (nonlinear_arith)
        requires
            1 <= k <= 32,
            padded_count(k) == (if k % 32 == 0 { k } else { (k / 32 + 1) * 32 }),
    ;
    lemma_merkle_fec(shredder, shreds, data, is_last_in_slot_flag, chained_root, next_shred_index);
    assert forall|i: int| 0 <= i < shreds.len() implies index_of(#[trigger] shreds[i]) == next_shred_index + i
        && fec_set_index_of(shreds[i]) == next_shred_index by {
        assert(i / 32 == 0);
    }
}

proof fn lemma_merkle_fec(
    shredder: Shredder,
    shreds: Seq<Seq<u8>>,
    data: Seq<u8>,
    is_last_in_slot_flag: bool,
    chained_root: Option<Seq<u8>>,
    next_shred_index: u32,
)
    requires
        shredder.data_shreds_for(shreds, data, is_last_in_slot_flag, chained_root, next_shred_index, true),
        next_shred_index + shreds.len() <= u32::MAX + 1,
    ensures
        forall|i: int|
            0 <= i < shreds.len() ==> fec_set_index_of(#[trigger] shreds[i]) == next_shred_index + (i / 32) * 32,
{
    let k = shreds.len();
    lemma_num_shreds_for(data.len(), data_capacity(chained_root is Some), true);
    lemma_shred_offsets(true, k);
    assert forall|i: int| 0 <= i < k implies fec_set_index_of(#[trigger] shreds[i]) == next_shred_index + (i
        / 32) * 32 by {
        assert(0 <= shred_offset(true, k, i) <= i);
    }
}

/// The shreds of `group` at the first `n` positions that `present` does
/// not mark, in order.
pub open spec fn missing_upto(group: Seq<Seq<u8>>, present: Seq<bool>, n: nat) -> Seq<Seq<u8>>
    decreases n,
{
    if n == 0 {
        seq![]
    } else {
        let prev = missing_upto(group, present, (n - 1) as nat);
        if !present[n - 1] {
            prev.push(group[n - 1])
        } else {
            prev
        }
    }
}

/// `input` is made of shreds of the FEC set `group` and of its code shreds
/// `code`: shred `t` is `group[src[t]]`, or `code[src[t] - group.len()]`.
pub open spec fn drawn_from(
    input: Seq<Seq<u8>>,
    src: Seq<int>,
    group: Seq<Seq<u8>>,
    code: Seq<Seq<u8>>,
) -> bool {
    &&& input.len() == src.len()
    &&& forall|t: int|
        0 <= t < input.len() ==> 0 <= #[trigger] src[t] < group.len() + code.len() && input[t] == if src[t]
            < group.len() {
            group[src[t]]
        } else {
            code[src[t] - group.len()]
        }
}

proof fn lemma_first_code_in(s: Seq<Seq<u8>>)
    requires
        first_code(s) is Some,
    ensures
        exists|t: int| 0 <= t < s.len() && s[t] == first_code(s)->0,
        variant_of(first_code(s)->0) == VARIANT_CODE,
    decreases s.len(),
{
    if variant_of(s[0]) != VARIANT_CODE {
        lemma_first_code_in(s.drop_first());
        let t = choose|t: int| 0 <= t < s.drop_first().len() && s.drop_first()[t] == first_code(s.drop_first())->0;
        assert(s[t + 1] == first_code(s)->0);
    } else {
        assert(s[0] == first_code(s)->0);
    }
}

/// The erasure shards of a FEC set's shreds laid out by position are those
/// of the batch the set's data shreds encode into.
proof fn lemma_laid_out_consistent(
    input: Seq<Seq<u8>>,
    src: Seq<int>,
    group: Seq<Seq<u8>>,
    code: Seq<Seq<u8>>,
    next_code_index: nat,
)
    requires
        is_fec_group(group),
        forall|i: int| 0 <= i < group.len() ==> index_of(#[trigger] group[i]) == index_of(group[0]) + i,
        is_coding_for(code, group, next_code_index),
        codec_error(group.len(), num_parity_for(group)) is None,
        drawn_from(input, src, group, code),
    ensures
        consistent_with(
            laid_out(input, group.len() + num_parity_for(group)),
            group,
            num_parity_for(group),
        ),
    decreases input.len(),
{
    let n = group.len();
    let p = num_parity_for(group);
    let size = n + p;
    if input.len() == 0 {
        assert forall|i: int| 0 <= i < group.len() implies (#[trigger] group[i]).len() == group[0].len() by {
            assert(payload_wf(group[i]) && payload_wf(group[0]));
        }
    } else {
        let m = (input.len() - 1) as int;
        let (prev_in, prev_src) = (input.drop_last(), src.drop_last());
        assert forall|t: int| 0 <= t < prev_in.len() implies 0 <= #[trigger] prev_src[t] < group.len()
            + code.len() && prev_in[t] == if prev_src[t] < group.len() {
            group[prev_src[t]]
        } else {
            code[prev_src[t] - group.len()]
        } by {
            assert(prev_in[t] == input[t] && prev_src[t] == src[t]);
        }
        lemma_laid_out_consistent(prev_in, prev_src, group, code, next_code_index);
        let x = input.last();
        assert(x == input[m]);
        assert(0 <= src[m] < n + code.len());
        if src[m] < n {
            let i = src[m];
            assert(x == group[i]);
            assert(payload_wf(group[i]) && is_data_variant(variant_of(group[i])));
            assert(erasure_shard_index_of(x) == Some(i));
        } else {
            let j = src[m] - n;
            assert(x == code[j]);
            assert(code_payload_wf(x));
            assert(num_data_of(x) == n as u16 && position_of(x) == j as u16);
            assert(erasure_shard_index_of(x) == Some(n + j));
            assert(erasure_shard_of(x) == rs_parity(group, p)[j]);
        }
    }
}

proof fn lemma_restored_is_missing(
    group: Seq<Seq<u8>>,
    present: Seq<bool>,
    slot: u64,
    n: nat,
    m: nat,
)
    requires
        is_fec_group(group),
        group.len() == n,
        n <= present.len(),
        m <= n,
        slot == slot_of(group[0]),
        forall|i: int| 0 <= i < group.len() ==> index_of(#[trigger] group[i]) == index_of(group[0]) + i,
    ensures
        recovered_upto(Seq::new(n, |i: int| Some(group[i])), present, slot, n, m) == missing_upto(
            group,
            present,
            m,
        ),
    decreases m,
{
    if m > 0 {
        lemma_restored_is_missing(group, present, slot, n, (m - 1) as nat);
        let x = group[m - 1];
        assert(payload_wf(x) && is_data_variant(variant_of(x)) && slot_of(x) == slot);
        assert(erasure_shard_index_of(x) == Some(m - 1));
    }
}

/// Recovery correctness: where the shreds that reach `try_recovery` are
/// shreds of one FEC set and of its code shreds, with a code shred among
/// them, every data shred missing from them comes back, byte for byte, in
/// order, and nothing else. `recovered` is what `try_recovery` returns.
pub proof fn lemma_recovery_restores(
    group: Seq<Seq<u8>>,
    code: Seq<Seq<u8>>,
    next_code_index: nat,
    input: Seq<Seq<u8>>,
    src: Seq<int>,
    recovered: Seq<Seq<u8>>,
)
    requires
        is_fec_group(group),
        forall|i: int| 0 <= i < group.len() ==> index_of(#[trigger] group[i]) == index_of(group[0]) + i,
        is_coding_for(code, group, next_code_index),
        codec_error(group.len(), num_parity_for(group)) is None,
        drawn_from(input, src, group, code),
        first_code(input) is Some,
        ({
            let c = first_code(input)->0;
            let (nd, nc) = (num_data_of(c) as nat, num_coding_of(c) as nat);
            forall|d: Seq<Seq<u8>>|
                d.len() == nd && #[trigger] consistent_with(laid_out(input, nd + nc), d, nc)
                    ==> recovered == recovered_upto(
                    Seq::new(nd, |i: int| Some(d[i])),
                    Seq::new(nd, |pos: int| position_present(input, pos)),
                    slot_of(input[0]),
                    nd,
                    nd,
                )
        }),
    ensures
        recovered == missing_upto(
            group,
            Seq::new(group.len(), |pos: int| position_present(input, pos)),
            group.len(),
        ),
{
    let n = group.len();
    let p = num_parity_for(group);
    lemma_first_code_in(input);
    let c = first_code(input)->0;
    let t = choose|t: int| 0 <= t < input.len() && input[t] == c;
    assert(0 <= src[t] < n + code.len());
    if src[t] < n {
        assert(input[t] == group[src[t]]);
        assert(is_data_variant(variant_of(group[src[t]])));
    }
    assert(c == code[src[t] - n]);
    assert(num_data_of(c) as nat == n && num_coding_of(c) as nat == p);
    lemma_laid_out_consistent(input, src, group, code, next_code_index);
    assert(0 <= src[0] < n + code.len());
    if src[0] < n {
        assert(input[0] == group[src[0]]);
    } else {
        assert(input[0] == code[src[0] - n]);
    }
    assert(slot_of(input[0]) == slot_of(group[0]));
    lemma_restored_is_missing(
        group,
        Seq::new(n, |pos: int| position_present(input, pos)),
        slot_of(group[0]),
        n,
        n,
    );
    let (nd, nc) = (num_data_of(c) as nat, num_coding_of(c) as nat);
    assert(nd == n && nc == p);
    assert(consistent_with(laid_out(input, nd + nc), group, nc));
    assert(recovered == recovered_upto(
        Seq::new(nd, |i: int| Some(group[i])),
        Seq::new(nd, |pos: int| position_present(input, pos)),
        slot_of(input[0]),
        nd,
        nd,
    ));
}

} // verus!
