//! The shredder: cuts a block's serialized entries into signed data shreds,
//! adds Reed-Solomon code shreds per FEC set, recovers missing data shreds
//! and reassembles the data.
use vstd::prelude::*;
use solana_clock::Slot;
use solana_keypair::Keypair;
use crate::ShredError;
use crate::coding::{
    codec_error, consistent_with, count_present, encode_parity, optional_shard_views, reconstruct_data, rs_parity, rs_recovered,
    shard_views, ReedSolomonCache,
};
use crate::erasure::{
    erasure_batch_size, fec_set_offsets, get_erasure_batch_size, get_fec_set_offsets,
    lemma_fec_set_offsets_contiguous, lemma_fec_set_offsets_len, DATA_SHREDS_PER_FEC_BLOCK,
};
use crate::layout::{data_result, flags_result, get_data, get_flags, get_index};
use crate::shred::{
    capacity, data_capacity, erasure_shard_index_of, erasure_shard_of, fec_set_index_of,
    flags_byte, index_of, is_code_shred, is_data_shred, is_data_variant, is_last_in_slot,
    num_coding_of, num_data_of, payload_wf, shred_views, slot_of, variant_of, version_of, Shred,
    DATA_COMPLETE_SHRED, LAST_SHRED_IN_SLOT, SIZE_OF_COMMON_SHRED_HEADER, SIZE_OF_DATA_PAYLOAD,
    SIZE_OF_MERKLE_ROOT, VARIANT_CODE,
};

verus! {

/// Cuts entries into shreds for one slot.
pub struct Shredder {
    slot: Slot,
    parent_slot: Slot,
    version: u16,
    reference_tick: u8,
}

/// Number of data shreds that `len` bytes take at `cap` bytes a shred.
pub open spec fn num_data_shreds(len: nat, cap: nat) -> nat {
    if len % cap == 0 { len / cap } else { len / cap + 1 }
}

/// The bytes that data shred `i` carries: its `cap` bytes of `data`, fewer
/// at the end, none for a shred that only pads out a FEC set.
pub open spec fn chunk_of(data: Seq<u8>, cap: nat, i: nat) -> Seq<u8> {
    let start = if i * cap <= data.len() { i * cap } else { data.len() };
    let end = if start + cap <= data.len() { start + cap } else { data.len() };
    data.subrange(start as int, end as int)
}

/// `k` rounded up to whole FEC sets of `DATA_SHREDS_PER_FEC_BLOCK`.
pub open spec fn padded_count(k: nat) -> nat {
    if k % 32 == 0 { k } else { (k / 32 + 1) * 32 }
}

/// How many data shreds carry `len` bytes at `cap` bytes a shred: with
/// Merkle batches, rounded up to whole FEC sets of 32.
pub open spec fn num_shreds_for(len: nat, cap: nat, merkle: bool) -> nat {
    if merkle { padded_count(num_data_shreds(len, cap)) } else { num_data_shreds(len, cap) }
}

/// Offset of data shred `i` of `n` from the first shred of its FEC set:
/// Merkle batches are FEC sets of exactly 32 shreds; otherwise the planner
/// cuts the sets.
pub open spec fn shred_offset(merkle: bool, n: nat, i: int) -> int {
    if merkle {
        (i / 32) * 32
    } else {
        fec_set_offsets(n, DATA_SHREDS_PER_FEC_BLOCK as nat)[i]
    }
}

/// The shape of FEC sets either way: each shred starts a set or stays in
/// the previous shred's, and with at least 32 shreds every set holds
/// 32 to 63 of them; with fewer, one set holds all.
pub proof fn lemma_shred_offsets(merkle: bool, n: nat)
    requires
        merkle ==> n % 32 == 0,
    ensures
        forall|i: int|
            0 <= i < n ==> {
                let o = #[trigger] shred_offset(merkle, n, i);
                &&& 0 <= o <= i
                &&& o == i || (i > 0 && o == shred_offset(merkle, n, i - 1))
                &&& n < 32 ==> o == 0
                &&& n >= 32 ==> i - o < 63
                &&& n >= 32 && i > 0 && o == i ==> i - shred_offset(merkle, n, i - 1) >= 32
            },
        n >= 32 ==> n - shred_offset(merkle, n, n - 1) >= 32,
{
    if merkle {
        assert forall|i: int| 0 <= i < n implies {
            let o = #[trigger] shred_offset(merkle, n, i);
            &&& 0 <= o <= i
            &&& o == i || (i > 0 && o == shred_offset(merkle, n, i - 1))
            &&& n < 32 ==> o == 0
            &&& n >= 32 ==> i - o < 63
            &&& n >= 32 && i > 0 && o == i ==> i - shred_offset(merkle, n, i - 1) >= 32
        } by {
            assert(0 <= (i / 32) * 32 <= i && i - (i / 32) * 32 < 32) by (nonlinear_arith)
                requires
                    i >= 0,
            ;
            if i > 0 {
                assert((i / 32) * 32 == i || (i / 32) * 32 == ((i - 1) / 32) * 32) by (nonlinear_arith)
                    requires
                        i > 0,
                ;
                assert((i / 32) * 32 == i ==> ((i - 1) / 32) * 32 == i - 32) by (nonlinear_arith)
                    requires
                        i > 0,
                ;
            }
            if n < 32 {
                assert(i / 32 == 0);
            }
        }
        if n >= 32 {
            assert(((n - 1) / 32) * 32 == n - 32) by (nonlinear_arith)
                requires
                    n % 32 == 0,
                    n >= 32,
            ;
        }
    } else {
        lemma_fec_set_offsets_contiguous(n, DATA_SHREDS_PER_FEC_BLOCK as nat);
        lemma_fec_set_offsets_len(n, DATA_SHREDS_PER_FEC_BLOCK as nat);
        if n < 32 {
            crate::erasure::lemma_fec_set_offsets_small(n, DATA_SHREDS_PER_FEC_BLOCK as nat);
        } else {
            crate::erasure::lemma_fec_set_sizes(n, DATA_SHREDS_PER_FEC_BLOCK as nat);
        }
        let v = fec_set_offsets(n, DATA_SHREDS_PER_FEC_BLOCK as nat);
        assert forall|i: int| 0 <= i < n implies {
            let o = #[trigger] shred_offset(merkle, n, i);
            &&& 0 <= o <= i
            &&& o == i || (i > 0 && o == shred_offset(merkle, n, i - 1))
            &&& n < 32 ==> o == 0
            &&& n >= 32 ==> i - o < 63
            &&& n >= 32 && i > 0 && o == i ==> i - shred_offset(merkle, n, i - 1) >= 32
        } by {
            assert(0 <= v[i] <= i);
            if n < 32 {
                assert(v[i] == 0);
            }
        }
    }
}

/// With Merkle batches the data shreds come in whole FEC sets of 32.
pub proof fn lemma_num_shreds_for(len: nat, cap: nat, merkle: bool)
    ensures
        merkle ==> num_shreds_for(len, cap, merkle) % 32 == 0,
        num_shreds_for(len, cap, merkle) >= num_data_shreds(len, cap),
{
    let k = num_data_shreds(len, cap);
    assert(padded_count(k) % 32 == 0 && padded_count(k) >= k) by (nonlinear_arith)
        requires
            padded_count(k) == (if k % 32 == 0 { k } else { (k / 32 + 1) * 32 }),
    ;
}

/// Data shreds in Merkle batches need as many code shreds as there are
/// data shreds.
proof fn lemma_merkle_total_parity(data: Seq<Seq<u8>>, base: int)
    requires
        data.len() % 32 == 0,
        forall|t: int| 0 <= t < data.len() ==> fec_set_index_of(#[trigger] data[t]) == base + (t / 32) * 32,
    ensures
        total_parity(fec_groups(data)) == data.len(),
    decreases data.len(),
{
    if data.len() > 0 {
        assert forall|t: int| 0 <= t < 32 implies fec_set_index_of(#[trigger] data[t]) == fec_set_index_of(
            data[0],
        ) by {
            assert(t / 32 == 0);
        }
        if data.len() > 32 {
            assert(32int / 32 == 1);
        }
        lemma_first_run_len(data, 32);
        let group = data.take(32);
        let rest = data.skip(32);
        assert(fec_groups(data) =~= seq![group] + fec_groups(rest));
        assert(fec_groups(data)[0] == group);
        assert(fec_groups(data).drop_first() =~= fec_groups(rest));
        assert(crate::erasure::erasure_batch_table(32) == 64);
        assert(num_parity_for(group) == 32);
        assert forall|t: int| 0 <= t < rest.len() implies fec_set_index_of(#[trigger] rest[t]) == (base + 32) + (t
            / 32) * 32 by {
            assert(rest[t] == data[t + 32]);
            assert(((t + 32) / 32) * 32 == 32 + (t / 32) * 32) by (nonlinear_arith)
                requires
                    t >= 0,
            ;
        }
        assert((data.len() - 32) % 32 == 0) by (nonlinear_arith)
            requires
                data.len() % 32 == 0,
                data.len() >= 32,
        ;
        lemma_merkle_total_parity(rest, base + 32);
    } else {
        assert(fec_groups(data) =~= Seq::<Seq<Seq<u8>>>::empty());
    }
}

/// Data shreds in Merkle batches form FEC sets of exactly 32 shreds, each
/// coded by 32 code shreds: as many code shreds as data shreds, the `j`th
/// code shred in the FEC set of the `j`th data shred.
pub(crate) proof fn lemma_merkle_coding(data: Seq<Seq<u8>>, code: Seq<Seq<u8>>, base: int, next_code_index: nat)
    requires
        data.len() % 32 == 0,
        forall|t: int| 0 <= t < data.len() ==> index_of(#[trigger] data[t]) == base + t,
        forall|t: int| 0 <= t < data.len() ==> fec_set_index_of(#[trigger] data[t]) == base + (t / 32) * 32,
        coding_for_groups(code, fec_groups(data), next_code_index),
    ensures
        total_parity(fec_groups(data)) == data.len(),
        code.len() == data.len(),
        forall|j: int| 0 <= j < code.len() ==> fec_set_index_of(#[trigger] code[j]) == fec_set_index_of(data[j])
            && slot_of(code[j]) == slot_of(data[(j / 32) * 32]) && version_of(code[j]) == version_of(
            data[(j / 32) * 32],
        ),
    decreases data.len(),
{
    if data.len() > 0 {
        assert forall|t: int| 0 <= t < 32 implies fec_set_index_of(#[trigger] data[t]) == fec_set_index_of(
            data[0],
        ) by {
            assert(t / 32 == 0);
        }
        if data.len() > 32 {
            assert(32int / 32 == 1);
        }
        lemma_first_run_len(data, 32);
        let group = data.take(32);
        let rest = data.skip(32);
        assert(fec_groups(data) =~= seq![group] + fec_groups(rest));
        assert(fec_groups(data)[0] == group);
        assert(fec_groups(data).drop_first() =~= fec_groups(rest));
        assert(group.last() == data[31]);
        assert(crate::erasure::erasure_batch_table(32) == 64);
        assert(num_parity_for(group) == 32);
        assert forall|t: int| 0 <= t < rest.len() implies index_of(#[trigger] rest[t]) == (base + 32) + t by {
            assert(rest[t] == data[t + 32]);
        }
        assert forall|t: int| 0 <= t < rest.len() implies fec_set_index_of(#[trigger] rest[t]) == (base + 32) + (t
            / 32) * 32 by {
            assert(rest[t] == data[t + 32]);
            assert(((t + 32) / 32) * 32 == 32 + (t / 32) * 32) by (nonlinear_arith)
                requires
                    t >= 0,
            ;
        }
        assert((data.len() - 32) % 32 == 0) by (nonlinear_arith)
            requires
                data.len() % 32 == 0,
                data.len() >= 32,
        ;
        let tail = code.skip(32);
        lemma_merkle_coding(rest, tail, base + 32, next_code_index + 32);
        let head = code.take(32);
        assert(is_coding_for(head, group, next_code_index));
        assert forall|j: int| 0 <= j < code.len() implies fec_set_index_of(#[trigger] code[j]) == fec_set_index_of(
            data[j],
        ) && slot_of(code[j]) == slot_of(data[(j / 32) * 32]) && version_of(code[j]) == version_of(
            data[(j / 32) * 32],
        ) by {
            if j < 32 {
                assert(code[j] == head[j]);
                assert(j / 32 == 0);
                assert(fec_set_index_of(data[j]) == fec_set_index_of(data[0]));
            } else {
                assert(code[j] == tail[j - 32]);
                assert(data[j] == rest[j - 32]);
                assert(((j - 32) / 32) * 32 + 32 == (j / 32) * 32) by (nonlinear_arith)
                    requires
                        j >= 32,
                ;
                assert(data[(j / 32) * 32] == rest[((j - 32) / 32) * 32]);
            }
        }
    } else {
        assert(fec_groups(data) =~= Seq::<Seq<Seq<u8>>>::empty());
    }
}

/// Enough data shreds to carry all of `data`, and no shred past them
/// starting inside it.
pub proof fn lemma_chunk_bounds(len: nat, cap: nat, i: nat)
    requires
        cap > 0,
    ensures
        i < num_data_shreds(len, cap) ==> i * cap < len,
        num_data_shreds(len, cap) * cap >= len,
        i >= num_data_shreds(len, cap) ==> i * cap >= len,
{
    let k = num_data_shreds(len, cap);
    assert(i < k ==> i * cap < len) by (nonlinear_arith)
        requires
            cap > 0,
            k == (if len % cap == 0 { len / cap } else { len / cap + 1 }),
    {
        if i < k {
            assert(len == cap * (len / cap) + len % cap);
            if len % cap == 0 {
                assert(i <= len / cap - 1);
                assert(i * cap <= (len / cap - 1) * cap);
            } else {
                assert(i <= len / cap);
                assert(i * cap <= (len / cap) * cap);
            }
        }
    }
    assert(k * cap >= len) by (nonlinear_arith)
        requires
            cap > 0,
            k == (if len % cap == 0 { len / cap } else { len / cap + 1 }),
    {
        assert(len == cap * (len / cap) + len % cap);
        assert(len % cap < cap);
    }
    assert(i >= k ==> i * cap >= k * cap) by (nonlinear_arith)
        requires
            cap > 0,
    ;
}

/// Completion bits of data shred `i` of `k`.
pub open spec fn completion_flags(i: nat, k: nat, is_last_in_slot: bool) -> u8 {
    if i + 1 < k {
        0
    } else if is_last_in_slot {
        LAST_SHRED_IN_SLOT
    } else {
        DATA_COMPLETE_SHRED
    }
}

pub open spec fn root_view(root: Option<Vec<u8>>) -> Option<Seq<u8>> {
    match root {
        Some(r) => Some(r@),
        None => None,
    }
}

/// Number of code shreds for one FEC set of data shreds.
pub open spec fn num_parity_for(group: Seq<Seq<u8>>) -> nat {
    let n = group.len();
    let batch = erasure_batch_size(n, is_last_in_slot(group.last()));
    if batch > n { (batch - n) as nat } else { 0 }
}

/// `code` are the code shreds of the FEC set `group` (data shred
/// payloads, which are their own erasure shards), indexed from
/// `next_code_index`.
pub open spec fn is_coding_for(code: Seq<Seq<u8>>, group: Seq<Seq<u8>>, next_code_index: nat) -> bool {
    let n = group.len();
    let p = num_parity_for(group);
    &&& code.len() == p
    &&& forall|j: int|
        0 <= j < p ==> is_code_shred(
            #[trigger] code[j],
            slot_of(group[0]),
            (next_code_index + j) as u32,
            rs_parity(group, p)[j],
            fec_set_index_of(group[0]),
            n as u16,
            p as u16,
            j as u16,
            version_of(group[0]),
        )
}

/// A FEC set as the coding shredder takes it: data shreds of one slot,
/// version and FEC set index, the first of which starts the set.
pub open spec fn is_fec_group(group: Seq<Seq<u8>>) -> bool {
    &&& group.len() >= 1
    &&& index_of(group[0]) == fec_set_index_of(group[0])
    &&& forall|i: int|
        0 <= i < group.len() ==> {
            &&& payload_wf(#[trigger] group[i])
            &&& is_data_variant(variant_of(group[i]))
            &&& slot_of(group[i]) == slot_of(group[0])
            &&& version_of(group[i]) == version_of(group[0])
            &&& fec_set_index_of(group[i]) == fec_set_index_of(group[0])
        }
}

/// Signs every shred of `shreds`.
fn sign_all(shreds: &mut Vec<Shred>, keypair: &Keypair)
    ensures
        final(shreds)@.len() == old(shreds)@.len(),
        forall|j: int|
            0 <= j < final(shreds)@.len() ==> {
                &&& (#[trigger] final(shreds)@[j]).wf()
                &&& final(shreds)@[j]@.len() == old(shreds)@[j]@.len()
                &&& final(shreds)@[j]@.subrange(64, final(shreds)@[j]@.len() as int)
                    == old(shreds)@[j]@.subrange(64, old(shreds)@[j]@.len() as int)
            },
{
    let ghost start = shreds@;
    let mut k: usize = 0;
    while k < shreds.len()
        invariant
            k <= shreds@.len(),
            shreds@.len() == start.len(),
            forall|j: int| 0 <= j < k ==> (#[trigger] shreds@[j]).wf(),
            forall|j: int| k <= j < shreds@.len() ==> #[trigger] shreds@[j] == start[j],
            forall|j: int|
                0 <= j < k ==> {
                    &&& (#[trigger] shreds@[j])@.len() == start[j]@.len()
                    &&& shreds@[j]@.subrange(64, shreds@[j]@.len() as int) == start[j]@.subrange(
                        64,
                        start[j]@.len() as int,
                    )
                },
        decreases shreds@.len() - k,
    {
        let mut shred = shreds[k].clone();
        shred.sign(keypair);
        shreds[k] = shred;
        k += 1;
    }
}

/// How many shreds at the front of `data` share the first one's FEC set
/// index.
pub open spec fn first_run_len(data: Seq<Seq<u8>>) -> nat
    decreases data.len(),
{
    if data.len() <= 1 {
        data.len()
    } else if fec_set_index_of(data[1]) == fec_set_index_of(data[0]) {
        1 + first_run_len(data.drop_first())
    } else {
        1
    }
}

/// The FEC sets of a run of data shreds: its maximal runs of shreds with
/// one FEC set index.
pub open spec fn fec_groups(data: Seq<Seq<u8>>) -> Seq<Seq<Seq<u8>>>
    decreases data.len(),
{
    if data.len() == 0 {
        seq![]
    } else {
        let n = first_run_len(data);
        if 1 <= n <= data.len() {
            seq![data.take(n as int)] + fec_groups(data.skip(n as int))
        } else {
            seq![]
        }
    }
}

/// `code` holds the code shreds of each FEC set in `groups` in turn, with
/// code indices running on from `next_code_index`.
pub open spec fn coding_for_groups(
    code: Seq<Seq<u8>>,
    groups: Seq<Seq<Seq<u8>>>,
    next_code_index: nat,
) -> bool
    decreases groups.len(),
{
    if groups.len() == 0 {
        code.len() == 0
    } else {
        let p = num_parity_for(groups[0]);
        &&& code.len() >= p
        &&& is_coding_for(code.take(p as int), groups[0], next_code_index)
        &&& coding_for_groups(code.skip(p as int), groups.drop_first(), next_code_index + p)
    }
}

/// Number of code shreds for all of `groups`.
pub open spec fn total_parity(groups: Seq<Seq<Seq<u8>>>) -> nat
    decreases groups.len(),
{
    if groups.len() == 0 {
        0
    } else {
        num_parity_for(groups[0]) + total_parity(groups.drop_first())
    }
}

/// Each FEC set of `groups` has dimensions a GF(2^8) codec can take.
pub open spec fn groups_codable(groups: Seq<Seq<Seq<u8>>>) -> bool {
    forall|g: int|
        0 <= g < groups.len() ==> codec_error(
            (#[trigger] groups[g]).len(),
            num_parity_for(groups[g]),
        ) is None
}

proof fn lemma_total_parity_push(groups: Seq<Seq<Seq<u8>>>, group: Seq<Seq<u8>>)
    ensures
        total_parity(groups.push(group)) == total_parity(groups) + num_parity_for(group),
    decreases groups.len(),
{
    if groups.len() == 0 {
        assert(groups.push(group).drop_first() =~= Seq::<Seq<Seq<u8>>>::empty());
        assert(groups.push(group)[0] == group);
        assert(total_parity(groups.push(group).drop_first()) == 0);
    } else {
        assert(groups.push(group).drop_first() =~= groups.drop_first().push(group));
        assert(groups.push(group)[0] == groups[0]);
        lemma_total_parity_push(groups.drop_first(), group);
    }
}

proof fn lemma_total_parity_append(a: Seq<Seq<Seq<u8>>>, b: Seq<Seq<Seq<u8>>>)
    ensures
        total_parity(a + b) == total_parity(a) + total_parity(b),
    decreases a.len(),
{
    if a.len() == 0 {
        assert(a + b =~= b);
    } else {
        assert((a + b).drop_first() =~= a.drop_first() + b);
        lemma_total_parity_append(a.drop_first(), b);
    }
}

proof fn lemma_coding_len(code: Seq<Seq<u8>>, groups: Seq<Seq<Seq<u8>>>, next_code_index: nat)
    requires
        coding_for_groups(code, groups, next_code_index),
    ensures
        code.len() == total_parity(groups),
    decreases groups.len(),
{
    if groups.len() > 0 {
        let p = num_parity_for(groups[0]);
        lemma_coding_len(code.skip(p as int), groups.drop_first(), next_code_index + p);
    }
}

/// Data shreds that fall into FEC sets the coding shredder takes: each
/// shred that starts a new FEC set index is the set's first, and the
/// shreds of one set share slot and version.
#[verifier::opaque]
pub open spec fn well_grouped(data: Seq<Seq<u8>>) -> bool {
    forall|i: int|
        0 <= i < data.len() ==> {
            &&& payload_wf(#[trigger] data[i])
            &&& is_data_variant(variant_of(data[i]))
            &&& (i == 0 || fec_set_index_of(data[i]) != fec_set_index_of(data[i - 1]))
                ==> index_of(data[i]) == fec_set_index_of(data[i])
            &&& (i > 0 && fec_set_index_of(data[i]) == fec_set_index_of(data[i - 1])) ==> slot_of(
                data[i],
            ) == slot_of(data[i - 1]) && version_of(data[i]) == version_of(data[i - 1])
        }
}

proof fn lemma_first_run_len(s: Seq<Seq<u8>>, m: nat)
    requires
        1 <= m <= s.len(),
        forall|t: int| 0 <= t < m ==> fec_set_index_of(#[trigger] s[t]) == fec_set_index_of(s[0]),
        m == s.len() || fec_set_index_of(s[m as int]) != fec_set_index_of(s[0]),
    ensures
        first_run_len(s) == m,
    decreases m,
{
    if m > 1 {
        let t = s.drop_first();
        assert(fec_set_index_of(s[1]) == fec_set_index_of(s[0]));
        assert forall|u: int| 0 <= u < m - 1 implies fec_set_index_of(#[trigger] t[u])
            == fec_set_index_of(t[0]) by {
            assert(t[u] == s[u + 1]);
        }
        if m - 1 < t.len() {
            assert(t[m - 1] == s[m as int]);
        }
        lemma_first_run_len(t, (m - 1) as nat);
    } else if s.len() > 1 {
        assert(fec_set_index_of(s[1]) != fec_set_index_of(s[0]));
    }
}

proof fn lemma_coding_for_groups_push(
    a: Seq<Seq<u8>>,
    groups: Seq<Seq<Seq<u8>>>,
    next_code_index: nat,
    b: Seq<Seq<u8>>,
    group: Seq<Seq<u8>>,
)
    requires
        coding_for_groups(a, groups, next_code_index),
        is_coding_for(b, group, next_code_index + a.len()),
    ensures
        coding_for_groups(a + b, groups.push(group), next_code_index),
    decreases groups.len(),
{
    if groups.len() == 0 {
        assert(a.len() == 0);
        assert(a + b =~= b);
        assert(b.take(b.len() as int) =~= b);
        assert(groups.push(group).drop_first() =~= Seq::<Seq<Seq<u8>>>::empty());
        assert(groups.push(group)[0] == group);
        assert(b.skip(b.len() as int) =~= Seq::<Seq<u8>>::empty());
        assert(coding_for_groups(
            b.skip(b.len() as int),
            groups.push(group).drop_first(),
            next_code_index + b.len(),
        ));
    } else {
        let p = num_parity_for(groups[0]);
        let rest = a.skip(p as int);
        assert((a + b).take(p as int) =~= a.take(p as int));
        assert((a + b).skip(p as int) =~= rest + b);
        assert(groups.push(group).drop_first() =~= groups.drop_first().push(group));
        assert(groups.push(group)[0] == groups[0]);
        lemma_coding_for_groups_push(rest, groups.drop_first(), next_code_index + p, b, group);
    }
}

/// Signing code shreds keeps them the code shreds of their FEC set.
proof fn lemma_signed_coding(
    unsigned: Seq<Seq<u8>>,
    signed: Seq<Seq<u8>>,
    group: Seq<Seq<u8>>,
    next_code_index: nat,
)
    requires
        is_coding_for(unsigned, group, next_code_index),
        signed.len() == unsigned.len(),
        forall|j: int|
            0 <= j < signed.len() ==> {
                &&& payload_wf(unsigned[j])
                &&& (#[trigger] signed[j]).len() == unsigned[j].len()
                &&& signed[j].subrange(64, signed[j].len() as int) == unsigned[j].subrange(
                    64,
                    unsigned[j].len() as int,
                )
            },
    ensures
        is_coding_for(signed, group, next_code_index),
{
    assert forall|t: int| 0 <= t < signed.len() implies is_code_shred(
        #[trigger] signed[t],
        slot_of(group[0]),
        (next_code_index + t) as u32,
        rs_parity(group, num_parity_for(group))[t],
        fec_set_index_of(group[0]),
        group.len() as u16,
        num_parity_for(group) as u16,
        t as u16,
        version_of(group[0]),
    ) by {
        crate::shred::lemma_same_body(unsigned[t], signed[t]);
    }
}

proof fn lemma_well_grouped_at(data: Seq<Seq<u8>>, i: int)
    requires
        well_grouped(data),
        0 < i < data.len(),
        fec_set_index_of(data[i]) == fec_set_index_of(data[i - 1]),
    ensures
        slot_of(data[i]) == slot_of(data[i - 1]),
        version_of(data[i]) == version_of(data[i - 1]),
{
    reveal(well_grouped);
    assert(payload_wf(data[i]));
}

/// Where the FEC set that starts at `i` ends: the first shred after it
/// with another FEC set index, or the end.
fn fec_set_end(data_shreds: &[Shred], i: usize) -> (j: usize)
    requires
        well_grouped(shred_views(data_shreds@)),
        i < data_shreds@.len(),
    ensures
        ({
            let data = shred_views(data_shreds@);
            &&& i < j <= data.len()
            &&& j == data.len() || fec_set_index_of(data[j as int]) != fec_set_index_of(data[i as int])
            &&& forall|t: int|
                i <= t < j ==> fec_set_index_of(#[trigger] data[t]) == fec_set_index_of(data[i as int])
                    && slot_of(data[t]) == slot_of(data[i as int]) && version_of(data[t]) == version_of(
                    data[i as int],
                )
        }),
{
    let ghost data = shred_views(data_shreds@);
    let n = data_shreds.len();
    assert(data_shreds@[i as int]@ == data[i as int]);
    let fec_set_index = data_shreds[i].fec_set_index();
    let mut j: usize = i + 1;
    let mut in_set = true;
    while in_set && j < n
        invariant
            !in_set ==> j < n && fec_set_index_of(data[j as int]) != fec_set_index,
            n == data_shreds@.len(),
            data == shred_views(data_shreds@),
            well_grouped(data),
            i < j <= n,
            fec_set_index == fec_set_index_of(data[i as int]),
            forall|t: int|
                i <= t < j ==> fec_set_index_of(#[trigger] data[t]) == fec_set_index && slot_of(data[t])
                    == slot_of(data[i as int]) && version_of(data[t]) == version_of(data[i as int]),
        decreases n - j + if in_set { 1int } else { 0 },
    {
        assert(data_shreds@[j as int]@ == data[j as int]);
        if data_shreds[j].fec_set_index() == fec_set_index {
            proof {
                lemma_well_grouped_at(data, j as int);
            }
            j += 1;
        } else {
            in_set = false;
        }
    }
    j
}

/// The FEC set that starts at `i` and runs up to `j` is the next group, and
/// one the coding shredder takes.
proof fn lemma_well_grouped_member(data: Seq<Seq<u8>>, t: int)
    requires
        well_grouped(data),
        0 <= t < data.len(),
    ensures
        payload_wf(data[t]),
        is_data_variant(variant_of(data[t])),
        t == 0 || fec_set_index_of(data[t]) != fec_set_index_of(data[t - 1]) ==> index_of(data[t])
            == fec_set_index_of(data[t]),
{
    reveal(well_grouped);
    assert(payload_wf(data[t]));
}

proof fn lemma_next_group(data: Seq<Seq<u8>>, i: int, j: int)
    requires
        well_grouped(data),
        0 <= i < j <= data.len(),
        i == 0 || fec_set_index_of(data[i]) != fec_set_index_of(data[i - 1]),
        j == data.len() || fec_set_index_of(data[j]) != fec_set_index_of(data[i]),
        forall|t: int|
            i <= t < j ==> fec_set_index_of(#[trigger] data[t]) == fec_set_index_of(data[i])
                && slot_of(data[t]) == slot_of(data[i]) && version_of(data[t]) == version_of(data[i]),
    ensures
        fec_groups(data.skip(i)) == seq![data.subrange(i, j)] + fec_groups(data.skip(j)),
        is_fec_group(data.subrange(i, j)),
{
    let group = data.subrange(i, j);
    let rest = data.skip(i);
    assert forall|t: int| 0 <= t < (j - i) implies fec_set_index_of(#[trigger] rest[t])
        == fec_set_index_of(rest[0]) by {
        assert(rest[t] == data[i + t]);
    }
    if j < data.len() {
        assert(rest[(j - i) as int] == data[j]);
    }
    lemma_first_run_len(rest, (j - i) as nat);
    assert(rest.take(j - i) =~= group);
    assert(rest.skip(j - i) =~= data.skip(j));
    assert(group[0] == data[i]);
    lemma_well_grouped_member(data, i);
    assert forall|t: int| 0 <= t < group.len() implies {
        &&& payload_wf(#[trigger] group[t])
        &&& is_data_variant(variant_of(group[t]))
        &&& slot_of(group[t]) == slot_of(group[0])
        &&& version_of(group[t]) == version_of(group[0])
        &&& fec_set_index_of(group[t]) == fec_set_index_of(group[0])
    } by {
        assert(group[t] == data[i + t]);
        lemma_well_grouped_member(data, i + t);
    }
}

/// The first code shred of `shreds`, if any.
pub open spec fn first_code(shreds: Seq<Seq<u8>>) -> Option<Seq<u8>>
    decreases shreds.len(),
{
    if shreds.len() == 0 {
        None
    } else if variant_of(shreds[0]) == VARIANT_CODE {
        Some(shreds[0])
    } else {
        first_code(shreds.drop_first())
    }
}

/// The erasure shards of `shreds` laid out by erasure position in a batch
/// of `size` shards; a later shred at a position takes the place of an
/// earlier one.
pub open spec fn laid_out(shreds: Seq<Seq<u8>>, size: nat) -> Seq<Option<Seq<u8>>>
    decreases shreds.len(),
{
    if shreds.len() == 0 {
        Seq::new(size, |_i: int| None)
    } else {
        let prev = laid_out(shreds.drop_last(), size);
        match erasure_shard_index_of(shreds.last()) {
            Some(pos) => if 0 <= pos < size {
                prev.update(pos, Some(erasure_shard_of(shreds.last())))
            } else {
                prev
            },
            None => prev,
        }
    }
}

/// Some shred of `shreds` sits at erasure position `pos`.
pub open spec fn position_present(shreds: Seq<Seq<u8>>, pos: int) -> bool {
    exists|i: int| 0 <= i < shreds.len() && erasure_shard_index_of(#[trigger] shreds[i]) == Some(pos)
}

/// A reconstructed shard worth handing back: at a position no input shred
/// held, it parses as a data shred of `slot` whose erasure position is
/// among the data shreds.
pub open spec fn keeps_recovered(shard: Option<Seq<u8>>, present: bool, slot: u64, num_data: nat) -> bool {
    &&& !present
    &&& shard is Some
    &&& payload_wf(shard->0)
    &&& slot_of(shard->0) == slot
    &&& is_data_variant(variant_of(shard->0))
    &&& erasure_shard_index_of(shard->0) matches Some(k) && k < num_data
}

/// The recovered shreds among the first `n` positions, in order.
pub open spec fn recovered_upto(
    shards: Seq<Option<Seq<u8>>>,
    present: Seq<bool>,
    slot: u64,
    num_data: nat,
    n: nat,
) -> Seq<Seq<u8>>
    decreases n,
{
    if n == 0 {
        seq![]
    } else {
        let prev = recovered_upto(shards, present, slot, num_data, (n - 1) as nat);
        if keeps_recovered(shards[n - 1], present[n - 1], slot, num_data) {
            prev.push(shards[n - 1]->0)
        } else {
            prev
        }
    }
}

/// Recovery looks at the first `n` positions only.
pub proof fn lemma_recovered_upto_same(
    a: Seq<Option<Seq<u8>>>,
    b: Seq<Option<Seq<u8>>>,
    present: Seq<bool>,
    slot: u64,
    num_data: nat,
    n: nat,
)
    requires
        n <= a.len(),
        n <= b.len(),
        forall|i: int| 0 <= i < n ==> a[i] == b[i],
    ensures
        recovered_upto(a, present, slot, num_data, n) == recovered_upto(b, present, slot, num_data, n),
    decreases n,
{
    if n > 0 {
        lemma_recovered_upto_same(a, b, present, slot, num_data, (n - 1) as nat);
        assert(a[n - 1] == b[n - 1]);
    }
}

/// Picks out of reconstructed `shards` the data shreds at the first
/// `num_data` positions that `present` does not mark, keeping those that
/// parse as data shreds of `slot` within the batch's data positions.
pub fn recovered_shreds(
    shards: Vec<Option<Vec<u8>>>,
    present: &Vec<bool>,
    slot: u64,
    num_data: usize,
) -> (r: Vec<Shred>)
    requires
        present@.len() == num_data,
        num_data <= shards@.len(),
    ensures
        forall|j: int| 0 <= j < r@.len() ==> (#[trigger] r@[j]).wf(),
        shred_views(r@) == recovered_upto(
            optional_shard_views(shards@),
            present@,
            slot,
            num_data as nat,
            num_data as nat,
        ),
{
    let ghost views = optional_shard_views(shards@);
    let mut shards = shards;
    let mut out: Vec<Shred> = Vec::new();
    let mut pos: usize = 0;
    while pos < num_data
        invariant
            pos <= num_data,
            present@.len() == num_data,
            num_data <= shards@.len(),
            views.len() == shards@.len(),
            forall|k: int| pos <= k < shards@.len() ==> views[k] == optional_shard_views(shards@)[k],
            forall|j: int| 0 <= j < out@.len() ==> (#[trigger] out@[j]).wf(),
            shred_views(out@) == recovered_upto(views, present@, slot, num_data as nat, pos as nat),
        decreases num_data - pos,
    {
        assert(views[pos as int] == optional_shard_views(shards@)[pos as int]);
        let mut taken: Option<Vec<u8>> = None;
        std::mem::swap(&mut taken, &mut shards[pos]);
        if !present[pos] {
            if let Some(bytes) = taken {
                match Shred::new_from_serialized_shred(bytes) {
                    Ok(shred) => {
                        if shred.slot() == slot && shred.is_data() {
                            match shred.erasure_shard_index() {
                                Some(k) => {
                                    if k < num_data {
                                        out.push(shred);
                                    }
                                },
                                None => {},
                            }
                        }
                    },
                    Err(_) => {},
                }
            }
        }
        assert(shred_views(out@) =~= recovered_upto(views, present@, slot, num_data as nat, (pos + 1) as nat));
        pos += 1;
    }
    out
}

/// What reassembly has gathered so far: the data, the last index seen, and
/// whether the last shred completed the data.
pub type DeshredState = (Seq<u8>, Option<u32>, bool);

/// Takes in one more payload.
pub open spec fn deshred_step(st: DeshredState, p: Seq<u8>) -> Result<DeshredState, ShredError> {
    if st.2 {
        Err(ShredError::InvalidDeshredSet)
    } else if p.len() < SIZE_OF_COMMON_SHRED_HEADER {
        Err(ShredError::InvalidPayloadSize(p.len() as usize))
    } else if st.1 matches Some(prev) && (prev == u32::MAX || index_of(p) != prev + 1) {
        Err(ShredError::ErasureError(reed_solomon_erasure::Error::TooFewDataShards))
    } else {
        match data_result(p) {
            Err(e) => Err(e),
            Ok(d) => match flags_result(p) {
                Err(e) => Err(e),
                Ok(f) => Ok((st.0 + d, Some(index_of(p)), f & DATA_COMPLETE_SHRED == DATA_COMPLETE_SHRED)),
            },
        }
    }
}

/// Takes in the payloads in order; the first failure sticks.
pub open spec fn deshred_fold(ps: Seq<Seq<u8>>) -> Result<DeshredState, ShredError>
    decreases ps.len(),
{
    if ps.len() == 0 {
        Ok((seq![], None, false))
    } else {
        match deshred_fold(ps.drop_last()) {
            Err(e) => Err(e),
            Ok(st) => deshred_step(st, ps.last()),
        }
    }
}

/// What reassembling `ps` gives: their data, in order, if their indices
/// are consecutive and the last one, and only it, completes the data.
/// Empty data comes back as a zeroed data shred's worth of bytes.
pub open spec fn deshred_result(ps: Seq<Seq<u8>>) -> Result<Seq<u8>, ShredError> {
    match deshred_fold(ps) {
        Err(e) => Err(e),
        Ok(st) => if !st.2 {
            Err(ShredError::ErasureError(reed_solomon_erasure::Error::TooFewDataShards))
        } else if st.0.len() == 0 {
            Ok(Seq::new(data_capacity(false), |_i: int| 0u8))
        } else {
            Ok(st.0)
        },
    }
}

proof fn lemma_deshred_fold_err(ps: Seq<Seq<u8>>, i: nat, e: ShredError)
    requires
        i <= ps.len(),
        deshred_fold(ps.take(i as int)) == Err::<DeshredState, ShredError>(e),
    ensures
        deshred_fold(ps) == Err::<DeshredState, ShredError>(e),
    decreases ps.len() - i,
{
    if i < ps.len() {
        assert(ps.take(i + 1 as int).drop_last() =~= ps.take(i as int));
        lemma_deshred_fold_err(ps, i + 1, e);
    } else {
        assert(ps.take(i as int) =~= ps);
    }
}

impl Shredder {
    /// The data shreds the data shredder makes fall into FEC sets the
    /// coding shredder takes.
    pub proof fn lemma_data_shreds_well_grouped(
        &self,
        shreds: Seq<Seq<u8>>,
        data: Seq<u8>,
        is_last_in_slot: bool,
        chained_root: Option<Seq<u8>>,
        next_shred_index: u32,
        merkle: bool,
    )
        requires
            self.data_shreds_for(shreds, data, is_last_in_slot, chained_root, next_shred_index, merkle),
            next_shred_index + shreds.len() <= u32::MAX + 1,
        ensures
            well_grouped(shreds),
    {
        reveal(well_grouped);
        let k = shreds.len();
        lemma_num_shreds_for(data.len(), data_capacity(chained_root is Some), merkle);
        lemma_shred_offsets(merkle, k);
        assert forall|i: int| 0 <= i < shreds.len() implies {
            &&& payload_wf(#[trigger] shreds[i])
            &&& is_data_variant(variant_of(shreds[i]))
            &&& (i == 0 || fec_set_index_of(shreds[i]) != fec_set_index_of(shreds[i - 1]))
                ==> index_of(shreds[i]) == fec_set_index_of(shreds[i])
            &&& (i > 0 && fec_set_index_of(shreds[i]) == fec_set_index_of(shreds[i - 1])) ==> slot_of(
                shreds[i],
            ) == slot_of(shreds[i - 1]) && version_of(shreds[i]) == version_of(shreds[i - 1])
        } by {
            assert(0 <= shred_offset(merkle, k, i) <= i);
            if i > 0 {
                assert(0 <= shred_offset(merkle, k, i - 1) <= i - 1);
                assert(is_data_shred(
                    shreds[i - 1],
                    self.spec_slot(),
                    (next_shred_index + (i - 1)) as u32,
                    (self.spec_slot() - self.spec_parent_slot()) as u16,
                    chunk_of(data, data_capacity(chained_root is Some), (i - 1) as nat),
                    flags_byte(completion_flags((i - 1) as nat, k, is_last_in_slot), self.spec_reference_tick()),
                    self.spec_version(),
                    (next_shred_index + shred_offset(merkle, k, i - 1)) as u32,
                    chained_root,
                ));
            }
        }
    }

    pub closed spec fn spec_slot(&self) -> Slot {
        self.slot
    }

    pub closed spec fn spec_parent_slot(&self) -> Slot {
        self.parent_slot
    }

    pub closed spec fn spec_version(&self) -> u16 {
        self.version
    }

    pub closed spec fn spec_reference_tick(&self) -> u8 {
        self.reference_tick
    }

    /// Every shredder's parent slot is at most `u16::MAX` slots before its slot.
    #[verifier::type_invariant]
    spec fn inv(&self) -> bool {
        self.parent_slot <= self.slot && self.slot - self.parent_slot <= u16::MAX
    }

    /// The parent slot is at most `u16::MAX` slots before the slot; true of
    /// every shredder.
    pub open spec fn wf(&self) -> bool {
        self.spec_parent_slot() <= self.spec_slot() && self.spec_slot() - self.spec_parent_slot()
            <= u16::MAX
    }

    /// A shredder for `slot`, whose parent is `parent_slot`.
    pub fn new(slot: Slot, parent_slot: Slot, reference_tick: u8, version: u16) -> (r: Result<
        Shredder,
        ShredError,
    >)
        ensures
            match r {
                Ok(s) => {
                    &&& parent_slot <= slot && slot - parent_slot <= u16::MAX
                    &&& s.wf()
                    &&& s.spec_slot() == slot
                    &&& s.spec_parent_slot() == parent_slot
                    &&& s.spec_reference_tick() == reference_tick
                    &&& s.spec_version() == version
                },
                Err(e) => {
                    &&& !(parent_slot <= slot && slot - parent_slot <= u16::MAX)
                    &&& e == ShredError::InvalidParentSlot { slot, parent_slot }
                },
            },
    {
        if slot < parent_slot || slot - parent_slot > u16::MAX as u64 {
            Err(ShredError::InvalidParentSlot { slot, parent_slot })
        } else {
            Ok(Shredder { slot, parent_slot, reference_tick, version })
        }
    }

    pub fn slot(&self) -> (r: Slot)
        ensures
            r == self.spec_slot(),
    {
        self.slot
    }

    pub fn parent_slot(&self) -> (r: Slot)
        ensures
            r == self.spec_parent_slot(),
    {
        self.parent_slot
    }

    pub fn version(&self) -> (r: u16)
        ensures
            r == self.spec_version(),
    {
        self.version
    }

    pub fn reference_tick(&self) -> (r: u8)
        ensures
            r == self.spec_reference_tick(),
    {
        self.reference_tick
    }

    /// `shreds` are the data shreds this shredder makes for `data`: one per
    /// `data_capacity` bytes, indexed from `next_shred_index`, the last one
    /// marked complete. With `merkle`, they are padded out with empty data
    /// shreds to whole FEC sets of 32; otherwise the planner cuts the FEC
    /// sets.
    pub open spec fn data_shreds_for(
        &self,
        shreds: Seq<Seq<u8>>,
        data: Seq<u8>,
        is_last_in_slot: bool,
        chained_root: Option<Seq<u8>>,
        next_shred_index: u32,
        merkle: bool,
    ) -> bool {
        let cap = data_capacity(chained_root is Some);
        let k = num_shreds_for(data.len(), cap, merkle);
        &&& shreds.len() == k
        &&& forall|i: int|
            0 <= i < k ==> is_data_shred(
                #[trigger] shreds[i],
                self.spec_slot(),
                (next_shred_index + i) as u32,
                (self.spec_slot() - self.spec_parent_slot()) as u16,
                chunk_of(data, cap, i as nat),
                flags_byte(completion_flags(i as nat, k, is_last_in_slot), self.spec_reference_tick()),
                self.spec_version(),
                (next_shred_index + shred_offset(merkle, k, i)) as u32,
                chained_root,
            )
    }

    /// Cuts `data` into signed data shreds indexed from `next_shred_index`,
    /// in FEC sets as the planner cuts them. Fails with `IndexOverflow`
    /// where the indices would pass `u32::MAX`.
    pub fn make_data_shreds(
        &self,
        keypair: &Keypair,
        data: &[u8],
        is_last_in_slot: bool,
        chained_merkle_root: &Option<Vec<u8>>,
        next_shred_index: u32,
    ) -> (r: Result<Vec<Shred>, ShredError>)
        requires
            chained_merkle_root matches Some(root) ==> root@.len() == SIZE_OF_MERKLE_ROOT,
        ensures
            ({
                let k = num_shreds_for(data@.len(), data_capacity(chained_merkle_root is Some), false);
                match r {
                    Ok(shreds) => {
                        &&& next_shred_index + k <= u32::MAX + 1
                        &&& shreds@.len() <= usize::MAX / 2
                        &&& forall|i: int| 0 <= i < shreds@.len() ==> (#[trigger] shreds@[i]).wf()
                        &&& self.data_shreds_for(
                            shred_views(shreds@),
                            data@,
                            is_last_in_slot,
                            root_view(*chained_merkle_root),
                            next_shred_index,
                            false,
                        )
                    },
                    Err(e) => next_shred_index + k > u32::MAX + 1 && e == ShredError::IndexOverflow,
                }
            }),
    {
        self.make_data_shreds_with(keypair, data, is_last_in_slot, chained_merkle_root, next_shred_index, false)
    }

    /// Cuts `data` into signed data shreds indexed from `next_shred_index`:
    /// in Merkle batches of 32 with `merkle`, else as the planner cuts them.
    fn make_data_shreds_with(
        &self,
        keypair: &Keypair,
        data: &[u8],
        is_last_in_slot: bool,
        chained_merkle_root: &Option<Vec<u8>>,
        next_shred_index: u32,
        merkle: bool,
    ) -> (r: Result<Vec<Shred>, ShredError>)
        requires
            chained_merkle_root matches Some(root) ==> root@.len() == SIZE_OF_MERKLE_ROOT,
        ensures
            ({
                let k = num_shreds_for(data@.len(), data_capacity(chained_merkle_root is Some), merkle);
                match r {
                    Ok(shreds) => {
                        &&& next_shred_index + k <= u32::MAX + 1
                        &&& shreds@.len() <= usize::MAX / 2
                        &&& forall|i: int| 0 <= i < shreds@.len() ==> (#[trigger] shreds@[i]).wf()
                        &&& self.data_shreds_for(
                            shred_views(shreds@),
                            data@,
                            is_last_in_slot,
                            root_view(*chained_merkle_root),
                            next_shred_index,
                            merkle,
                        )
                    },
                    Err(e) => next_shred_index + k > u32::MAX + 1 && e == ShredError::IndexOverflow,
                }
            }),
    {
        proof {
            use_type_invariant(self);
        }
        let cap = capacity(chained_merkle_root.is_some());
        let len = data.len();
        let num_chunks: usize = if len % cap == 0 { len / cap } else { len / cap + 1 };
        proof {
            let (l, c, nc, m) = (len as nat, cap as nat, num_chunks as nat, usize::MAX as nat);
            assert(nc <= l / 1000 + 1) by (nonlinear_arith)
                requires
                    nc == (if l % c == 0 { l / c } else { l / c + 1 }),
                    c >= 1000,
            ;
            assert(l / 1000 + 32 <= m / 2) by (nonlinear_arith)
                requires
                    l <= m,
                    m >= 0xffff_ffff,
            ;
        }
        let k: usize = if !merkle || num_chunks % 32 == 0 {
            num_chunks
        } else {
            (num_chunks / 32 + 1) * 32
        };
        if k as u64 + next_shred_index as u64 > u32::MAX as u64 + 1 {
            return Err(ShredError::IndexOverflow);
        }
        assert(k <= usize::MAX / 2) by (nonlinear_arith)
            requires
                k <= num_chunks + 31,
                num_chunks <= len / 1000 + 1,
                len / 1000 + 32 <= usize::MAX / 2,
        ;
        let offsets = if merkle {
            Vec::new()
        } else {
            get_fec_set_offsets(k, DATA_SHREDS_PER_FEC_BLOCK)
        };
        proof {
            lemma_shred_offsets(merkle, k as nat);
            if !merkle {
                lemma_fec_set_offsets_len(k as nat, DATA_SHREDS_PER_FEC_BLOCK as nat);
            } else {
                let (kk, nc) = (k as nat, num_chunks as nat);
                assert(kk % 32 == 0 && kk >= nc) by (nonlinear_arith)
                    requires
                        kk == (if nc % 32 == 0 { nc } else { (nc / 32 + 1) * 32 }),
                ;
            }
        }
        let parent_offset = (self.slot - self.parent_slot) as u16;
        let mut shreds: Vec<Shred> = Vec::new();
        let mut i: usize = 0;
        while i < k
            invariant
                self.wf(),
                cap == data_capacity(chained_merkle_root is Some),
                cap > 0,
                len == data@.len(),
                num_chunks == num_data_shreds(len as nat, cap as nat),
                k == num_shreds_for(len as nat, cap as nat, merkle),
                k >= num_chunks,
                k + next_shred_index <= u32::MAX + 1,
                !merkle ==> offsets@.len() == k,
                !merkle ==> forall|j: int| 0 <= j < k ==> offsets@[j] as int == #[trigger] fec_set_offsets(
                    k as nat,
                    DATA_SHREDS_PER_FEC_BLOCK as nat,
                )[j],
                forall|j: int| 0 <= j < k ==> 0 <= #[trigger] shred_offset(merkle, k as nat, j) <= j,
                parent_offset == (self.slot - self.parent_slot) as u16,
                chained_merkle_root matches Some(root) ==> root@.len() == SIZE_OF_MERKLE_ROOT,
                i <= k,
                shreds@.len() == i,
                forall|j: int| 0 <= j < i ==> (#[trigger] shreds@[j]).wf(),
                forall|j: int|
                    0 <= j < i ==> is_data_shred(
                        (#[trigger] shreds@[j])@,
                        self.slot,
                        (next_shred_index + j) as u32,
                        parent_offset,
                        chunk_of(data@, cap as nat, j as nat),
                        flags_byte(completion_flags(j as nat, k as nat, is_last_in_slot), self.reference_tick),
                        self.version,
                        (next_shred_index + shred_offset(merkle, k as nat, j)) as u32,
                        root_view(*chained_merkle_root),
                    ),
            decreases k - i,
        {
            proof {
                lemma_chunk_bounds(len as nat, cap as nat, i as nat);
            }
            let start = if i < num_chunks { i * cap } else { len };
            let end = if cap <= len - start { start + cap } else { len };
            let chunk = vstd::slice::slice_subrange(data, start, end);
            assert(0 <= shred_offset(merkle, k as nat, i as int) <= i);
            let offset: usize = if merkle {
                (i / 32) * 32
            } else {
                assert(offsets@[i as int] as int == fec_set_offsets(
                    k as nat,
                    DATA_SHREDS_PER_FEC_BLOCK as nat,
                )[i as int]);
                offsets[i]
            };
            assert(offset as int == shred_offset(merkle, k as nat, i as int) && offset <= i);
            let flags = if i + 1 < k {
                0u8
            } else if is_last_in_slot {
                LAST_SHRED_IN_SLOT
            } else {
                DATA_COMPLETE_SHRED
            };
            let mut shred = Shred::new_from_data(
                self.slot,
                next_shred_index + i as u32,
                parent_offset,
                chunk,
                flags,
                self.reference_tick,
                self.version,
                next_shred_index + offset as u32,
                chained_merkle_root,
            );
            let ghost unsigned = shred@;
            shred.sign(keypair);
            proof {
                crate::shred::lemma_same_body(unsigned, shred@);
            }
            shreds.push(shred);
            i += 1;
        }
        proof {
            assert(shred_views(shreds@).len() == k);
            assert forall|j: int| 0 <= j < k implies #[trigger] shred_views(shreds@)[j]
                == shreds@[j]@ by {}
        }
        Ok(shreds)
    }

    /// Makes the (unsigned) code shreds of one FEC set of data shreds,
    /// indexed from `next_code_index`.
    pub fn generate_coding_shreds(
        data: &[Shred],
        next_code_index: u32,
        reed_solomon_cache: &ReedSolomonCache,
    ) -> (r: Result<Vec<Shred>, ShredError>)
        requires
            is_fec_group(shred_views(data@)),
            data@.len() <= usize::MAX / 2,
        ensures
            ({
                let group = shred_views(data@);
                let n = group.len();
                let p = num_parity_for(group);
                &&& next_code_index + p > u32::MAX + 1 ==> r == Err::<Vec<Shred>, ShredError>(
                    ShredError::IndexOverflow,
                )
                &&& next_code_index + p <= u32::MAX + 1 && codec_error(n, p) is Some ==> r == Err::<
                    Vec<Shred>,
                    ShredError,
                >(ShredError::ErasureError(codec_error(n, p)->0))
                &&& next_code_index + p <= u32::MAX + 1 && codec_error(n, p) is None ==> r is Ok
                // Over 128 data shreds a batch needs more than 256 shards.
                &&& next_code_index + p <= u32::MAX + 1 && n > 128 ==> r == Err::<Vec<Shred>, ShredError>(
                    ShredError::ErasureError(reed_solomon_erasure::Error::TooManyShards),
                )
                &&& match r {
                    Ok(code) => {
                        &&& forall|j: int| 0 <= j < code@.len() ==> (#[trigger] code@[j]).wf()
                        &&& is_coding_for(shred_views(code@), group, next_code_index as nat)
                    },
                    Err(e) => e is IndexOverflow || e is ErasureError,
                }
            }),
    {
        let ghost group = shred_views(data@);
        let n = data.len();
        assert(data@[n - 1]@ == group.last());
        assert(data@[0]@ == group[0]);
        let last = data[n - 1].last_in_slot();
        let batch = get_erasure_batch_size(n, last);
        let p: usize = if batch > n { batch - n } else { 0 };
        if next_code_index as u64 + p as u64 > u32::MAX as u64 + 1 {
            return Err(ShredError::IndexOverflow);
        }
        let codec = match reed_solomon_cache.get(n, p) {
            Ok(codec) => codec,
            Err(e) => return Err(ShredError::ErasureError(e)),
        };
        let slot = data[0].slot();
        let version = data[0].version();
        let fec_set_index = data[0].fec_set_index();
        let mut shards: Vec<Vec<u8>> = Vec::new();
        let mut i: usize = 0;
        while i < n
            invariant
                i <= n,
                n == data@.len(),
                group == shred_views(data@),
                is_fec_group(group),
                shards@.len() == i,
                forall|k: int| 0 <= k < i ==> (#[trigger] shards@[k])@ == group[k],
            decreases n - i,
        {
            assert(data@[i as int]@ == group[i as int]);
            shards.push(vstd::slice::slice_to_vec(data[i].erasure_shard()));
            i += 1;
        }
        assert(shard_views(shards@) =~= group);
        assert forall|k: int| 0 <= k < n implies (#[trigger] shards@[k])@.len() == shards@[0]@.len() by {
            assert(shards@[k]@ == group[k]);
            assert(shards@[0]@ == group[0]);
        }
        let mut parity: Vec<Vec<u8>> = Vec::new();
        let mut j: usize = 0;
        while j < p
            invariant
                j <= p,
                parity@.len() == j,
                forall|k: int| 0 <= k < j ==> (#[trigger] parity@[k])@.len() == SIZE_OF_DATA_PAYLOAD,
            decreases p - j,
        {
            parity.push(vec![0u8; SIZE_OF_DATA_PAYLOAD]);
            j += 1;
        }
        match encode_parity(&codec, &shards, &mut parity) {
            Ok(()) => {},
            Err(e) => return Err(ShredError::ErasureError(e)),
        }
        let ghost parity_views = rs_parity(group, p as nat);
        assert(shard_views(parity@) == parity_views);
        let mut code: Vec<Shred> = Vec::new();
        let mut j: usize = 0;
        while j < p
            invariant
                j <= p,
                p + n <= 256,
                next_code_index + p <= u32::MAX + 1,
                parity@.len() == p,
                forall|k: int| 0 <= k < p ==> (#[trigger] parity@[k])@.len() == SIZE_OF_DATA_PAYLOAD,
                shard_views(parity@) == parity_views,
                code@.len() == j,
                forall|k: int| 0 <= k < j ==> (#[trigger] code@[k]).wf(),
                forall|k: int|
                    0 <= k < j ==> is_code_shred(
                        (#[trigger] code@[k])@,
                        slot,
                        (next_code_index + k) as u32,
                        parity_views[k],
                        fec_set_index,
                        n as u16,
                        p as u16,
                        k as u16,
                        version,
                    ),
            decreases p - j,
        {
            assert(parity@[j as int]@ == parity_views[j as int]);
            let shred = Shred::new_from_parity_shard(
                slot,
                next_code_index + j as u32,
                parity[j].as_slice(),
                fec_set_index,
                n as u16,
                p as u16,
                j as u16,
                version,
            );
            code.push(shred);
            j += 1;
        }
        assert forall|k: int| 0 <= k < p implies #[trigger] shred_views(code@)[k] == code@[k]@ by {}
        Ok(code)
    }

    /// Makes the signed code shreds of every FEC set of `data_shreds`, with
    /// code indices running on from `next_code_index`.
    pub fn data_shreds_to_coding_shreds(
        keypair: &Keypair,
        data_shreds: &[Shred],
        next_code_index: u32,
        reed_solomon_cache: &ReedSolomonCache,
    ) -> (r: Result<Vec<Shred>, ShredError>)
        requires
            well_grouped(shred_views(data_shreds@)),
            data_shreds@.len() <= usize::MAX / 2,
        ensures
            match r {
                Ok(code) => {
                    &&& forall|j: int| 0 <= j < code@.len() ==> (#[trigger] code@[j]).wf()
                    &&& coding_for_groups(
                        shred_views(code@),
                        fec_groups(shred_views(data_shreds@)),
                        next_code_index as nat,
                    )
                },
                Err(e) => e is IndexOverflow || e is ErasureError,
            },
            next_code_index + total_parity(fec_groups(shred_views(data_shreds@))) <= u32::MAX + 1
                && groups_codable(fec_groups(shred_views(data_shreds@))) ==> r is Ok,
            r matches Ok(code) ==> code@.len() == total_parity(fec_groups(shred_views(data_shreds@)))
                && next_code_index + code@.len() <= u32::MAX + 1,
            groups_codable(fec_groups(shred_views(data_shreds@))) ==> (r matches Err(e) ==> e
                == ShredError::IndexOverflow),
    {
        let ghost data = shred_views(data_shreds@);
        let ghost fits = next_code_index + total_parity(fec_groups(data)) <= u32::MAX + 1
            && groups_codable(fec_groups(data));
        let ghost codable = groups_codable(fec_groups(data));
        let n = data_shreds.len();
        let mut code: Vec<Shred> = Vec::new();
        let mut next: u64 = next_code_index as u64;
        let ghost mut done: Seq<Seq<Seq<u8>>> = seq![];
        proof {
            assert(data.skip(0) =~= data);
            assert(done + fec_groups(data.skip(0)) =~= fec_groups(data));
        }
        let mut i: usize = 0;
        while i < n
            invariant
                n == data_shreds@.len(),
                data == shred_views(data_shreds@),
                n <= usize::MAX / 2,
                well_grouped(data),
                i <= n,
                i == 0 || i == n || fec_set_index_of(data[i as int]) != fec_set_index_of(data[i - 1]),
                fec_groups(data) == done + fec_groups(data.skip(i as int)),
                next == next_code_index + code@.len(),
                next <= u32::MAX + 1,
                fits == (next_code_index + total_parity(fec_groups(data)) <= u32::MAX + 1
                    && groups_codable(fec_groups(data))),
                codable == groups_codable(fec_groups(data)),
                codable ==> groups_codable(fec_groups(data.skip(i as int))),
                fits ==> code@.len() == total_parity(done) && i < n ==> next_code_index
                    + total_parity(done) + total_parity(fec_groups(data.skip(i as int)))
                    <= u32::MAX + 1 && groups_codable(fec_groups(data.skip(i as int))),
                forall|j: int| 0 <= j < code@.len() ==> (#[trigger] code@[j]).wf(),
                coding_for_groups(shred_views(code@), done, next_code_index as nat),
            decreases n - i,
        {
            // The FEC set starting at `i` runs up to `j`.
            let j = fec_set_end(data_shreds, i);
            proof {
                if fits {
                    lemma_coding_len(shred_views(code@), done, next_code_index as nat);
                }
            }
            if next > u32::MAX as u64 {
                proof {
                    if fits {
                        lemma_next_group(data, i as int, j as int);
                        let rest = fec_groups(data.skip(i as int));
                        assert(rest[0] == data.subrange(i as int, j as int));
                        assert(codec_error(rest[0].len(), num_parity_for(rest[0])) is None);
                        assert(rest.drop_first() =~= fec_groups(data.skip(j as int)));
                    }
                }
                return Err(ShredError::IndexOverflow);
            }
            let group_shreds = vstd::slice::slice_subrange(data_shreds, i, j);
            let ghost group = shred_views(group_shreds@);
            proof {
                assert(group =~= data.subrange(i as int, j as int));
                lemma_next_group(data, i as int, j as int);
                if codable {
                    let rest = fec_groups(data.skip(i as int));
                    assert(rest[0] == group);
                    assert(codec_error(group.len(), num_parity_for(group)) is None);
                    assert(rest.drop_first() =~= fec_groups(data.skip(j as int)));
                    assert forall|g: int| 0 <= g < rest.drop_first().len() implies codec_error(
                        (#[trigger] rest.drop_first()[g]).len(),
                        num_parity_for(rest.drop_first()[g]),
                    ) is None by {
                        assert(rest.drop_first()[g] == rest[g + 1]);
                    }
                }
            }
            let mut group_code = Self::generate_coding_shreds(
                group_shreds,
                next as u32,
                reed_solomon_cache,
            )?;
            let ghost unsigned = shred_views(group_code@);
            sign_all(&mut group_code, keypair);
            proof {
                lemma_signed_coding(unsigned, shred_views(group_code@), group, next as nat);
            }
            let ghost before = shred_views(code@);
            let ghost added = shred_views(group_code@);
            let added_len = group_code.len();
            code.append(&mut group_code);
            proof {
                assert(shred_views(code@) =~= before + added);
                lemma_coding_for_groups_push(before, done, next_code_index as nat, added, group);
                lemma_total_parity_push(done, group);
                done = done.push(group);
                assert(fec_groups(data) =~= done + fec_groups(data.skip(j as int)));
            }
            next = next + added_len as u64;
            i = j;
        }
        proof {
            assert(data.skip(n as int) =~= Seq::<Seq<u8>>::empty());
            assert(done + fec_groups(data.skip(n as int)) =~= done);
            lemma_coding_len(shred_views(code@), done, next_code_index as nat);
        }
        Ok(code)
    }

    /// Recovers the missing data shreds of one FEC set from the shreds of
    /// it that arrived, data and code. Returns only shreds at positions
    /// that no input shred held; nothing where no code shred tells the
    /// set's dimensions or nothing is missing.
    pub fn try_recovery(
        shreds: Vec<Shred>,
        reed_solomon_cache: &ReedSolomonCache,
    ) -> (r: Result<Vec<Shred>, ShredError>)
        ensures
            ({
                let input = shred_views(shreds@);
                let code = first_code(input)->0;
                let num_data = num_data_of(code) as nat;
                let num_coding = num_coding_of(code) as nat;
                let fec_set_size = num_data + num_coding;
                let done = first_code(input) is None || num_coding == 0 || input.len() >= fec_set_size;
                let bad_index = exists|i: int|
                    0 <= i < input.len() && !(erasure_shard_index_of(#[trigger] input[i]) matches Some(
                        k,
                    ) && k < fec_set_size);
                &&& input.len() == 0 ==> r == Err::<Vec<Shred>, ShredError>(
                    ShredError::ErasureError(reed_solomon_erasure::Error::TooFewShardsPresent),
                )
                &&& input.len() > 0 && done ==> (r matches Ok(v) && v@.len() == 0)
                &&& input.len() > 0 && !done && bad_index ==> r == Err::<Vec<Shred>, ShredError>(
                    ShredError::ErasureError(reed_solomon_erasure::Error::InvalidIndex),
                )
                &&& input.len() > 0 && !done && !bad_index && codec_error(num_data, num_coding) is Some
                    ==> r == Err::<Vec<Shred>, ShredError>(
                    ShredError::ErasureError(codec_error(num_data, num_coding)->0),
                )
                &&& input.len() > 0 && !done && !bad_index && codec_error(num_data, num_coding) is None
                    && count_present(laid_out(input, fec_set_size)) >= num_data ==> r is Ok
                &&& input.len() > 0 && !done && !bad_index && codec_error(num_data, num_coding) is None
                    && count_present(laid_out(input, fec_set_size)) < num_data ==> r == Err::<
                    Vec<Shred>,
                    ShredError,
                >(ShredError::ErasureError(reed_solomon_erasure::Error::TooFewShardsPresent))
                // Where the shreds present are those of the batch some data
                // shreds encode into, the missing ones among those come back.
                &&& (r matches Ok(v) && input.len() > 0 && !done) ==> forall|d: Seq<Seq<u8>>|
                    d.len() == num_data && #[trigger] consistent_with(
                        laid_out(input, fec_set_size),
                        d,
                        num_coding,
                    ) ==> shred_views(r->Ok_0@) == recovered_upto(
                        Seq::new(num_data, |i: int| Some(d[i])),
                        Seq::new(num_data, |pos: int| position_present(input, pos)),
                        slot_of(input[0]),
                        num_data,
                        num_data,
                    )
                &&& r matches Err(e) ==> e is ErasureError
                &&& r matches Ok(v) ==> {
                    &&& forall|j: int| 0 <= j < v@.len() ==> (#[trigger] v@[j]).wf()
                    &&& (input.len() > 0 && !done) ==> shred_views(v@) == recovered_upto(
                        rs_recovered(laid_out(input, fec_set_size), num_data),
                        Seq::new(num_data, |pos: int| position_present(input, pos)),
                        slot_of(input[0]),
                        num_data,
                        num_data,
                    )
                }
            }),
    {
        let ghost input = shred_views(shreds@);
        let n = shreds.len();
        if n == 0 {
            return Err(ShredError::ErasureError(reed_solomon_erasure::Error::TooFewShardsPresent));
        }
        assert(shreds@[0]@ == input[0]);
        let slot = shreds[0].slot();
        // The first code shred tells the set's dimensions.
        assert(input.skip(0) =~= input);
        let mut i: usize = 0;
        while i < n && !shreds[i].is_code()
            invariant
                n == shreds@.len(),
                input == shred_views(shreds@),
                i <= n,
                first_code(input) == first_code(input.skip(i as int)),
            decreases n - i,
        {
            assert(shreds@[i as int]@ == input[i as int]);
            assert(input.skip(i as int).drop_first() =~= input.skip(i + 1));
            i += 1;
        }
        if i == n {
            assert(input.skip(n as int) =~= Seq::<Seq<u8>>::empty());
            return Ok(Vec::new());
        }
        assert(shreds@[i as int]@ == input[i as int]);
        assert(input.skip(i as int)[0] == input[i as int]);
        let num_data = match shreds[i].num_data_shreds() {
            Some(k) => k as usize,
            None => 0,
        };
        let num_coding = match shreds[i].num_coding_shreds() {
            Some(k) => k as usize,
            None => 0,
        };
        let fec_set_size = num_data + num_coding;
        assert(first_code(input.skip(i as int)) == Some(input[i as int]));
        assert(first_code(input) == Some(input[i as int]));
        assert(num_data == num_data_of(input[i as int]) && num_coding == num_coding_of(input[i as int]));
        if num_coding == 0 || n >= fec_set_size {
            return Ok(Vec::new());
        }
        // Lay the shards out by erasure position, marking the data
        // positions that arrived.
        let mut present: Vec<bool> = Vec::new();
        let mut k: usize = 0;
        while k < num_data
            invariant
                k <= num_data,
                present@.len() == k,
                forall|t: int| 0 <= t < k ==> !(#[trigger] present@[t]),
            decreases num_data - k,
        {
            present.push(false);
            k += 1;
        }
        let mut shards: Vec<Option<Vec<u8>>> = Vec::new();
        let mut k: usize = 0;
        while k < fec_set_size
            invariant
                k <= fec_set_size,
                shards@.len() == k,
                forall|t: int| 0 <= t < k ==> (#[trigger] shards@[t]) is None,
            decreases fec_set_size - k,
        {
            shards.push(None);
            k += 1;
        }
        assert(input.take(0) =~= Seq::<Seq<u8>>::empty());
        assert(optional_shard_views(shards@) =~= laid_out(input.take(0), fec_set_size as nat));
        let mut j: usize = 0;
        while j < n
            invariant
                n == shreds@.len(),
                input == shred_views(shreds@),
                j <= n,
                shards@.len() == fec_set_size,
                optional_shard_views(shards@) == laid_out(input.take(j as int), fec_set_size as nat),
                forall|q: int|
                    0 <= q < fec_set_size && (#[trigger] optional_shard_views(shards@)[q]) is Some
                        ==> optional_shard_views(shards@)[q]->0.len() == SIZE_OF_DATA_PAYLOAD,
                present@.len() == num_data,
                num_data + num_coding == fec_set_size,
                i < n,
                first_code(input) == Some(input[i as int]),
                num_data == num_data_of(input[i as int]),
                num_coding == num_coding_of(input[i as int]),
                num_coding != 0,
                n < fec_set_size,
                forall|t: int|
                    0 <= t < j ==> (erasure_shard_index_of(#[trigger] input[t]) matches Some(p) && p
                        < fec_set_size),
                forall|pos: int|
                    0 <= pos < num_data ==> #[trigger] present@[pos] == exists|t: int|
                        0 <= t < j && erasure_shard_index_of(#[trigger] input[t]) == Some(pos),
            decreases n - j,
        {
            assert(shreds@[j as int]@ == input[j as int]);
            let pos = match shreds[j].erasure_shard_index() {
                Some(pos) => {
                    if pos >= fec_set_size {
                        proof {
                            assert(!(erasure_shard_index_of(input[j as int]) matches Some(p) && p < fec_set_size));
                        assert(exists|t: int|
                            0 <= t < input.len() && !(erasure_shard_index_of(#[trigger] input[t])
                                matches Some(k) && k < fec_set_size));
                        }
                        return Err(ShredError::ErasureError(reed_solomon_erasure::Error::InvalidIndex));
                    }
                    pos
                },
                None => {
                    proof {
                        assert(!(erasure_shard_index_of(input[j as int]) matches Some(p) && p < fec_set_size));
                        assert(exists|t: int|
                            0 <= t < input.len() && !(erasure_shard_index_of(#[trigger] input[t])
                                matches Some(k) && k < fec_set_size));
                    }
                    return Err(ShredError::ErasureError(reed_solomon_erasure::Error::InvalidIndex));
                },
            };
            let ghost before = optional_shard_views(shards@);
            let shard = vstd::slice::slice_to_vec(shreds[j].erasure_shard());
            shards.set(pos, Some(shard));
            proof {
                assert(input.take(j + 1 as int).drop_last() =~= input.take(j as int));
                assert(input.take(j + 1 as int).last() == input[j as int]);
                assert(optional_shard_views(shards@) =~= before.update(
                    pos as int,
                    Some(erasure_shard_of(input[j as int])),
                ));
            }
            if pos < num_data {
                present.set(pos, true);
            }
            proof {
                assert forall|q: int| 0 <= q < num_data implies #[trigger] present@[q] == exists|t: int|
                    0 <= t < j + 1 && erasure_shard_index_of(#[trigger] input[t]) == Some(q) by {
                    if q == pos {
                        assert(erasure_shard_index_of(input[j as int]) == Some(q));
                    }
                }
            }
            j += 1;
        }
        let codec = match reed_solomon_cache.get(num_data, num_coding) {
            Ok(codec) => codec,
            Err(e) => return Err(ShredError::ErasureError(e)),
        };
        proof {
            assert(input.take(n as int) =~= input);
            let present = optional_shard_views(shards@);
            assert(forall|q: int|
                0 <= q < present.len() && (#[trigger] present[q]) is Some ==> present[q]->0.len()
                    == SIZE_OF_DATA_PAYLOAD as nat);
        }
        match reconstruct_data(&codec, &mut shards) {
            Ok(()) => {},
            Err(e) => return Err(ShredError::ErasureError(e)),
        }
        assert(input.take(n as int) =~= input);
        assert(present@ =~= Seq::new(num_data as nat, |pos: int| position_present(input, pos)));
        let ghost restored = optional_shard_views(shards@);
        let recovered = recovered_shreds(shards, &present, slot, num_data);
        proof {
            assert forall|d: Seq<Seq<u8>>|
                d.len() == num_data && #[trigger] consistent_with(
                    laid_out(input, fec_set_size as nat),
                    d,
                    num_coding as nat,
                ) implies shred_views(recovered@) == recovered_upto(
                Seq::new(num_data as nat, |i: int| Some(d[i])),
                Seq::new(num_data as nat, |pos: int| position_present(input, pos)),
                slot_of(input[0]),
                num_data as nat,
                num_data as nat,
            ) by {
                lemma_recovered_upto_same(
                    restored,
                    Seq::new(num_data as nat, |i: int| Some(d[i])),
                    present@,
                    slot,
                    num_data as nat,
                    num_data as nat,
                );
            }
        }
        Ok(recovered)
    }

    /// Reassembles the data carried by `shreds`, serialized data shreds in
    /// index order.
    pub fn deshred(shreds: &[Vec<u8>]) -> (r: Result<Vec<u8>, ShredError>)
        ensures
            match r {
                Ok(d) => deshred_result(shreds@.map_values(|p: Vec<u8>| p@)) == Ok::<
                    Seq<u8>,
                    ShredError,
                >(d@),
                Err(e) => deshred_result(shreds@.map_values(|p: Vec<u8>| p@)) == Err::<
                    Seq<u8>,
                    ShredError,
                >(e),
            },
    {
        let ghost ps = shreds@.map_values(|p: Vec<u8>| p@);
        let mut data: Vec<u8> = Vec::new();
        let mut prev: Option<u32> = None;
        let mut complete = false;
        let mut i: usize = 0;
        assert(ps.take(0) =~= Seq::<Seq<u8>>::empty());
        while i < shreds.len()
            invariant
                ps == shreds@.map_values(|p: Vec<u8>| p@),
                i <= shreds@.len(),
                deshred_fold(ps.take(i as int)) == Ok::<DeshredState, ShredError>((data@, prev, complete)),
            decreases shreds@.len() - i,
        {
            let shred = shreds[i].as_slice();
            assert(shred@ == ps[i as int]);
            assert(ps.take(i + 1 as int).drop_last() =~= ps.take(i as int));
            assert(ps.take(i + 1 as int).last() == ps[i as int]);
            if complete {
                proof {
                    lemma_deshred_fold_err(ps, (i + 1) as nat, ShredError::InvalidDeshredSet);
                }
                return Err(ShredError::InvalidDeshredSet);
            }
            let index = match get_index(shred) {
                Some(index) => index,
                None => {
                    proof {
                        lemma_deshred_fold_err(ps, (i + 1) as nat, ShredError::InvalidPayloadSize(shred.len()));
                    }
                    return Err(ShredError::InvalidPayloadSize(shred.len()));
                },
            };
            if let Some(p) = prev {
                if p == u32::MAX || index != p + 1 {
                    let e = ShredError::ErasureError(reed_solomon_erasure::Error::TooFewDataShards);
                    proof {
                        lemma_deshred_fold_err(ps, (i + 1) as nat, e);
                    }
                    return Err(e);
                }
            }
            let chunk = match get_data(shred) {
                Ok(chunk) => chunk,
                Err(e) => {
                    proof {
                        lemma_deshred_fold_err(ps, (i + 1) as nat, e);
                    }
                    return Err(e);
                },
            };
            let flags = match get_flags(shred) {
                Ok(flags) => flags,
                Err(e) => {
                    proof {
                        lemma_deshred_fold_err(ps, (i + 1) as nat, e);
                    }
                    return Err(e);
                },
            };
            let mut piece = vstd::slice::slice_to_vec(chunk);
            data.append(&mut piece);
            prev = Some(index);
            complete = flags & DATA_COMPLETE_SHRED == DATA_COMPLETE_SHRED;
            i += 1;
        }
        assert(ps.take(i as int) =~= ps);
        if !complete {
            return Err(ShredError::ErasureError(reed_solomon_erasure::Error::TooFewDataShards));
        }
        if data.len() == 0 {
            let zeros = vec![0u8; capacity(false)];
            proof {
                assert(zeros@ =~= Seq::new(data_capacity(false), |_i: int| 0u8)) by {
                    assert forall|t: int| 0 <= t < zeros@.len() implies zeros@[t] == 0u8 by {
                        assert(cloned(0u8, zeros@[t]));
                    }
                }
            }
            Ok(zeros)
        } else {
            Ok(data)
        }
    }

    /// Makes the shreds of `data` in Merkle batches: its signed data shreds,
    /// indexed from `next_shred_index`, carrying the chained Merkle root if
    /// one is given and padded with empty data shreds to whole FEC sets of
    /// 32, followed by the 32 signed code shreds of each FEC set, indexed
    /// from `next_code_index`.
    #[verifier::rlimit(60)]
    pub fn make_shreds_from_data_slice(
        &self,
        keypair: &Keypair,
        data: &[u8],
        is_last_in_slot: bool,
        chained_merkle_root: Option<[u8; 32]>,
        next_shred_index: u32,
        next_code_index: u32,
        reed_solomon_cache: &ReedSolomonCache,
    ) -> (r: Result<Vec<Shred>, ShredError>)
        ensures
            ({
                let k = num_shreds_for(data@.len(), data_capacity(chained_merkle_root is Some), true);
                let root = match chained_merkle_root {
                    Some(b) => Some(b@),
                    None => None,
                };
                match r {
                    Ok(shreds) => {
                        let views = shred_views(shreds@);
                        &&& views.len() == 2 * k
                        &&& next_shred_index + k <= u32::MAX + 1
                        &&& next_code_index + k <= u32::MAX + 1
                        &&& forall|j: int| 0 <= j < shreds@.len() ==> (#[trigger] shreds@[j]).wf()
                        &&& self.data_shreds_for(
                            views.take(k as int),
                            data@,
                            is_last_in_slot,
                            root,
                            next_shred_index,
                            true,
                        )
                        &&& coding_for_groups(
                            views.skip(k as int),
                            fec_groups(views.take(k as int)),
                            next_code_index as nat,
                        )
                    },
                    Err(e) => {
                        &&& e == ShredError::IndexOverflow
                        &&& next_shred_index + k > u32::MAX + 1 || next_code_index + k > u32::MAX + 1
                    },
                }
            }),
    {
        let root: Option<Vec<u8>> = match &chained_merkle_root {
            Some(bytes) => Some(vstd::slice::slice_to_vec(bytes.as_slice())),
            None => None,
        };
        let mut shreds = self.make_data_shreds_with(
            keypair,
            data,
            is_last_in_slot,
            &root,
            next_shred_index,
            true,
        )?;
        let ghost data_views = shred_views(shreds@);
        let ghost cap = data_capacity(chained_merkle_root is Some);
        let k = shreds.len();
        proof {
            assert(root_view(root) == match chained_merkle_root {
                Some(b) => Some(b@),
                None => None::<Seq<u8>>,
            });
            self.lemma_data_shreds_well_grouped(
                data_views,
                data@,
                is_last_in_slot,
                root_view(root),
                next_shred_index,
                true,
            );
            lemma_num_shreds_for(data@.len(), cap, true);
            lemma_shred_offsets(true, k as nat);
            assert forall|t: int| 0 <= t < data_views.len() implies fec_set_index_of(#[trigger] data_views[t])
                == next_shred_index + (t / 32) * 32 by {
                assert(0 <= shred_offset(true, k as nat, t) <= t);
            }
            crate::laws::lemma_data_shred_groups_codable(
                *self,
                data_views,
                data@,
                is_last_in_slot,
                root_view(root),
                next_shred_index,
                true,
            );
        }
        let mut code = match Self::data_shreds_to_coding_shreds(
            keypair,
            shreds.as_slice(),
            next_code_index,
            reed_solomon_cache,
        ) {
            Ok(code) => code,
            Err(e) => {
                proof {
                    lemma_merkle_total_parity(data_views, next_shred_index as int);
                }
                return Err(e);
            },
        };
        let ghost code_views = shred_views(code@);
        proof {
            lemma_merkle_coding(data_views, code_views, next_shred_index as int, next_code_index as nat);
        }
        shreds.append(&mut code);
        proof {
            let views = shred_views(shreds@);
            assert(views =~= data_views + code_views);
            assert(views.take(k as int) =~= data_views);
            assert(views.skip(k as int) =~= code_views);
        }
        Ok(shreds)
    }

    /// The data shreds and the code shreds of `data`. With `merkle_variant`,
    /// in Merkle batches as `make_shreds_from_data_slice` makes them; without
    /// it, the data shreds carry no chained root and fall into FEC sets as the
    /// planner cuts them, and the code shreds follow those sets.
    pub fn shreds_from_data(
        &self,
        keypair: &Keypair,
        data: &[u8],
        is_last_in_slot: bool,
        chained_merkle_root: Option<[u8; 32]>,
        next_shred_index: u32,
        next_code_index: u32,
        merkle_variant: bool,
        reed_solomon_cache: &ReedSolomonCache,
    ) -> (r: Result<(Vec<Shred>, Vec<Shred>), ShredError>)
        ensures
            ({
                let root = if merkle_variant {
                    match chained_merkle_root {
                        Some(b) => Some(b@),
                        None => None,
                    }
                } else {
                    None
                };
                let k = num_shreds_for(data@.len(), data_capacity(root is Some), merkle_variant);
                match r {
                    Ok((data_shreds, code_shreds)) => {
                        let (d, c) = (shred_views(data_shreds@), shred_views(code_shreds@));
                        &&& next_shred_index + k <= u32::MAX + 1
                        &&& next_code_index + c.len() <= u32::MAX + 1
                        &&& forall|j: int| 0 <= j < data_shreds@.len() ==> (#[trigger] data_shreds@[j]).wf()
                        &&& forall|j: int| 0 <= j < code_shreds@.len() ==> (#[trigger] code_shreds@[j]).wf()
                        &&& self.data_shreds_for(d, data@, is_last_in_slot, root, next_shred_index, merkle_variant)
                        &&& coding_for_groups(c, fec_groups(d), next_code_index as nat)
                    },
                    Err(e) => {
                        &&& e == ShredError::IndexOverflow
                        &&& next_shred_index + k > u32::MAX + 1 || forall|
                            shreds: Seq<Seq<u8>>,
                        |
                            #[trigger] self.data_shreds_for(
                                shreds,
                                data@,
                                is_last_in_slot,
                                root,
                                next_shred_index,
                                merkle_variant,
                            ) ==> next_code_index + total_parity(fec_groups(shreds)) > u32::MAX + 1
                    },
                }
            }),
    {
        if merkle_variant {
            let mut shreds = match self.make_shreds_from_data_slice(
                keypair,
                data,
                is_last_in_slot,
                chained_merkle_root,
                next_shred_index,
                next_code_index,
                reed_solomon_cache,
            ) {
                Ok(shreds) => shreds,
                Err(e) => {
                    proof {
                        let root = match chained_merkle_root {
                            Some(b) => Some(b@),
                            None => None::<Seq<u8>>,
                        };
                        let k = num_shreds_for(data@.len(), data_capacity(root is Some), true);
                        assert forall|shreds: Seq<Seq<u8>>|
                            #[trigger] self.data_shreds_for(
                                shreds,
                                data@,
                                is_last_in_slot,
                                root,
                                next_shred_index,
                                true,
                            ) && next_shred_index + k <= u32::MAX + 1 implies next_code_index
                            + total_parity(fec_groups(shreds)) > u32::MAX + 1 by {
                            lemma_merkle_fec_total(*self, shreds, data@, is_last_in_slot, root, next_shred_index);
                        }
                    }
                    return Err(e);
                },
            };
            let ghost views = shred_views(shreds@);
            let k = shreds.len() / 2;
            assert(k == num_shreds_for(data@.len(), data_capacity(chained_merkle_root is Some), true));
            let code = shreds.split_off(k);
            proof {
                assert(shred_views(shreds@) =~= views.take(k as int));
                assert(shred_views(code@) =~= views.skip(k as int));
                lemma_merkle_fec_total(
                    *self,
                    views.take(k as int),
                    data@,
                    is_last_in_slot,
                    match chained_merkle_root {
                        Some(b) => Some(b@),
                        None => None::<Seq<u8>>,
                    },
                    next_shred_index,
                );
            }
            Ok((shreds, code))
        } else {
            let data_shreds = self.make_data_shreds(keypair, data, is_last_in_slot, &None, next_shred_index)?;
            let ghost d = shred_views(data_shreds@);
            proof {
                self.lemma_data_shreds_well_grouped(d, data@, is_last_in_slot, None, next_shred_index, false);
                crate::laws::lemma_data_shred_groups_codable(
                    *self,
                    d,
                    data@,
                    is_last_in_slot,
                    None,
                    next_shred_index,
                    false,
                );
            }
            match Self::data_shreds_to_coding_shreds(
                keypair,
                data_shreds.as_slice(),
                next_code_index,
                reed_solomon_cache,
            ) {
                Ok(code_shreds) => Ok((data_shreds, code_shreds)),
                Err(e) => {
                    proof {
                        assert forall|shreds: Seq<Seq<u8>>|
                            #[trigger] self.data_shreds_for(
                                shreds,
                                data@,
                                is_last_in_slot,
                                None,
                                next_shred_index,
                                false,
                            ) implies next_code_index + total_parity(fec_groups(shreds)) > u32::MAX
                            + 1 by {
                            crate::laws::lemma_data_shreds_total_parity(
                                *self,
                                shreds,
                                d,
                                data@,
                                is_last_in_slot,
                                None,
                                None,
                                next_shred_index,
                                false,
                            );
                        }
                    }
                    Err(e)
                },
            }
        }
    }
}

/// The data shreds of Merkle batches need as many code shreds as there are
/// data shreds.
proof fn lemma_merkle_fec_total(
    shredder: Shredder,
    shreds: Seq<Seq<u8>>,
    data: Seq<u8>,
    is_last_in_slot: bool,
    chained_root: Option<Seq<u8>>,
    next_shred_index: u32,
)
    requires
        shredder.data_shreds_for(shreds, data, is_last_in_slot, chained_root, next_shred_index, true),
        next_shred_index + shreds.len() <= u32::MAX + 1,
    ensures
        total_parity(fec_groups(shreds)) == shreds.len(),
{
    let k = shreds.len();
    lemma_num_shreds_for(data.len(), data_capacity(chained_root is Some), true);
    lemma_shred_offsets(true, k);
    assert forall|t: int| 0 <= t < k implies fec_set_index_of(#[trigger] shreds[t])
        == next_shred_index + (t / 32) * 32 by {
        assert(0 <= shred_offset(true, k, t) <= t);
    }
    lemma_merkle_total_parity(shreds, next_shred_index as int);
}

} // verus!
