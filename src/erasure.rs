//! Erasure-batch geometry: how many shreds a batch holds and how a run of
//! data shreds is cut into FEC sets.
use vstd::prelude::*;

verus! {

/// Smallest number of data shreds in a non-terminal FEC set.
pub const DATA_SHREDS_PER_FEC_BLOCK: usize = 32;

/// Number of code shreds in a full-size FEC set.
pub const CODING_SHREDS_PER_FEC_BLOCK: usize = 32;

/// Upper bound on the number of data shreds in one FEC set, as the
/// planner cuts them (`2 * DATA_SHREDS_PER_FEC_BLOCK - 1`).
pub const MAX_DATA_SHREDS_PER_FEC_BLOCK: usize = 63;

/// The size of an erasure batch (data plus parity) for `num_data` data
/// shreds, `num_data <= 32`; each entry has the recovery odds of a 32:32
/// batch.
pub open spec fn erasure_batch_table(num_data: nat) -> nat {
    let t = seq![
        0nat, 18, 20, 22, 23, 25, 27, 28, 30,
        32, 33, 35, 36, 38, 39, 41, 42,
        43, 45, 46, 48, 49, 51, 52, 53,
        55, 56, 58, 59, 60, 62, 63, 64,
    ];
    t[num_data as int]
}

/// Erasure batch size for `num_data` data shreds; the last batch of a
/// block gets at least as many parity shreds as a full-size batch.
pub open spec fn erasure_batch_size(num_data: nat, is_last_in_slot: bool) -> nat {
    let s = if num_data <= 32 { erasure_batch_table(num_data) } else { 2 * num_data };
    if is_last_in_slot && s < 2 * DATA_SHREDS_PER_FEC_BLOCK {
        2 * DATA_SHREDS_PER_FEC_BLOCK as nat
    } else {
        s
    }
}

/// Maps the number of data shreds in a batch to the erasure batch size.
pub fn get_erasure_batch_size(num_data_shreds: usize, is_last_in_slot: bool) -> (r: usize)
    requires
        num_data_shreds <= usize::MAX / 2,
    ensures
        r == erasure_batch_size(num_data_shreds as nat, is_last_in_slot),
{
    let table: [usize; 33] = [
        0, 18, 20, 22, 23, 25, 27, 28, 30,
        32, 33, 35, 36, 38, 39, 41, 42,
        43, 45, 46, 48, 49, 51, 52, 53,
        55, 56, 58, 59, 60, 62, 63, 64,
    ];
    let erasure_batch_size = if num_data_shreds < 33 {
        table[num_data_shreds]
    } else {
        2 * num_data_shreds
    };
    if is_last_in_slot && erasure_batch_size < 2 * DATA_SHREDS_PER_FEC_BLOCK {
        2 * DATA_SHREDS_PER_FEC_BLOCK
    } else {
        erasure_batch_size
    }
}

/// How many chunks the planner aims for with `remaining` shreds left.
pub open spec fn num_chunks(remaining: nat, min_chunk_size: nat) -> nat {
    if remaining / min_chunk_size >= 1 { remaining / min_chunk_size } else { 1 }
}

/// Size of the next FEC set the planner cuts: `ceil(remaining / num_chunks)`.
pub open spec fn chunk_size(remaining: nat, min_chunk_size: nat) -> nat {
    let q = num_chunks(remaining, min_chunk_size);
    remaining / q + if remaining % q == 0 { 0nat } else { 1nat }
}

/// The sizes of the FEC sets, in order, that `remaining` data shreds are
/// cut into.
pub open spec fn fec_chunks(remaining: nat, min_chunk_size: nat) -> Seq<nat>
    decreases remaining,
{
    if remaining == 0 || min_chunk_size == 0 {
        seq![]
    } else {
        let c = chunk_size(remaining, min_chunk_size);
        if 1 <= c <= remaining {
            seq![c].add(fec_chunks((remaining - c) as nat, min_chunk_size))
        } else {
            seq![]
        }
    }
}

/// Spells out chunk sizes as per-shred offsets, starting at `offset`.
pub open spec fn offsets_of_chunks(chunks: Seq<nat>, offset: nat) -> Seq<int>
    decreases chunks.len(),
{
    if chunks.len() == 0 {
        seq![]
    } else {
        Seq::new(chunks[0], |_i: int| offset as int).add(
            offsets_of_chunks(chunks.drop_first(), offset + chunks[0]),
        )
    }
}

/// For each of `num_shreds` data shreds, its offset to the first data shred
/// of its FEC set.
pub open spec fn fec_set_offsets(num_shreds: nat, min_chunk_size: nat) -> Seq<int> {
    offsets_of_chunks(fec_chunks(num_shreds, min_chunk_size), 0)
}

pub open spec fn sum_of(s: Seq<nat>) -> nat
    decreases s.len(),
{
    if s.len() == 0 { 0 } else { s[0] + sum_of(s.drop_first()) }
}

proof fn lemma_chunk_size_bounds(remaining: nat, min_chunk_size: nat)
    requires
        remaining > 0,
        min_chunk_size > 0,
    ensures
        1 <= chunk_size(remaining, min_chunk_size) <= remaining,
        remaining < min_chunk_size ==> chunk_size(remaining, min_chunk_size) == remaining,
        remaining >= min_chunk_size ==> {
            let c = chunk_size(remaining, min_chunk_size);
            &&& min_chunk_size <= c < 2 * min_chunk_size
            &&& (c == remaining || remaining - c >= min_chunk_size)
        },
{
    let m = min_chunk_size as int;
    let r = remaining as int;
    let q = num_chunks(remaining, min_chunk_size) as int;
    assert(q >= 1);
    assert(q <= r) by (nonlinear_arith)
        requires
            q == (if r / m >= 1 { r / m } else { 1 }),
            r > 0,
            m > 0,
    ;
    assert(r / q >= 1 && r / q <= r) by (nonlinear_arith)
        requires
            1 <= q <= r,
    ;
    assert(r % q == 0 || r / q < r) by (nonlinear_arith)
        requires
            1 <= q <= r,
    ;
    if q == 1 {
        assert(r / q == r && r % q == 0) by (nonlinear_arith)
            requires
                q == 1,
        ;
    }
    if r < m {
        assert(r / m == 0) by (nonlinear_arith)
            requires
                0 < r < m,
        ;
    }
    if r >= m {
        let s = r % m;
        assert(r / m >= 1) by (nonlinear_arith)
            requires
                r >= m,
                m > 0,
        ;
        assert(q == r / m);
        assert(r == q * m + s && 0 <= s < m) by (nonlinear_arith)
            requires
                m > 0,
                q == r / m,
                s == r % m,
        ;
        // r / q == m + s / q and r % q == s % q
        vstd::arithmetic::div_mod::lemma_hoist_over_denominator(s, m, q as nat);
        vstd::arithmetic::div_mod::lemma_mod_multiples_vanish(m, s, q);
        assert(s + m * q == r && q * m + s == r) by (nonlinear_arith)
            requires
                r == q * m + s,
        ;
        assert(r / q == m + s / q && r % q == s % q);
        assert(s / q + (if s % q == 0 { 0int } else { 1int }) <= s) by (nonlinear_arith)
            requires
                0 <= s,
                q >= 1,
        ;
        if q >= 2 {
            assert((q - 1) * m >= m) by (nonlinear_arith)
                requires
                    q >= 2,
                    m > 0,
            ;
            assert(r - (m + s) == (q - 1) * m) by (nonlinear_arith)
                requires
                    r == q * m + s,
            ;
        }
    }
}

/// The chunk sizes the planner cuts add up to the number of shreds.
pub proof fn lemma_fec_chunks_total(num_shreds: nat, min_chunk_size: nat)
    requires
        min_chunk_size > 0,
    ensures
        sum_of(fec_chunks(num_shreds, min_chunk_size)) == num_shreds,
    decreases num_shreds,
{
    if num_shreds > 0 {
        lemma_chunk_size_bounds(num_shreds, min_chunk_size);
        let c = chunk_size(num_shreds, min_chunk_size);
        lemma_fec_chunks_total((num_shreds - c) as nat, min_chunk_size);
        assert(fec_chunks(num_shreds, min_chunk_size).drop_first() =~= fec_chunks(
            (num_shreds - c) as nat,
            min_chunk_size,
        ));
    }
}

proof fn lemma_offsets_of_chunks_len(chunks: Seq<nat>, offset: nat)
    ensures
        offsets_of_chunks(chunks, offset).len() == sum_of(chunks),
    decreases chunks.len(),
{
    if chunks.len() > 0 {
        lemma_offsets_of_chunks_len(chunks.drop_first(), offset + chunks[0]);
    }
}

/// The planner gives exactly one offset per data shred.
pub proof fn lemma_fec_set_offsets_len(num_shreds: nat, min_chunk_size: nat)
    requires
        min_chunk_size > 0,
    ensures
        fec_set_offsets(num_shreds, min_chunk_size).len() == num_shreds,
{
    lemma_fec_chunks_total(num_shreds, min_chunk_size);
    lemma_offsets_of_chunks_len(fec_chunks(num_shreds, min_chunk_size), 0);
}

/// With at least `min_chunk_size` shreds, every FEC set the planner cuts
/// holds between `min_chunk_size` and `2 * min_chunk_size - 1` shreds; with
/// fewer (and at least one), there is a single set holding all of them.
pub proof fn lemma_fec_chunk_sizes(num_shreds: nat, min_chunk_size: nat)
    requires
        min_chunk_size > 0,
    ensures
        num_shreds >= min_chunk_size ==> forall|i: int|
            0 <= i < fec_chunks(num_shreds, min_chunk_size).len() ==> min_chunk_size
                <= #[trigger] fec_chunks(num_shreds, min_chunk_size)[i] < 2 * min_chunk_size,
        0 < num_shreds < min_chunk_size ==> fec_chunks(num_shreds, min_chunk_size) =~= seq![
            num_shreds,
        ],
    decreases num_shreds,
{
    if num_shreds > 0 {
        lemma_chunk_size_bounds(num_shreds, min_chunk_size);
        let c = chunk_size(num_shreds, min_chunk_size);
        let rest = (num_shreds - c) as nat;
        lemma_fec_chunk_sizes(rest, min_chunk_size);
        let chunks = fec_chunks(num_shreds, min_chunk_size);
        assert(chunks =~= seq![c].add(fec_chunks(rest, min_chunk_size)));
        if num_shreds < min_chunk_size {
            assert(fec_chunks(0, min_chunk_size) =~= Seq::<nat>::empty());
        }
        if num_shreds >= min_chunk_size {
            assert forall|i: int| 0 <= i < chunks.len() implies min_chunk_size
                <= #[trigger] chunks[i] < 2 * min_chunk_size by {
                if i > 0 {
                    assert(chunks[i] == fec_chunks(rest, min_chunk_size)[i - 1]);
                }
            }
        }
    }
}

proof fn lemma_offsets_of_chunks_shape(chunks: Seq<nat>, offset: nat)
    requires
        forall|k: int| 0 <= k < chunks.len() ==> #[trigger] chunks[k] >= 1,
    ensures
        ({
            let v = offsets_of_chunks(chunks, offset);
            forall|i: int|
                0 <= i < v.len() ==> offset <= #[trigger] v[i] <= offset + i && (v[i] == offset + i
                    || (i > 0 && v[i] == v[i - 1]))
        }),
    decreases chunks.len(),
{
    if chunks.len() > 0 {
        let c = chunks[0];
        let tail = chunks.drop_first();
        assert forall|k: int| 0 <= k < tail.len() implies #[trigger] tail[k] >= 1 by {
            assert(tail[k] == chunks[k + 1]);
        }
        lemma_offsets_of_chunks_shape(tail, offset + c);
        let head = Seq::new(c, |_i: int| offset as int);
        let w = offsets_of_chunks(tail, offset + c);
        let v = offsets_of_chunks(chunks, offset);
        assert(v =~= head.add(w));
        assert forall|i: int| 0 <= i < v.len() implies offset <= #[trigger] v[i] <= offset + i && (
        v[i] == offset + i || (i > 0 && v[i] == v[i - 1])) by {
            if i >= c {
                assert(v[i] == w[i - c]);
                if i > c {
                    assert(v[i - 1] == w[i - c - 1]);
                }
            }
        }
    }
}

/// The offsets the planner gives start at zero and each one is either the
/// previous shred's offset (same FEC set) or the shred's own position (a
/// new FEC set starts there): FEC sets are contiguous runs.
pub proof fn lemma_fec_set_offsets_contiguous(num_shreds: nat, min_chunk_size: nat)
    requires
        min_chunk_size > 0,
    ensures
        ({
            let v = fec_set_offsets(num_shreds, min_chunk_size);
            forall|i: int|
                0 <= i < v.len() ==> 0 <= #[trigger] v[i] <= i && (v[i] == i || (i > 0 && v[i]
                    == v[i - 1]))
        }),
{
    let chunks = fec_chunks(num_shreds, min_chunk_size);
    lemma_fec_chunks_positive(num_shreds, min_chunk_size);
    lemma_offsets_of_chunks_shape(chunks, 0);
}

proof fn lemma_fec_chunks_positive(num_shreds: nat, min_chunk_size: nat)
    requires
        min_chunk_size > 0,
    ensures
        forall|k: int|
            0 <= k < fec_chunks(num_shreds, min_chunk_size).len() ==> #[trigger] fec_chunks(
                num_shreds,
                min_chunk_size,
            )[k] >= 1,
    decreases num_shreds,
{
    if num_shreds > 0 {
        lemma_chunk_size_bounds(num_shreds, min_chunk_size);
        let c = chunk_size(num_shreds, min_chunk_size);
        let rest = (num_shreds - c) as nat;
        lemma_fec_chunks_positive(rest, min_chunk_size);
        let chunks = fec_chunks(num_shreds, min_chunk_size);
        assert(chunks =~= seq![c].add(fec_chunks(rest, min_chunk_size)));
        assert forall|k: int| 0 <= k < chunks.len() implies #[trigger] chunks[k] >= 1 by {
            if k > 0 {
                assert(chunks[k] == fec_chunks(rest, min_chunk_size)[k - 1]);
            }
        }
    }
}

/// Fewer shreds than `min_chunk_size` all land in the first FEC set.
pub proof fn lemma_fec_set_offsets_small(num_shreds: nat, min_chunk_size: nat)
    requires
        num_shreds < min_chunk_size,
    ensures
        fec_set_offsets(num_shreds, min_chunk_size) =~= Seq::new(num_shreds, |_i: int| 0int),
{
    if num_shreds == 0 {
        assert(fec_chunks(0, min_chunk_size) =~= Seq::<nat>::empty());
    } else {
        lemma_fec_chunk_sizes(num_shreds, min_chunk_size);
        let chunks = fec_chunks(num_shreds, min_chunk_size);
        assert(chunks.drop_first() =~= Seq::<nat>::empty());
        assert(offsets_of_chunks(chunks.drop_first(), num_shreds) =~= Seq::<int>::empty());
    }
}

/// Returns, for each of `num_shreds` data shreds, the offset of its FEC set
/// index from the first shred's index: the shreds are cut into contiguous
/// FEC sets of `min_chunk_size..2 * min_chunk_size` shreds where possible.
pub fn get_fec_set_offsets(num_shreds: usize, min_chunk_size: usize) -> (r: Vec<usize>)
    requires
        min_chunk_size > 0,
    ensures
        r@.len() == num_shreds,
        forall|i: int|
            0 <= i < r@.len() ==> r@[i] as int == #[trigger] fec_set_offsets(
                num_shreds as nat,
                min_chunk_size as nat,
            )[i],
{
    let ghost target = fec_set_offsets(num_shreds as nat, min_chunk_size as nat);
    proof {
        lemma_fec_set_offsets_len(num_shreds as nat, min_chunk_size as nat);
    }
    let mut offsets: Vec<usize> = Vec::new();
    let mut remaining: usize = num_shreds;
    let mut offset: usize = 0;
    while remaining > 0
        invariant
            min_chunk_size > 0,
            offset + remaining == num_shreds,
            offsets@.len() == offset,
            target.len() == num_shreds,
            offsets@.map_values(|x: usize| x as int).add(
                offsets_of_chunks(fec_chunks(remaining as nat, min_chunk_size as nat), offset as nat),
            ) == target,
        decreases remaining,
    {
        let q: usize = if remaining / min_chunk_size >= 1 {
            remaining / min_chunk_size
        } else {
            1
        };
        let chunk: usize = remaining / q + if remaining % q == 0 { 0 } else { 1 };
        proof {
            lemma_chunk_size_bounds(remaining as nat, min_chunk_size as nat);
            assert(chunk == chunk_size(remaining as nat, min_chunk_size as nat));
        }
        let ghost rest = offsets_of_chunks(
            fec_chunks((remaining - chunk) as nat, min_chunk_size as nat),
            (offset + chunk) as nat,
        );
        let ghost before = offsets@.map_values(|x: usize| x as int);
        proof {
            let chunks = fec_chunks(remaining as nat, min_chunk_size as nat);
            assert(chunks.drop_first() =~= fec_chunks(
                (remaining - chunk) as nat,
                min_chunk_size as nat,
            ));
        }
        let mut j: usize = 0;
        while j < chunk
            invariant
                j <= chunk,
                offsets@.len() == offset + j,
                offsets@.map_values(|x: usize| x as int) =~= before.add(
                    Seq::new(j as nat, |_i: int| offset as int),
                ),
            decreases chunk - j,
        {
            let ghost prev = offsets@;
            offsets.push(offset);
            proof {
                assert(offsets@.map_values(|x: usize| x as int) =~= prev.map_values(
                    |x: usize| x as int,
                ).push(offset as int));
            }
            j += 1;
        }
        remaining -= chunk;
        offset += chunk;
        proof {
            assert(before.add(Seq::new(chunk as nat, |_i: int| (offset - chunk) as int)).add(rest)
                =~= target);
        }
    }
    proof {
        assert(fec_chunks(0, min_chunk_size as nat) =~= Seq::<nat>::empty());
        assert(offsets@.map_values(|x: usize| x as int) =~= target);
        assert forall|i: int| 0 <= i < offsets@.len() implies offsets@[i] as int == #[trigger] target[i] by {
            assert(offsets@.map_values(|x: usize| x as int)[i] == offsets@[i] as int);
        }
    }
    offsets
}

proof fn lemma_offsets_of_chunks_sizes(chunks: Seq<nat>, offset: nat, lo: nat, hi: nat)
    requires
        lo >= 1,
        forall|k: int| 0 <= k < chunks.len() ==> lo <= #[trigger] chunks[k] < hi,
    ensures
        ({
            let v = offsets_of_chunks(chunks, offset);
            &&& forall|i: int| 0 <= i < v.len() ==> offset + i - #[trigger] v[i] < hi - 1
            &&& forall|i: int|
                0 < i < v.len() && #[trigger] v[i] == offset + i ==> offset + i - v[i - 1] >= lo
            &&& v.len() > 0 ==> offset + v.len() - v[v.len() - 1] >= lo
        }),
    decreases chunks.len(),
{
    if chunks.len() > 0 {
        let c = chunks[0];
        let tail = chunks.drop_first();
        assert forall|k: int| 0 <= k < tail.len() implies lo <= #[trigger] tail[k] < hi by {
            assert(tail[k] == chunks[k + 1]);
        }
        lemma_offsets_of_chunks_sizes(tail, offset + c, lo, hi);
        lemma_offsets_of_chunks_len(tail, offset + c);
        let head = Seq::new(c, |_i: int| offset as int);
        let w = offsets_of_chunks(tail, offset + c);
        let v = offsets_of_chunks(chunks, offset);
        assert(v =~= head.add(w));
        assert forall|i: int| 0 <= i < v.len() implies offset + i - #[trigger] v[i] < hi - 1 by {
            if i >= c {
                assert(v[i] == w[i - c]);
            }
        }
        assert forall|i: int| 0 < i < v.len() && #[trigger] v[i] == offset + i implies offset + i
            - v[i - 1] >= lo by {
            if i > c {
                assert(v[i] == w[i - c]);
                assert(v[i - 1] == w[i - c - 1]);
            } else if i == c {
                assert(v[i - 1] == offset);
            }
        }
        if w.len() > 0 {
            assert(v[v.len() - 1] == w[w.len() - 1]);
        }
    }
}

/// With at least `min_chunk_size` shreds, every FEC set the planner cuts
/// holds between `min_chunk_size` and `2 * min_chunk_size - 1` shreds: no
/// shred sits `2 * min_chunk_size - 1` or more past its set's first shred, a
/// new set starts at least `min_chunk_size` past the previous set's first
/// shred, and the last set holds at least `min_chunk_size` shreds.
pub proof fn lemma_fec_set_sizes(num_shreds: nat, min_chunk_size: nat)
    requires
        min_chunk_size > 0,
        num_shreds >= min_chunk_size,
    ensures
        ({
            let v = fec_set_offsets(num_shreds, min_chunk_size);
            &&& forall|i: int| 0 <= i < v.len() ==> i - #[trigger] v[i] < 2 * min_chunk_size - 1
            &&& forall|i: int| 0 < i < v.len() && #[trigger] v[i] == i ==> i - v[i - 1] >= min_chunk_size
            &&& v.len() - v[v.len() - 1] >= min_chunk_size
        }),
{
    lemma_fec_chunk_sizes(num_shreds, min_chunk_size);
    lemma_fec_set_offsets_len(num_shreds, min_chunk_size);
    lemma_offsets_of_chunks_sizes(
        fec_chunks(num_shreds, min_chunk_size),
        0,
        min_chunk_size,
        2 * min_chunk_size,
    );
}

} // verus!
