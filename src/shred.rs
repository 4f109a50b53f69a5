//! Shreds: fixed-size, signed fragments of a block, and the byte layout
//! they travel in.
//!
//! Layout, little-endian throughout:
//!
//! | bytes      | field                                         |
//! |------------|-----------------------------------------------|
//! | 0..64      | signature over the bytes that follow          |
//! | 64         | variant: data, chained data, or code          |
//! | 65..73     | slot                                          |
//! | 73..77     | index                                         |
//! | 77..79     | shred version                                 |
//! | 79..83     | FEC set index                                 |
//!
//! A data shred goes on with the parent offset (83..85), the flags (85) and
//! the size (86..88): the number of bytes of the payload in use. A chained
//! data shred holds the previous FEC set's Merkle root at 88..120. Its data
//! follows and is zero-padded to `SIZE_OF_DATA_PAYLOAD` bytes; the whole
//! data payload is its erasure shard.
//!
//! A code shred goes on with the number of data shreds (83..85) and of code
//! shreds (85..87) of its batch and its position among the code shreds
//! (87..89); its parity shard fills the rest.
use vstd::prelude::*;
use vstd::bytes::*;
use solana_keypair::Keypair;
use solana_signer::Signer;
use crate::ShredError;

verus! {

pub const SIZE_OF_SIGNATURE: usize = 64;

pub const OFFSET_OF_VARIANT: usize = 64;

pub const SIZE_OF_COMMON_SHRED_HEADER: usize = 83;

pub const SIZE_OF_DATA_SHRED_HEADERS: usize = 88;

pub const SIZE_OF_CHAINED_DATA_SHRED_HEADERS: usize = 120;

pub const SIZE_OF_CODING_SHRED_HEADERS: usize = 89;

/// Size of a data shred's payload, which is also the size of every erasure
/// shard.
pub const SIZE_OF_DATA_PAYLOAD: usize = 1139;

/// Size of a code shred's payload.
pub const SIZE_OF_CODE_PAYLOAD: usize = 1228;

pub const SIZE_OF_MERKLE_ROOT: usize = 32;

pub const VARIANT_DATA: u8 = 0xa5;

pub const VARIANT_CHAINED_DATA: u8 = 0xa6;

pub const VARIANT_CODE: u8 = 0x5a;

/// Low bits of the flags byte: the reference tick.
pub const SHRED_TICK_REFERENCE_MASK: u8 = 0b0011_1111;

/// The shred ends a run of serialized entries.
pub const DATA_COMPLETE_SHRED: u8 = 0b0100_0000;

/// The shred is the last one of its slot; implies `DATA_COMPLETE_SHRED`.
pub const LAST_SHRED_IN_SLOT: u8 = 0b1100_0000;

/// Bytes of entry data a data shred carries.
pub open spec fn data_capacity(chained: bool) -> nat {
    if chained {
        (SIZE_OF_DATA_PAYLOAD - SIZE_OF_CHAINED_DATA_SHRED_HEADERS) as nat
    } else {
        (SIZE_OF_DATA_PAYLOAD - SIZE_OF_DATA_SHRED_HEADERS) as nat
    }
}

/// Bytes of entry data a data shred carries: 1051 bytes, or 1019 when the
/// shred holds a chained Merkle root.
pub fn capacity(chained: bool) -> (r: usize)
    ensures
        r == data_capacity(chained),
{
    if chained {
        SIZE_OF_DATA_PAYLOAD - SIZE_OF_CHAINED_DATA_SHRED_HEADERS
    } else {
        SIZE_OF_DATA_PAYLOAD - SIZE_OF_DATA_SHRED_HEADERS
    }
}

// ---------------------------------------------------------------------------
// Reading fields off a payload.

pub open spec fn variant_of(p: Seq<u8>) -> u8 {
    p[OFFSET_OF_VARIANT as int]
}

pub open spec fn slot_of(p: Seq<u8>) -> u64 {
    spec_u64_from_le_bytes(p.subrange(65, 73))
}

pub open spec fn index_of(p: Seq<u8>) -> u32 {
    spec_u32_from_le_bytes(p.subrange(73, 77))
}

pub open spec fn version_of(p: Seq<u8>) -> u16 {
    spec_u16_from_le_bytes(p.subrange(77, 79))
}

pub open spec fn fec_set_index_of(p: Seq<u8>) -> u32 {
    spec_u32_from_le_bytes(p.subrange(79, 83))
}

pub open spec fn parent_offset_of(p: Seq<u8>) -> u16 {
    spec_u16_from_le_bytes(p.subrange(83, 85))
}

pub open spec fn flags_of(p: Seq<u8>) -> u8 {
    p[85]
}

pub open spec fn size_of(p: Seq<u8>) -> u16 {
    spec_u16_from_le_bytes(p.subrange(86, 88))
}

pub open spec fn num_data_of(p: Seq<u8>) -> u16 {
    spec_u16_from_le_bytes(p.subrange(83, 85))
}

pub open spec fn num_coding_of(p: Seq<u8>) -> u16 {
    spec_u16_from_le_bytes(p.subrange(85, 87))
}

pub open spec fn position_of(p: Seq<u8>) -> u16 {
    spec_u16_from_le_bytes(p.subrange(87, 89))
}

pub open spec fn is_data_variant(v: u8) -> bool {
    v == VARIANT_DATA || v == VARIANT_CHAINED_DATA
}

/// Where a data shred's entry data starts.
pub open spec fn data_start(p: Seq<u8>) -> nat {
    if variant_of(p) == VARIANT_CHAINED_DATA {
        SIZE_OF_CHAINED_DATA_SHRED_HEADERS as nat
    } else {
        SIZE_OF_DATA_SHRED_HEADERS as nat
    }
}

/// The entry data a data shred carries.
pub open spec fn data_of(p: Seq<u8>) -> Seq<u8> {
    p.subrange(data_start(p) as int, size_of(p) as int)
}

/// The chained Merkle root a data shred carries, if any.
pub open spec fn chained_root_of(p: Seq<u8>) -> Option<Seq<u8>> {
    if variant_of(p) == VARIANT_CHAINED_DATA {
        Some(p.subrange(SIZE_OF_DATA_SHRED_HEADERS as int, SIZE_OF_CHAINED_DATA_SHRED_HEADERS as int))
    } else {
        None
    }
}

/// The parity a code shred carries.
pub open spec fn parity_of_code(p: Seq<u8>) -> Seq<u8> {
    p.subrange(SIZE_OF_CODING_SHRED_HEADERS as int, p.len() as int)
}

pub open spec fn reference_tick_of(p: Seq<u8>) -> u8 {
    flags_of(p) & SHRED_TICK_REFERENCE_MASK
}

pub open spec fn is_data_complete(p: Seq<u8>) -> bool {
    flags_of(p) & DATA_COMPLETE_SHRED == DATA_COMPLETE_SHRED
}

pub open spec fn is_last_in_slot(p: Seq<u8>) -> bool {
    flags_of(p) & LAST_SHRED_IN_SLOT == LAST_SHRED_IN_SLOT
}

/// A well-formed data shred payload.
pub open spec fn data_payload_wf(p: Seq<u8>) -> bool {
    &&& p.len() == SIZE_OF_DATA_PAYLOAD
    &&& is_data_variant(variant_of(p))
    &&& data_start(p) <= size_of(p) <= SIZE_OF_DATA_PAYLOAD
}

/// A well-formed code shred payload.
pub open spec fn code_payload_wf(p: Seq<u8>) -> bool {
    &&& p.len() == SIZE_OF_CODE_PAYLOAD
    &&& variant_of(p) == VARIANT_CODE
}

pub open spec fn payload_wf(p: Seq<u8>) -> bool {
    data_payload_wf(p) || code_payload_wf(p)
}

/// Position of a shred within its erasure batch: data shreds count from
/// the FEC set index, code shreds follow all data shreds.
pub open spec fn erasure_shard_index_of(p: Seq<u8>) -> Option<int> {
    if is_data_variant(variant_of(p)) {
        if index_of(p) >= fec_set_index_of(p) {
            Some(index_of(p) - fec_set_index_of(p))
        } else {
            None
        }
    } else {
        Some(num_data_of(p) + position_of(p))
    }
}

/// The bytes of a shred that take part in erasure coding.
pub open spec fn erasure_shard_of(p: Seq<u8>) -> Seq<u8> {
    if is_data_variant(variant_of(p)) {
        p
    } else {
        parity_of_code(p)
    }
}

/// The flags byte of a data shred: completion bits and the reference tick,
/// capped at what the mask can hold.
pub open spec fn flags_byte(completion: u8, reference_tick: u8) -> u8 {
    completion | if reference_tick < SHRED_TICK_REFERENCE_MASK {
        reference_tick
    } else {
        SHRED_TICK_REFERENCE_MASK
    }
}

/// `p` is a data shred with the given fields; its signature is free.
pub open spec fn is_data_shred(
    p: Seq<u8>,
    slot: u64,
    index: u32,
    parent_offset: u16,
    data: Seq<u8>,
    flags: u8,
    version: u16,
    fec_set_index: u32,
    chained_root: Option<Seq<u8>>,
) -> bool {
    &&& data_payload_wf(p)
    &&& slot_of(p) == slot
    &&& index_of(p) == index
    &&& parent_offset_of(p) == parent_offset
    &&& data_of(p) == data
    &&& flags_of(p) == flags
    &&& version_of(p) == version
    &&& fec_set_index_of(p) == fec_set_index
    &&& chained_root_of(p) == chained_root
}

/// `p` is a code shred with the given fields; its signature is free.
pub open spec fn is_code_shred(
    p: Seq<u8>,
    slot: u64,
    index: u32,
    parity: Seq<u8>,
    fec_set_index: u32,
    num_data: u16,
    num_coding: u16,
    position: u16,
    version: u16,
) -> bool {
    &&& code_payload_wf(p)
    &&& slot_of(p) == slot
    &&& index_of(p) == index
    &&& parity_of_code(p) == parity
    &&& fec_set_index_of(p) == fec_set_index
    &&& num_data_of(p) == num_data
    &&& num_coding_of(p) == num_coding
    &&& position_of(p) == position
    &&& version_of(p) == version
}

/// The common header after the signature: variant, slot, index, version
/// and FEC set index.
pub open spec fn common_header(variant: u8, slot: u64, index: u32, version: u16, fec_set_index: u32) -> Seq<u8> {
    seq![variant] + spec_u64_to_le_bytes(slot) + spec_u32_to_le_bytes(index) + spec_u16_to_le_bytes(
        version,
    ) + spec_u32_to_le_bytes(fec_set_index)
}

proof fn lemma_le_lengths()
    ensures
        forall|x: u64|
            #![trigger spec_u64_to_le_bytes(x)]
            spec_u64_to_le_bytes(x).len() == 8 && spec_u64_from_le_bytes(spec_u64_to_le_bytes(x)) == x,
        forall|x: u32|
            #![trigger spec_u32_to_le_bytes(x)]
            spec_u32_to_le_bytes(x).len() == 4 && spec_u32_from_le_bytes(spec_u32_to_le_bytes(x)) == x,
        forall|x: u16|
            #![trigger spec_u16_to_le_bytes(x)]
            spec_u16_to_le_bytes(x).len() == 2 && spec_u16_from_le_bytes(spec_u16_to_le_bytes(x)) == x,
{
    lemma_auto_spec_u64_to_from_le_bytes();
    lemma_auto_spec_u32_to_from_le_bytes();
    lemma_auto_spec_u16_to_from_le_bytes();
}

/// Reading the common header back gives the fields written into it.
proof fn lemma_common_header_fields(
    p: Seq<u8>,
    variant: u8,
    slot: u64,
    index: u32,
    version: u16,
    fec_set_index: u32,
)
    requires
        p.len() >= SIZE_OF_COMMON_SHRED_HEADER,
        p.subrange(64, 83) == common_header(variant, slot, index, version, fec_set_index),
    ensures
        variant_of(p) == variant,
        slot_of(p) == slot,
        index_of(p) == index,
        version_of(p) == version,
        fec_set_index_of(p) == fec_set_index,
{
    lemma_le_lengths();
    let h = p.subrange(64, 83);
    assert(variant_of(p) == h[0]);
    assert(p.subrange(65, 73) =~= h.subrange(1, 9));
    assert(h.subrange(1, 9) =~= spec_u64_to_le_bytes(slot));
    assert(p.subrange(73, 77) =~= h.subrange(9, 13));
    assert(h.subrange(9, 13) =~= spec_u32_to_le_bytes(index));
    assert(p.subrange(77, 79) =~= h.subrange(13, 15));
    assert(h.subrange(13, 15) =~= spec_u16_to_le_bytes(version));
    assert(p.subrange(79, 83) =~= h.subrange(15, 19));
    assert(h.subrange(15, 19) =~= spec_u32_to_le_bytes(fec_set_index));
}

/// Two payloads that agree past the signature hold the same shred.
pub proof fn lemma_same_body(p: Seq<u8>, q: Seq<u8>)
    requires
        p.len() == q.len(),
        p.len() > SIZE_OF_SIGNATURE,
        p.subrange(64, p.len() as int) == q.subrange(64, q.len() as int),
    ensures
        payload_wf(p) == payload_wf(q),
        payload_wf(p) ==> {
            &&& variant_of(p) == variant_of(q)
            &&& slot_of(p) == slot_of(q)
            &&& index_of(p) == index_of(q)
            &&& version_of(p) == version_of(q)
            &&& fec_set_index_of(p) == fec_set_index_of(q)
            &&& parent_offset_of(p) == parent_offset_of(q)
            &&& flags_of(p) == flags_of(q)
            &&& num_data_of(p) == num_data_of(q)
            &&& num_coding_of(p) == num_coding_of(q)
            &&& position_of(p) == position_of(q)
            &&& is_data_variant(variant_of(p)) ==> data_of(p) == data_of(q) && chained_root_of(p)
                == chained_root_of(q)
            &&& !is_data_variant(variant_of(p)) ==> parity_of_code(p) == parity_of_code(q)
        },
{
    let n = p.len() as int;
    assert forall|i: int| 64 <= i < n implies p[i] == q[i] by {
        assert(p[i] == p.subrange(64, n)[i - 64]);
        assert(q[i] == q.subrange(64, n)[i - 64]);
    }
    assert(variant_of(p) == variant_of(q));
    if payload_wf(p) || payload_wf(q) {
        assert(p.subrange(65, 73) =~= q.subrange(65, 73));
        assert(p.subrange(73, 77) =~= q.subrange(73, 77));
        assert(p.subrange(77, 79) =~= q.subrange(77, 79));
        assert(p.subrange(79, 83) =~= q.subrange(79, 83));
        assert(p.subrange(83, 85) =~= q.subrange(83, 85));
        assert(p.subrange(85, 87) =~= q.subrange(85, 87));
        assert(p.subrange(86, 88) =~= q.subrange(86, 88));
        assert(p.subrange(87, 89) =~= q.subrange(87, 89));
        assert(flags_of(p) == flags_of(q));
        assert(size_of(p) == size_of(q));
        if is_data_variant(variant_of(p)) {
            assert(data_of(p) =~= data_of(q));
            assert(p.subrange(88, 120) =~= q.subrange(88, 120));
        } else {
            assert(parity_of_code(p) =~= parity_of_code(q));
        }
    }
}

// ---------------------------------------------------------------------------
// The shred type.

/// The payloads of a sequence of shreds.
pub open spec fn shred_views(shreds: Seq<Shred>) -> Seq<Seq<u8>> {
    shreds.map_values(|s: Shred| s@)
}

/// Why a payload is not a well-formed shred, if it is not.
pub open spec fn payload_error(p: Seq<u8>) -> Option<ShredError> {
    if p.len() <= OFFSET_OF_VARIANT {
        Some(ShredError::InvalidPayloadSize(p.len() as usize))
    } else if is_data_variant(variant_of(p)) {
        if p.len() != SIZE_OF_DATA_PAYLOAD {
            Some(ShredError::InvalidPayloadSize(p.len() as usize))
        } else if !(data_start(p) <= size_of(p) <= SIZE_OF_DATA_PAYLOAD) {
            Some(ShredError::InvalidDataSize { size: size_of(p), payload: p.len() as usize })
        } else {
            None
        }
    } else if variant_of(p) == VARIANT_CODE {
        if p.len() != SIZE_OF_CODE_PAYLOAD {
            Some(ShredError::InvalidPayloadSize(p.len() as usize))
        } else {
            None
        }
    } else {
        Some(ShredError::InvalidShredVariant)
    }
}

/// Relies on solana_keypair's `Keypair`, held opaque.
#[verifier::external_type_specification]
#[verifier::external_body]
pub struct ExKeypair(Keypair);

/// Relies on `Signer::sign_message` of solana_signer, implemented for
/// solana_keypair's `Keypair`: an Ed25519 signature, which has 64 bytes.
#[verifier::external_body]
fn sign_message(keypair: &Keypair, message: &[u8]) -> (r: Vec<u8>)
    ensures
        r@.len() == SIZE_OF_SIGNATURE,
{
    let signature: [u8; 64] = keypair.sign_message(message).into();
    signature.to_vec()
}

/// Appends `n` zero bytes.
fn push_zeros(v: &mut Vec<u8>, n: usize)
    requires
        old(v)@.len() + n <= usize::MAX,
    ensures
        final(v)@ == old(v)@ + Seq::new(n as nat, |_i: int| 0u8),
{
    let ghost start = v@;
    let mut i: usize = 0;
    while i < n
        invariant
            i <= n,
            v@ == start + Seq::new(i as nat, |_i: int| 0u8),
        decreases n - i,
    {
        v.push(0u8);
        i += 1;
        assert(v@ =~= start + Seq::new(i as nat, |_i: int| 0u8));
    }
}

/// Appends the bytes of `s`.
fn push_slice(v: &mut Vec<u8>, s: &[u8])
    requires
        old(v)@.len() + s@.len() <= usize::MAX,
    ensures
        final(v)@ == old(v)@ + s@,
{
    let ghost start = v@;
    let mut i: usize = 0;
    while i < s.len()
        invariant
            i <= s@.len(),
            v@ == start + s@.subrange(0, i as int),
        decreases s@.len() - i,
    {
        v.push(s[i]);
        i += 1;
        assert(v@ =~= start + s@.subrange(0, i as int));
    }
    assert(s@.subrange(0, s@.len() as int) =~= s@);
}

/// Appends the common header after a blank signature.
fn push_common_header(v: &mut Vec<u8>, variant: u8, slot: u64, index: u32, version: u16, fec_set_index: u32)
    requires
        old(v)@.len() == 0,
    ensures
        final(v)@ == Seq::new(64, |_i: int| 0u8) + common_header(variant, slot, index, version, fec_set_index),
        final(v)@.len() == SIZE_OF_COMMON_SHRED_HEADER,
{
    proof {
        lemma_le_lengths();
    }
    push_zeros(v, SIZE_OF_SIGNATURE);
    v.push(variant);
    let mut b = u64_to_le_bytes(slot);
    v.append(&mut b);
    let mut b = u32_to_le_bytes(index);
    v.append(&mut b);
    let mut b = u16_to_le_bytes(version);
    v.append(&mut b);
    let mut b = u32_to_le_bytes(fec_set_index);
    v.append(&mut b);
    assert(v@ =~= Seq::new(64, |_i: int| 0u8) + common_header(variant, slot, index, version, fec_set_index));
}

/// A signed shred, held as its serialized payload.
pub struct Shred {
    payload: Vec<u8>,
}

impl View for Shred {
    type V = Seq<u8>;

    closed spec fn view(&self) -> Seq<u8> {
        self.payload@
    }
}

impl Clone for Shred {
    fn clone(&self) -> (r: Shred)
        ensures
            r@ == self@,
    {
        proof {
            use_type_invariant(self);
        }
        Shred { payload: self.payload.clone() }
    }
}

impl Shred {
    /// Every shred holds a well-formed payload.
    #[verifier::type_invariant]
    spec fn inv(&self) -> bool {
        payload_wf(self.payload@)
    }

    /// The payload is a well-formed data or code shred; true of every shred.
    pub open spec fn wf(&self) -> bool {
        payload_wf(self@)
    }

    /// Builds an unsigned data shred carrying `data`, with `flags` (the
    /// completion bits) and the reference tick, capped at the tick mask,
    /// in its flags byte.
    pub fn new_from_data(
        slot: u64,
        index: u32,
        parent_offset: u16,
        data: &[u8],
        flags: u8,
        reference_tick: u8,
        version: u16,
        fec_set_index: u32,
        chained_merkle_root: &Option<Vec<u8>>,
    ) -> (r: Shred)
        requires
            data@.len() <= data_capacity(chained_merkle_root is Some),
            chained_merkle_root matches Some(root) ==> root@.len() == SIZE_OF_MERKLE_ROOT,
        ensures
            r.wf(),
            is_data_shred(
                r@,
                slot,
                index,
                parent_offset,
                data@,
                flags_byte(flags, reference_tick),
                version,
                fec_set_index,
                match chained_merkle_root {
                    Some(root) => Some(root@),
                    None => None,
                },
            ),
    {
        proof {
            lemma_le_lengths();
        }
        let variant = match chained_merkle_root {
            Some(_) => VARIANT_CHAINED_DATA,
            None => VARIANT_DATA,
        };
        let start: usize = match chained_merkle_root {
            Some(_) => SIZE_OF_CHAINED_DATA_SHRED_HEADERS,
            None => SIZE_OF_DATA_SHRED_HEADERS,
        };
        let mut payload: Vec<u8> = Vec::new();
        push_common_header(&mut payload, variant, slot, index, version, fec_set_index);
        let ghost header = payload@;
        let mut b = u16_to_le_bytes(parent_offset);
        payload.append(&mut b);
        let tick = if reference_tick < SHRED_TICK_REFERENCE_MASK {
            reference_tick
        } else {
            SHRED_TICK_REFERENCE_MASK
        };
        payload.push(flags | tick);
        let size = (start + data.len()) as u16;
        let mut b = u16_to_le_bytes(size);
        payload.append(&mut b);
        let ghost before_root = payload@;
        match chained_merkle_root {
            Some(root) => push_slice(&mut payload, root.as_slice()),
            None => {},
        }
        assert(payload@.len() == start);
        let ghost before_data = payload@;
        push_slice(&mut payload, data);
        push_zeros(&mut payload, SIZE_OF_DATA_PAYLOAD - start - data.len());
        let ghost p = payload@;
        proof {
            assert(p.subrange(64, 83) =~= header.subrange(64, 83));
            assert(header.subrange(64, 83) =~= common_header(variant, slot, index, version, fec_set_index));
            lemma_common_header_fields(p, variant, slot, index, version, fec_set_index);
            assert(p.subrange(83, 85) =~= spec_u16_to_le_bytes(parent_offset));
            assert(p.subrange(86, 88) =~= spec_u16_to_le_bytes(size));
            assert(data_of(p) =~= data@);
            match chained_merkle_root {
                Some(root) => {
                    assert(p.subrange(88, 120) =~= root@);
                },
                None => {},
            }
        }
        Shred { payload }
    }

    /// Builds an unsigned code shred carrying `parity`, the shard at
    /// `position` among the `num_coding` code shreds of its batch.
    pub fn new_from_parity_shard(
        slot: u64,
        index: u32,
        parity: &[u8],
        fec_set_index: u32,
        num_data: u16,
        num_coding: u16,
        position: u16,
        version: u16,
    ) -> (r: Shred)
        requires
            parity@.len() == SIZE_OF_DATA_PAYLOAD,
        ensures
            r.wf(),
            is_code_shred(r@, slot, index, parity@, fec_set_index, num_data, num_coding, position, version),
    {
        proof {
            lemma_le_lengths();
        }
        let mut payload: Vec<u8> = Vec::new();
        push_common_header(&mut payload, VARIANT_CODE, slot, index, version, fec_set_index);
        let ghost header = payload@;
        let mut b = u16_to_le_bytes(num_data);
        payload.append(&mut b);
        let mut b = u16_to_le_bytes(num_coding);
        payload.append(&mut b);
        let mut b = u16_to_le_bytes(position);
        payload.append(&mut b);
        push_slice(&mut payload, parity);
        let ghost p = payload@;
        proof {
            assert(p.subrange(64, 83) =~= header.subrange(64, 83));
            assert(header.subrange(64, 83) =~= common_header(VARIANT_CODE, slot, index, version, fec_set_index));
            lemma_common_header_fields(p, VARIANT_CODE, slot, index, version, fec_set_index);
            assert(p.subrange(83, 85) =~= spec_u16_to_le_bytes(num_data));
            assert(p.subrange(85, 87) =~= spec_u16_to_le_bytes(num_coding));
            assert(p.subrange(87, 89) =~= spec_u16_to_le_bytes(position));
            assert(parity_of_code(p) =~= parity@);
        }
        Shred { payload }
    }

    /// Parses a serialized shred.
    pub fn new_from_serialized_shred(payload: Vec<u8>) -> (r: Result<Shred, ShredError>)
        ensures
            match r {
                Ok(shred) => payload_error(payload@) is None && shred@ == payload@,
                Err(e) => payload_error(payload@) == Some(e),
            },
            r is Ok <==> payload_wf(payload@),
    {
        let len = payload.len();
        if len <= OFFSET_OF_VARIANT {
            return Err(ShredError::InvalidPayloadSize(len));
        }
        let variant = payload[OFFSET_OF_VARIANT];
        if variant == VARIANT_DATA || variant == VARIANT_CHAINED_DATA {
            if len != SIZE_OF_DATA_PAYLOAD {
                return Err(ShredError::InvalidPayloadSize(len));
            }
            let start: usize = if variant == VARIANT_CHAINED_DATA {
                SIZE_OF_CHAINED_DATA_SHRED_HEADERS
            } else {
                SIZE_OF_DATA_SHRED_HEADERS
            };
            let size = u16_from_le_bytes(vstd::slice::slice_subrange(payload.as_slice(), 86, 88));
            if (size as usize) < start || size as usize > SIZE_OF_DATA_PAYLOAD {
                return Err(ShredError::InvalidDataSize { size, payload: len });
            }
            Ok(Shred { payload })
        } else if variant == VARIANT_CODE {
            if len != SIZE_OF_CODE_PAYLOAD {
                return Err(ShredError::InvalidPayloadSize(len));
            }
            Ok(Shred { payload })
        } else {
            Err(ShredError::InvalidShredVariant)
        }
    }

    /// Signs the shred: the signature covers everything after it.
    pub fn sign(&mut self, keypair: &Keypair)
        ensures
            final(self).wf(),
            final(self)@.len() == old(self)@.len(),
            final(self)@.subrange(64, final(self)@.len() as int) == old(self)@.subrange(
                64,
                old(self)@.len() as int,
            ),
    {
        proof {
            use_type_invariant(&*self);
        }
        let len = self.payload.len();
        let signature = sign_message(
            keypair,
            vstd::slice::slice_subrange(self.payload.as_slice(), SIZE_OF_SIGNATURE, len),
        );
        self.set_signature(signature.as_slice());
        proof {
            assert(self@.subrange(64, len as int) =~= old(self)@.subrange(64, len as int));
        }
    }

    /// Puts `signature` in the signature bytes, in front of what it signs.
    pub fn set_signature(&mut self, signature: &[u8])
        requires
            signature@.len() == SIZE_OF_SIGNATURE,
        ensures
            final(self).wf(),
            final(self)@ == signature@ + old(self)@.subrange(64, old(self)@.len() as int),
    {
        proof {
            use_type_invariant(&*self);
        }
        let ghost before = self@;
        let mut payload = self.payload.clone();
        assert(payload@ =~= before);
        let len = payload.len();
        assert(len > SIZE_OF_SIGNATURE);
        let mut i: usize = 0;
        while i < SIZE_OF_SIGNATURE
            invariant
                i <= SIZE_OF_SIGNATURE,
                signature@.len() == SIZE_OF_SIGNATURE,
                payload@.len() == before.len(),
                len == before.len(),
                len > SIZE_OF_SIGNATURE,
                forall|j: int| 0 <= j < i ==> payload@[j] == signature@[j],
                forall|j: int| SIZE_OF_SIGNATURE <= j < len ==> payload@[j] == before[j],
            decreases SIZE_OF_SIGNATURE - i,
        {
            payload[i] = signature[i];
            i += 1;
        }
        proof {
            assert(payload@ =~= signature@ + before.subrange(64, len as int));
            assert(payload@.subrange(64, len as int) =~= before.subrange(64, len as int));
            lemma_same_body(before, payload@);
        }
        *self = Shred { payload };
    }

    /// The whole serialized shred.
    pub fn payload(&self) -> (r: &Vec<u8>)
        ensures
            r@ == self@,
    {
        &self.payload
    }

    /// Gives up the shred for its payload.
    pub fn into_payload(self) -> (r: Vec<u8>)
        ensures
            r@ == self@,
    {
        self.payload
    }

    pub fn is_data(&self) -> (r: bool)
        ensures
            self.wf(),
            r == is_data_variant(variant_of(self@)),
    {
        proof {
            use_type_invariant(self);
        }
        let v = self.payload[OFFSET_OF_VARIANT];
        v == VARIANT_DATA || v == VARIANT_CHAINED_DATA
    }

    pub fn is_code(&self) -> (r: bool)
        ensures
            self.wf(),
            r == (variant_of(self@) == VARIANT_CODE),
            r == !is_data_variant(variant_of(self@)),
    {
        proof {
            use_type_invariant(self);
        }
        self.payload[OFFSET_OF_VARIANT] == VARIANT_CODE
    }

    pub fn slot(&self) -> (r: u64)
        ensures
            self.wf(),
            r == slot_of(self@),
    {
        proof {
            use_type_invariant(self);
        }
        u64_from_le_bytes(vstd::slice::slice_subrange(self.payload.as_slice(), 65, 73))
    }

    pub fn index(&self) -> (r: u32)
        ensures
            self.wf(),
            r == index_of(self@),
    {
        proof {
            use_type_invariant(self);
        }
        u32_from_le_bytes(vstd::slice::slice_subrange(self.payload.as_slice(), 73, 77))
    }

    pub fn version(&self) -> (r: u16)
        ensures
            self.wf(),
            r == version_of(self@),
    {
        proof {
            use_type_invariant(self);
        }
        u16_from_le_bytes(vstd::slice::slice_subrange(self.payload.as_slice(), 77, 79))
    }

    pub fn fec_set_index(&self) -> (r: u32)
        ensures
            self.wf(),
            r == fec_set_index_of(self@),
    {
        proof {
            use_type_invariant(self);
        }
        u32_from_le_bytes(vstd::slice::slice_subrange(self.payload.as_slice(), 79, 83))
    }

    /// The parent slot's distance from this shred's slot; data shreds only.
    pub fn parent_offset(&self) -> (r: Option<u16>)
        ensures
            self.wf(),
            r == if is_data_variant(variant_of(self@)) {
                Some(parent_offset_of(self@))
            } else {
                None::<u16>
            },
    {
        proof {
            use_type_invariant(self);
        }
        if self.is_data() {
            Some(u16_from_le_bytes(vstd::slice::slice_subrange(self.payload.as_slice(), 83, 85)))
        } else {
            None
        }
    }

    /// The flags byte of a data shred.
    pub fn flags(&self) -> (r: Option<u8>)
        ensures
            self.wf(),
            r == if is_data_variant(variant_of(self@)) {
                Some(flags_of(self@))
            } else {
                None::<u8>
            },
    {
        proof {
            use_type_invariant(self);
        }
        if self.is_data() {
            Some(self.payload[85])
        } else {
            None
        }
    }

    /// The reference tick of a data shred (zero for a code shred).
    pub fn reference_tick(&self) -> (r: u8)
        ensures
            self.wf(),
            r == if is_data_variant(variant_of(self@)) {
                reference_tick_of(self@)
            } else {
                0
            },
    {
        proof {
            use_type_invariant(self);
        }
        if self.is_data() {
            self.payload[85] & SHRED_TICK_REFERENCE_MASK
        } else {
            0
        }
    }

    /// Whether this data shred is the last one of its slot.
    pub fn last_in_slot(&self) -> (r: bool)
        ensures
            self.wf(),
            r == (is_data_variant(variant_of(self@)) && is_last_in_slot(self@)),
    {
        proof {
            use_type_invariant(self);
        }
        self.is_data() && self.payload[85] & LAST_SHRED_IN_SLOT == LAST_SHRED_IN_SLOT
    }

    /// Whether this data shred ends a run of serialized entries.
    pub fn data_complete(&self) -> (r: bool)
        ensures
            self.wf(),
            r == (is_data_variant(variant_of(self@)) && is_data_complete(self@)),
    {
        proof {
            use_type_invariant(self);
        }
        self.is_data() && self.payload[85] & DATA_COMPLETE_SHRED == DATA_COMPLETE_SHRED
    }

    /// The entry data of a data shred.
    pub fn data(&self) -> (r: Option<&[u8]>)
        ensures
            self.wf(),
            match r {
                Some(d) => is_data_variant(variant_of(self@)) && d@ == data_of(self@),
                None => !is_data_variant(variant_of(self@)),
            },
    {
        proof {
            use_type_invariant(self);
        }
        if self.is_data() {
            let start: usize = if self.payload[OFFSET_OF_VARIANT] == VARIANT_CHAINED_DATA {
                SIZE_OF_CHAINED_DATA_SHRED_HEADERS
            } else {
                SIZE_OF_DATA_SHRED_HEADERS
            };
            let size = u16_from_le_bytes(vstd::slice::slice_subrange(self.payload.as_slice(), 86, 88));
            Some(vstd::slice::slice_subrange(self.payload.as_slice(), start, size as usize))
        } else {
            None
        }
    }

    /// Number of data shreds in this code shred's erasure batch.
    pub fn num_data_shreds(&self) -> (r: Option<u16>)
        ensures
            self.wf(),
            r == if is_data_variant(variant_of(self@)) {
                None::<u16>
            } else {
                Some(num_data_of(self@))
            },
    {
        proof {
            use_type_invariant(self);
        }
        if self.is_data() {
            None
        } else {
            Some(u16_from_le_bytes(vstd::slice::slice_subrange(self.payload.as_slice(), 83, 85)))
        }
    }

    /// Number of code shreds in this code shred's erasure batch.
    pub fn num_coding_shreds(&self) -> (r: Option<u16>)
        ensures
            self.wf(),
            r == if is_data_variant(variant_of(self@)) {
                None::<u16>
            } else {
                Some(num_coding_of(self@))
            },
    {
        proof {
            use_type_invariant(self);
        }
        if self.is_data() {
            None
        } else {
            Some(u16_from_le_bytes(vstd::slice::slice_subrange(self.payload.as_slice(), 85, 87)))
        }
    }

    /// Position of this code shred among the code shreds of its batch.
    pub fn position(&self) -> (r: Option<u16>)
        ensures
            self.wf(),
            r == if is_data_variant(variant_of(self@)) {
                None::<u16>
            } else {
                Some(position_of(self@))
            },
    {
        proof {
            use_type_invariant(self);
        }
        if self.is_data() {
            None
        } else {
            Some(u16_from_le_bytes(vstd::slice::slice_subrange(self.payload.as_slice(), 87, 89)))
        }
    }

    /// Position of this shred within its erasure batch.
    pub fn erasure_shard_index(&self) -> (r: Option<usize>)
        ensures
            self.wf(),
            match r {
                Some(i) => erasure_shard_index_of(self@) == Some(i as int),
                None => erasure_shard_index_of(self@) is None,
            },
    {
        proof {
            use_type_invariant(self);
        }
        if self.is_data() {
            let index = self.index();
            let fec_set_index = self.fec_set_index();
            if index >= fec_set_index {
                Some((index - fec_set_index) as usize)
            } else {
                None
            }
        } else {
            let num_data = u16_from_le_bytes(vstd::slice::slice_subrange(self.payload.as_slice(), 83, 85));
            let position = u16_from_le_bytes(vstd::slice::slice_subrange(self.payload.as_slice(), 87, 89));
            Some(num_data as usize + position as usize)
        }
    }

    /// The bytes of this shred that take part in erasure coding; all
    /// shards have `SIZE_OF_DATA_PAYLOAD` bytes.
    pub fn erasure_shard(&self) -> (r: &[u8])
        ensures
            self.wf(),
            r@ == erasure_shard_of(self@),
            r@.len() == SIZE_OF_DATA_PAYLOAD,
    {
        proof {
            use_type_invariant(self);
        }
        if self.is_data() {
            self.payload.as_slice()
        } else {
            vstd::slice::slice_subrange(
                self.payload.as_slice(),
                SIZE_OF_CODING_SHRED_HEADERS,
                SIZE_OF_CODE_PAYLOAD,
            )
        }
    }
}

} // verus!
