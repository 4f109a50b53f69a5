//! Reed-Solomon coding over GF(2^8), and a shared cache of encoders keyed
//! by their dimensions.
use vstd::prelude::*;
use vstd::rwlock::RwLock;
use std::collections::hash_map::RandomState;
use std::sync::Arc;
use lazy_lru::LruCache;
use reed_solomon_erasure::galois_8::ReedSolomon;
use crate::erasure::DATA_SHREDS_PER_FEC_BLOCK;

verus! {

/// A shared handle on a Reed-Solomon codec over GF(2^8) of
/// reed_solomon_erasure. Opaque: Verus cannot declare `ReedSolomon<F:
/// Field>` itself, whose parameter is bound by that crate's own trait.
#[verifier::external_body]
struct CodecHandle {
    inner: Arc<ReedSolomon>,
}

/// A codec with the dimensions it was built for. Only `new_codec` builds a
/// new one (`share_codec` hands out another handle on the same one), and
/// nothing changes it afterwards.
pub struct Codec {
    handle: CodecHandle,
    data_shards: usize,
    parity_shards: usize,
}

impl Codec {
    pub closed spec fn spec_data_shards(&self) -> nat {
        self.data_shards as nat
    }

    pub closed spec fn spec_parity_shards(&self) -> nat {
        self.parity_shards as nat
    }

    /// Number of data shards the codec takes.
    pub fn data_shards(&self) -> (r: usize)
        ensures
            r == self.spec_data_shards(),
    {
        self.data_shards
    }

    /// Number of parity shards the codec makes.
    pub fn parity_shards(&self) -> (r: usize)
        ensures
            r == self.spec_parity_shards(),
    {
        self.parity_shards
    }
}

/// Relies on lazy_lru's `LruCache`, held opaque.
#[verifier::external_type_specification]
#[verifier::external_body]
#[verifier::reject_recursive_types(K)]
#[verifier::reject_recursive_types(V)]
#[verifier::reject_recursive_types(S)]
pub struct ExLruCache<K, V, S>(lazy_lru::LruCache<K, V, S>);

/// Number of shards a GF(2^8) code can hold in all.
pub const MAX_TOTAL_SHARDS: usize = 256;

/// The parity shards that Reed-Solomon encoding over GF(2^8) computes for
/// the given data shards, `num_parity` of them.
pub uninterp spec fn rs_parity(data: Seq<Seq<u8>>, num_parity: nat) -> Seq<Seq<u8>>;

/// What `ReedSolomon::new` reports for the given dimensions, if it fails.
pub open spec fn codec_error(data_shards: nat, parity_shards: nat) -> Option<reed_solomon_erasure::Error> {
    if data_shards == 0 {
        Some(reed_solomon_erasure::Error::TooFewDataShards)
    } else if parity_shards == 0 {
        Some(reed_solomon_erasure::Error::TooFewParityShards)
    } else if data_shards + parity_shards > MAX_TOTAL_SHARDS {
        Some(reed_solomon_erasure::Error::TooManyShards)
    } else {
        None
    }
}

/// What reconstructing the missing data shards of an erasure batch with
/// `num_data` data shards gives, from the shards that are present.
pub uninterp spec fn rs_recovered(shards: Seq<Option<Seq<u8>>>, num_data: nat) -> Seq<Option<Seq<u8>>>;

/// `shards` hold, where present, the shards of the erasure batch that data
/// shards `d` encode into with `num_parity` parity shards: `d` followed by
/// its parity.
pub open spec fn consistent_with(shards: Seq<Option<Seq<u8>>>, d: Seq<Seq<u8>>, num_parity: nat) -> bool {
    &&& shards.len() == d.len() + num_parity
    &&& d.len() > 0
    &&& forall|i: int| 0 <= i < d.len() ==> (#[trigger] d[i]).len() == d[0].len()
    &&& forall|i: int|
        0 <= i < shards.len() && (#[trigger] shards[i]) is Some ==> shards[i]->0 == if i < d.len() {
            d[i]
        } else {
            rs_parity(d, num_parity)[i - d.len()]
        }
}

/// The outcome of building a codec agrees with the dimensions it was asked for.
pub open spec fn codec_outcome(
    data_shards: nat,
    parity_shards: nat,
    r: Result<Codec, reed_solomon_erasure::Error>,
) -> bool {
    match r {
        Ok(c) => codec_error(data_shards, parity_shards) is None && c.spec_data_shards()
            == data_shards && c.spec_parity_shards() == parity_shards,
        Err(e) => codec_error(data_shards, parity_shards) == Some(e),
    }
}

pub open spec fn shard_views(shards: Seq<Vec<u8>>) -> Seq<Seq<u8>> {
    shards.map_values(|s: Vec<u8>| s@)
}

pub open spec fn optional_shard_views(shards: Seq<Option<Vec<u8>>>) -> Seq<Option<Seq<u8>>> {
    shards.map_values(
        |s: Option<Vec<u8>>|
            match s {
                Some(v) => Some(v@),
                None => None,
            },
    )
}

/// Number of shards present.
pub open spec fn count_present(shards: Seq<Option<Seq<u8>>>) -> nat
    decreases shards.len(),
{
    if shards.len() == 0 {
        0
    } else {
        (if shards.last() is Some { 1nat } else { 0nat }) + count_present(shards.drop_last())
    }
}

/// Relies on `ReedSolomon::new` of reed_solomon_erasure: it fails exactly
/// when there are no data shards, no parity shards, or more than 256 in
/// all; the codec is recorded with the dimensions it was built for.
#[verifier::external_body]
fn new_codec(data_shards: usize, parity_shards: usize) -> (r: Result<Codec, reed_solomon_erasure::Error>)
    requires
        data_shards + parity_shards <= usize::MAX,
    ensures
        codec_outcome(data_shards as nat, parity_shards as nat, r),
{
    ReedSolomon::new(data_shards, parity_shards).map(
        |rs| Codec { handle: CodecHandle { inner: Arc::new(rs) }, data_shards, parity_shards },
    )
}

/// Relies on `Arc::clone` of std: the clone points at the same value.
#[verifier::external_body]
fn share<T>(a: &Arc<T>) -> (r: Arc<T>)
    ensures
        r == *a,
{
    Arc::clone(a)
}

/// Relies on `Arc::clone` of std: both handles share one codec.
#[verifier::external_body]
fn share_handle(handle: &CodecHandle) -> (r: CodecHandle) {
    CodecHandle { inner: Arc::clone(&handle.inner) }
}

/// Another handle on the same codec.
fn share_codec(codec: &Codec) -> (r: Codec)
    ensures
        r.spec_data_shards() == codec.spec_data_shards(),
        r.spec_parity_shards() == codec.spec_parity_shards(),
{
    Codec {
        handle: share_handle(&codec.handle),
        data_shards: codec.data_shards,
        parity_shards: codec.parity_shards,
    }
}

/// Relies on `ReedSolomon::encode_sep` of reed_solomon_erasure: it checks
/// the shard counts against the codec's dimensions and that all shards
/// have one nonzero length before it writes anything, and then overwrites
/// every parity shard with the parity of the data shards.
#[verifier::external_body]
pub(crate) fn encode_parity(
    codec: &Codec,
    data: &Vec<Vec<u8>>,
    parity: &mut Vec<Vec<u8>>,
) -> (r: Result<(), reed_solomon_erasure::Error>)
    ensures
        final(parity)@.len() == old(parity)@.len(),
        forall|i: int|
            0 <= i < final(parity)@.len() ==> (#[trigger] final(parity)@[i])@.len()
                == old(parity)@[i]@.len(),
        ({
            &&& data@.len() == codec.spec_data_shards()
            &&& old(parity)@.len() == codec.spec_parity_shards()
            &&& data@.len() > 0
            &&& data@[0]@.len() > 0
            &&& forall|i: int| 0 <= i < data@.len() ==> (#[trigger] data@[i])@.len() == data@[0]@.len()
            &&& forall|i: int|
                0 <= i < old(parity)@.len() ==> (#[trigger] old(parity)@[i])@.len() == data@[0]@.len()
        }) ==> r is Ok,
        r is Err ==> shard_views(final(parity)@) == shard_views(old(parity)@),
        r is Ok ==> shard_views(final(parity)@) == rs_parity(
            shard_views(data@),
            old(parity)@.len() as nat,
        ),
{
    codec.handle.inner.encode_sep(data, parity)
}

/// Relies on `ReedSolomon::reconstruct_data` of reed_solomon_erasure: with
/// one slot per shard of the codec and the shards present all of one
/// nonzero length, it succeeds when at least the codec's number of data
/// shards are present and fails with `TooFewShardsPresent` when fewer are.
/// On failure nothing is touched; on success the shards that were present
/// are unchanged and the missing data shards are filled in, as a function
/// of the shards present and the codec's number of data shards: where the
/// shards present are those of the batch that some data shards encode
/// into, those data shards come back.
#[verifier::external_body]
pub(crate) fn reconstruct_data(
    codec: &Codec,
    shards: &mut Vec<Option<Vec<u8>>>,
) -> (r: Result<(), reed_solomon_erasure::Error>)
    ensures
        final(shards)@.len() == old(shards)@.len(),
        ({
            let present = optional_shard_views(old(shards)@);
            &&& present.len() == codec.spec_data_shards() + codec.spec_parity_shards()
            &&& count_present(present) >= codec.spec_data_shards()
            &&& forall|i: int, j: int|
                0 <= i < present.len() && 0 <= j < present.len() && (#[trigger] present[i]) is Some
                    && (#[trigger] present[j]) is Some ==> present[i]->0.len() > 0
                    && present[i]->0.len() == present[j]->0.len()
        }) ==> r is Ok,
        ({
            let present = optional_shard_views(old(shards)@);
            &&& present.len() == codec.spec_data_shards() + codec.spec_parity_shards()
            &&& count_present(present) < codec.spec_data_shards()
            &&& forall|i: int, j: int|
                0 <= i < present.len() && 0 <= j < present.len() && (#[trigger] present[i]) is Some
                    && (#[trigger] present[j]) is Some ==> present[i]->0.len() > 0
                    && present[i]->0.len() == present[j]->0.len()
        }) ==> (r matches Err(e) && e == reed_solomon_erasure::Error::TooFewShardsPresent),
        r is Err ==> optional_shard_views(final(shards)@) == optional_shard_views(old(shards)@),
        r is Ok ==> optional_shard_views(final(shards)@) == rs_recovered(
            optional_shard_views(old(shards)@),
            codec.spec_data_shards(),
        ),
        r is Ok ==> forall|i: int|
            0 <= i < old(shards)@.len() && (#[trigger] old(shards)@[i]) is Some
                ==> final(shards)@[i] == old(shards)@[i],
        r is Ok ==> forall|d: Seq<Seq<u8>>|
            d.len() == codec.spec_data_shards() && #[trigger] consistent_with(
                optional_shard_views(old(shards)@),
                d,
                codec.spec_parity_shards(),
            ) ==> forall|i: int|
                0 <= i < d.len() ==> optional_shard_views(final(shards)@)[i] == Some(#[trigger] d[i]),
{
    codec.handle.inner.reconstruct_data(shards)
}

/// One cache entry: the dimensions it is for and, once made, the outcome of
/// building that codec.
pub struct CodecSlot {
    pub data_shards: usize,
    pub parity_shards: usize,
    pub codec: Option<Result<Codec, reed_solomon_erasure::Error>>,
}

/// A slot holds only the outcome of building the codec it is keyed by.
pub open spec fn slot_inv(slot: CodecSlot) -> bool {
    match slot.codec {
        Some(r) => codec_outcome(slot.data_shards as nat, slot.parity_shards as nat, r),
        None => true,
    }
}

/// The invariant every cache slot keeps.
pub struct SlotPred;

impl vstd::rwlock::RwLockPredicate<CodecSlot> for SlotPred {
    open spec fn inv(self, slot: CodecSlot) -> bool {
        slot_inv(slot)
    }
}

/// The cache map keeps the capacity it was made with.
pub struct LruPred {
    pub capacity: nat,
}

impl vstd::rwlock::RwLockPredicate<CodecLru> for LruPred {
    open spec fn inv(self, lru: CodecLru) -> bool {
        lru_capacity(lru) == self.capacity
    }
}

pub type SlotLock = RwLock<CodecSlot, SlotPred>;

type CodecLru = LruCache<(usize, usize), Arc<SlotLock>, RandomState>;

/// The keys an LRU cache of codec slots holds.
pub uninterp spec fn lru_keys(lru: CodecLru) -> Set<(usize, usize)>;

/// The number of keys an LRU cache of codec slots keeps.
pub uninterp spec fn lru_capacity(lru: CodecLru) -> nat;

/// Relies on `LruCache::with_capacity_and_hasher` of lazy_lru, with std's
/// default hasher: the cache starts empty with the given capacity.
#[verifier::external_body]
fn lru_new(capacity: usize) -> (r: CodecLru)
    ensures
        lru_keys(r) == Set::<(usize, usize)>::empty(),
        lru_capacity(r) == capacity,
{
    LruCache::with_capacity_and_hasher(capacity, RandomState::new())
}

/// Relies on `LruCache::get` of lazy_lru: it finds an entry exactly when
/// the key is held; the entry is shared, not copied.
#[verifier::external_body]
fn lru_get(lru: &CodecLru, key: &(usize, usize)) -> (r: Option<Arc<SlotLock>>)
    ensures
        r is Some <==> lru_keys(*lru).contains(*key),
{
    lru.get(key).cloned()
}

/// Relies on `LruCache::put` of lazy_lru: the capacity stays as it was;
/// the new key, the most recently used, survives eviction when the
/// capacity is at least one; no other key is added.
#[verifier::external_body]
fn lru_put(lru: &mut CodecLru, key: (usize, usize), value: Arc<SlotLock>)
    ensures
        lru_capacity(*final(lru)) == lru_capacity(*old(lru)),
        lru_capacity(*old(lru)) >= 1 ==> lru_keys(*final(lru)).contains(key),
        lru_keys(*final(lru)).subset_of(lru_keys(*old(lru)).insert(key)),
{
    lru.put(key, value);
}

/// Codecs keyed by `(data shards, parity shards)`, built at most once per
/// key while the key stays in the cache, and shared by reference count.
pub struct ReedSolomonCache {
    lru: RwLock<CodecLru, LruPred>,
}

impl ReedSolomonCache {
    /// Number of keys the cache keeps.
    pub const CAPACITY: usize = 4 * DATA_SHREDS_PER_FEC_BLOCK;

    /// Number of keys the cache keeps before it evicts the least recently
    /// used.
    pub closed spec fn spec_capacity(&self) -> nat {
        self.lru.pred().capacity
    }

    /// An empty cache keeping `CAPACITY` keys.
    pub fn new() -> (r: ReedSolomonCache)
        ensures
            r.spec_capacity() == Self::CAPACITY,
    {
        let lru = lru_new(Self::CAPACITY);
        ReedSolomonCache { lru: RwLock::new(lru, Ghost(LruPred { capacity: Self::CAPACITY as nat })) }
    }

    /// Finds the slot for `key`, adding an empty one on a miss.
    fn slot(&self, key: (usize, usize)) -> (r: Arc<SlotLock>) {
        let read = self.lru.acquire_read();
        let found = lru_get(read.borrow(), &key);
        read.release_read();
        match found {
            Some(slot) => slot,
            None => {
                let (mut lru, write) = self.lru.acquire_write();
                let slot = match lru_get(&lru, &key) {
                    Some(slot) => slot,
                    None => {
                        let slot = Arc::new(
                            RwLock::new(
                                CodecSlot { data_shards: key.0, parity_shards: key.1, codec: None },
                                Ghost(SlotPred),
                            ),
                        );
                        lru_put(&mut lru, key, share(&slot));
                        slot
                    },
                };
                write.release_write(lru);
                slot
            },
        }
    }

    /// The codec for `data_shards` data and `parity_shards` parity shards,
    /// or why it cannot be built. The first caller for a key builds it;
    /// later callers share what it got.
    pub fn get(&self, data_shards: usize, parity_shards: usize) -> (r: Result<
        Codec,
        reed_solomon_erasure::Error,
    >)
        requires
            data_shards + parity_shards <= usize::MAX,
        ensures
            codec_outcome(data_shards as nat, parity_shards as nat, r),
    {
        let slot = self.slot((data_shards, parity_shards));
        let read = slot.acquire_read();
        let found = {
            let entry = read.borrow();
            if entry.data_shards == data_shards && entry.parity_shards == parity_shards {
                match &entry.codec {
                    Some(Ok(codec)) => Some(Ok(share_codec(codec))),
                    Some(Err(e)) => Some(Err(*e)),
                    None => None,
                }
            } else {
                None
            }
        };
        read.release_read();
        if let Some(r) = found {
            return r;
        }
        let (entry, write) = slot.acquire_write();
        if entry.data_shards != data_shards || entry.parity_shards != parity_shards {
            // Not this key's slot: build a codec of its own.
            write.release_write(entry);
            return new_codec(data_shards, parity_shards);
        }
        match entry.codec {
            Some(Ok(codec)) => {
                let r = share_codec(&codec);
                write.release_write(
                    CodecSlot { data_shards, parity_shards, codec: Some(Ok(codec)) },
                );
                Ok(r)
            },
            Some(Err(e)) => {
                write.release_write(CodecSlot { data_shards, parity_shards, codec: Some(Err(e)) });
                Err(e)
            },
            None => {
                let built = new_codec(data_shards, parity_shards);
                let r = match &built {
                    Ok(codec) => Ok(share_codec(codec)),
                    Err(e) => Err(*e),
                };
                write.release_write(CodecSlot { data_shards, parity_shards, codec: Some(built) });
                r
            },
        }
    }
}

impl Default for ReedSolomonCache {
    /// An empty cache keeping `CAPACITY` keys.
    fn default() -> (r: ReedSolomonCache)
        ensures
            r.spec_capacity() == ReedSolomonCache::CAPACITY,
    {
        ReedSolomonCache::new()
    }
}

} // verus!
