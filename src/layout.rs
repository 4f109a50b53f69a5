//! Reading fields straight off a serialized shred, without parsing it.
use vstd::prelude::*;
use vstd::bytes::*;
use crate::ShredError;
use crate::shred::{
    data_of, data_start, flags_of, index_of, is_data_variant, size_of, variant_of,
    OFFSET_OF_VARIANT, SIZE_OF_CHAINED_DATA_SHRED_HEADERS, SIZE_OF_COMMON_SHRED_HEADER,
    SIZE_OF_DATA_SHRED_HEADERS, VARIANT_CHAINED_DATA, VARIANT_DATA,
};

verus! {

/// What `get_data` gives for a payload.
pub open spec fn data_result(p: Seq<u8>) -> Result<Seq<u8>, ShredError> {
    if p.len() < SIZE_OF_DATA_SHRED_HEADERS {
        Err(ShredError::InvalidPayloadSize(p.len() as usize))
    } else if !is_data_variant(variant_of(p)) {
        Err(ShredError::InvalidShredVariant)
    } else if !(data_start(p) <= size_of(p) <= p.len()) {
        Err(ShredError::InvalidDataSize { size: size_of(p), payload: p.len() as usize })
    } else {
        Ok(data_of(p))
    }
}

/// What `get_flags` gives for a payload.
pub open spec fn flags_result(p: Seq<u8>) -> Result<u8, ShredError> {
    if p.len() < SIZE_OF_DATA_SHRED_HEADERS {
        Err(ShredError::InvalidPayloadSize(p.len() as usize))
    } else if !is_data_variant(variant_of(p)) {
        Err(ShredError::InvalidShredVariant)
    } else {
        Ok(flags_of(p))
    }
}

/// The shred's index, if the payload is long enough to hold one.
pub fn get_index(shred: &[u8]) -> (r: Option<u32>)
    ensures
        r == if shred@.len() >= SIZE_OF_COMMON_SHRED_HEADER {
            Some(index_of(shred@))
        } else {
            None::<u32>
        },
{
    if shred.len() >= SIZE_OF_COMMON_SHRED_HEADER {
        Some(u32_from_le_bytes(vstd::slice::slice_subrange(shred, 73, 77)))
    } else {
        None
    }
}

/// The entry data of a serialized data shred.
pub fn get_data(shred: &[u8]) -> (r: Result<&[u8], ShredError>)
    ensures
        match r {
            Ok(d) => data_result(shred@) == Ok::<Seq<u8>, ShredError>(d@),
            Err(e) => data_result(shred@) == Err::<Seq<u8>, ShredError>(e),
        },
{
    let len = shred.len();
    if len < SIZE_OF_DATA_SHRED_HEADERS {
        return Err(ShredError::InvalidPayloadSize(len));
    }
    let variant = shred[OFFSET_OF_VARIANT];
    if variant != VARIANT_DATA && variant != VARIANT_CHAINED_DATA {
        return Err(ShredError::InvalidShredVariant);
    }
    let start: usize = if variant == VARIANT_CHAINED_DATA {
        SIZE_OF_CHAINED_DATA_SHRED_HEADERS
    } else {
        SIZE_OF_DATA_SHRED_HEADERS
    };
    let size = u16_from_le_bytes(vstd::slice::slice_subrange(shred, 86, 88));
    if (size as usize) < start || size as usize > len {
        return Err(ShredError::InvalidDataSize { size, payload: len });
    }
    Ok(vstd::slice::slice_subrange(shred, start, size as usize))
}

/// The flags byte of a serialized data shred.
pub fn get_flags(shred: &[u8]) -> (r: Result<u8, ShredError>)
    ensures
        r == flags_result(shred@),
{
    let len = shred.len();
    if len < SIZE_OF_DATA_SHRED_HEADERS {
        return Err(ShredError::InvalidPayloadSize(len));
    }
    let variant = shred[OFFSET_OF_VARIANT];
    if variant != VARIANT_DATA && variant != VARIANT_CHAINED_DATA {
        return Err(ShredError::InvalidShredVariant);
    }
    Ok(shred[85])
}

} // verus!
