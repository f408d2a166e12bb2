//! The mapping family as the C interface numbers it.
use vstd::prelude::*;

use crate::mapping::dispatcher::MappingType;

verus! {

/// Mapping family discriminant of the C interface: `SPINYARN_YARN` is 0 and
/// `SPINYARN_VANILLA` is 1.
#[allow(non_camel_case_types)]
#[derive(Debug, Clone, Copy, PartialEq, Eq, Structural)]
pub enum spinyarn_mapping_type_t {
    SPINYARN_YARN,
    SPINYARN_VANILLA,
}

/// Convert a C discriminant into the mapping family.
pub fn to_mapping_type(t: spinyarn_mapping_type_t) -> (m: MappingType)
    ensures
        m == (match t {
            spinyarn_mapping_type_t::SPINYARN_VANILLA => MappingType::Vanilla,
            spinyarn_mapping_type_t::SPINYARN_YARN => MappingType::Yarn,
        }),
{
    match t {
        spinyarn_mapping_type_t::SPINYARN_VANILLA => MappingType::Vanilla,
        _ => MappingType::Yarn,
    }
}

/// The largest content the C interface accepts (64 MiB).
pub const MAX_CONTENT_LEN: usize = 67108864;

/// Whether the C interface deobfuscates a content of this length: it refuses
/// empty content and content over 64 MiB.
pub fn content_accepted(content_len: usize) -> (r: bool)
    ensures
        r == (0 < content_len && content_len <= MAX_CONTENT_LEN),
{
    0 < content_len && content_len <= MAX_CONTENT_LEN
}

} // verus!
