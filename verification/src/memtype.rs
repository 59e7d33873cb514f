//! Memory-type selection.
//!
//! A device advertises up to 32 memory types; a resource's requirements name
//! the admissible ones as a 32-bit mask, one bit per type, and each type
//! carries a bitset of property flags.  The right type is the first
//! admissible one whose flags include everything the caller asked for.  The
//! embedding program extracts the mask and the raw flag words from the
//! device's structures and hands them over as plain values.
use vstd::prelude::*;

verus! {

/// Memory type `i` is suitable: admitted by the requirement mask, with all
/// requested property flags set.
pub open spec fn suitable_memorytype(
    memory_type_bits: u32,
    flags: Seq<u32>,
    usage: u32,
    i: int,
) -> bool {
    &&& 0 <= i < flags.len()
    &&& (memory_type_bits >> (i as u32)) & 1u32 == 1u32
    &&& flags[i] & usage == usage
}

/// The index of the first suitable memory type, or `None` when no advertised
/// type is both admitted by `memory_type_bits` and equipped with every flag
/// in `usage`.
pub fn find_memorytype_index(memory_type_bits: u32, flags: &Vec<u32>, usage: u32) -> (r: Option<
    u32,
>)
    requires
        flags@.len() <= 32,
    ensures
        match r {
            Some(i) => suitable_memorytype(memory_type_bits, flags@, usage, i as int)
                && (forall|j: int| 0 <= j < i ==> !suitable_memorytype(
                memory_type_bits,
                flags@,
                usage,
                j,
            )),
            None => forall|j: int| !suitable_memorytype(memory_type_bits, flags@, usage, j),
        },
{
    let mut i: usize = 0;
    while i < flags.len()
        invariant
            i <= flags@.len(),
            flags@.len() <= 32,
            forall|j: int| 0 <= j < i ==> !suitable_memorytype(memory_type_bits, flags@, usage, j),
        decreases flags@.len() - i,
    {
        if (memory_type_bits >> (i as u32)) & 1u32 == 1u32 && (flags[i] & usage) == usage {
            return Some(i as u32);
        }
        i += 1;
    }
    None
}

} // verus!
