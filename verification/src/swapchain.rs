//! Swapchain parameter selection.
//!
//! Creating a swapchain is a device call, but choosing its parameters from
//! what the surface advertises is plain arithmetic over the queried values:
//! the surface format and present mode are picked by preference with a
//! fallback, the extent is clamped to the surface's bounds, and the image
//! count starts one above the minimum, capped by the maximum when the surface
//! has one.  The embedding program queries the surface, hands the raw values
//! over, and builds the creation call from what is returned.
use vstd::prelude::*;

verus! {

/// Advertised format `i` equals the preferred format/color-space pair.
pub open spec fn format_matches(formats: Seq<(i32, i32)>, i: int, format: i32, color_space: i32) -> bool {
    0 <= i < formats.len() && formats[i].0 == format && formats[i].1 == color_space
}

/// Index of the surface format to use: the first advertised pair equal to
/// the preferred one, or the first advertised pair when none matches.
pub fn pick_surface_format(formats: &Vec<(i32, i32)>, format: i32, color_space: i32) -> (r: usize)
    requires
        formats@.len() > 0,
    ensures
        r < formats@.len(),
        format_matches(formats@, r as int, format, color_space) || (r == 0 && (forall|i: int|
            !format_matches(formats@, i, format, color_space))),
        forall|i: int| 0 <= i < r ==> !format_matches(formats@, i, format, color_space),
{
    let mut i: usize = 0;
    while i < formats.len()
        invariant
            i <= formats@.len(),
            forall|j: int| 0 <= j < i ==> !format_matches(formats@, j, format, color_space),
        decreases formats@.len() - i,
    {
        let (f, cs) = formats[i];
        if f == format && cs == color_space {
            return i;
        }
        i += 1;
    }
    0
}

/// The present mode to use: the preferred one when the surface advertises
/// it, else the fallback.
pub fn pick_present_mode(modes: &Vec<i32>, preferred: i32, fallback: i32) -> (r: i32)
    ensures
        r == if modes@.contains(preferred) {
            preferred
        } else {
            fallback
        },
{
    let mut i: usize = 0;
    while i < modes.len()
        invariant
            i <= modes@.len(),
            forall|j: int| 0 <= j < i ==> modes@[j] != preferred,
        decreases modes@.len() - i,
    {
        if modes[i] == preferred {
            return preferred;
        }
        i += 1;
    }
    fallback
}

/// A window dimension clamped to the surface's bounds: raised to the lower
/// bound first, then capped at the upper bound (so the upper bound wins when
/// the bounds cross).
pub open spec fn clamped(value: u32, lo: u32, hi: u32) -> u32 {
    let raised = if value > lo {
        value
    } else {
        lo
    };
    if raised < hi {
        raised
    } else {
        hi
    }
}

/// Clamp one extent dimension to the surface's advertised bounds.
pub fn clamp_dimension(value: u32, lo: u32, hi: u32) -> (r: u32)
    ensures
        r == clamped(value, lo, hi),
{
    let raised = if value > lo {
        value
    } else {
        lo
    };
    if raised < hi {
        raised
    } else {
        hi
    }
}

/// The number of swapchain images to request: one above the advertised
/// minimum, capped by the advertised maximum when the surface has one (a
/// maximum of zero means unbounded).
pub fn swapchain_image_count(min_image_count: u32, max_image_count: u32) -> (r: u32)
    requires
        min_image_count < u32::MAX,
    ensures
        r == if max_image_count > 0 && min_image_count + 1 > max_image_count {
            max_image_count
        } else {
            (min_image_count + 1) as u32
        },
{
    let count = min_image_count + 1;
    if max_image_count > 0 && count > max_image_count {
        max_image_count
    } else {
        count
    }
}

} // verus!
