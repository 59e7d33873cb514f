use vkqueue::swapchain::{
    clamp_dimension, pick_present_mode, pick_surface_format, swapchain_image_count,
};

// raw values of the device API's format, color-space and present-mode enums
const B8G8R8A8_SRGB: i32 = 50;
const R8G8B8A8_UNORM: i32 = 37;
const SRGB_NONLINEAR: i32 = 0;
const OTHER_COLOR_SPACE: i32 = 1000104001;
const MAILBOX: i32 = 1;
const FIFO: i32 = 2;
const IMMEDIATE: i32 = 0;

#[test]
fn preferred_surface_format_wins() {
    let formats = vec![
        (R8G8B8A8_UNORM, SRGB_NONLINEAR),
        (B8G8R8A8_SRGB, OTHER_COLOR_SPACE),
        (B8G8R8A8_SRGB, SRGB_NONLINEAR),
        (B8G8R8A8_SRGB, SRGB_NONLINEAR),
    ];
    // both format and color space must match; the first full match wins
    assert_eq!(pick_surface_format(&formats, B8G8R8A8_SRGB, SRGB_NONLINEAR), 2);
}

#[test]
fn first_format_is_the_fallback() {
    let formats = vec![
        (R8G8B8A8_UNORM, SRGB_NONLINEAR),
        (R8G8B8A8_UNORM, OTHER_COLOR_SPACE),
    ];
    assert_eq!(pick_surface_format(&formats, B8G8R8A8_SRGB, SRGB_NONLINEAR), 0);
}

#[test]
fn mailbox_present_mode_when_advertised() {
    assert_eq!(pick_present_mode(&vec![IMMEDIATE, FIFO, MAILBOX], MAILBOX, FIFO), MAILBOX);
    assert_eq!(pick_present_mode(&vec![IMMEDIATE, FIFO], MAILBOX, FIFO), FIFO);
    assert_eq!(pick_present_mode(&Vec::new(), MAILBOX, FIFO), FIFO);
}

#[test]
fn extent_is_clamped_to_surface_bounds() {
    assert_eq!(clamp_dimension(800, 600, 1920), 800);
    assert_eq!(clamp_dimension(200, 600, 1920), 600);
    assert_eq!(clamp_dimension(4000, 600, 1920), 1920);
    // the upper bound wins when the bounds cross
    assert_eq!(clamp_dimension(800, 1000, 640), 640);
}

#[test]
fn image_count_is_one_above_minimum_capped_by_maximum() {
    assert_eq!(swapchain_image_count(2, 8), 3);
    assert_eq!(swapchain_image_count(3, 3), 3);
    // a maximum of zero means the surface imposes none
    assert_eq!(swapchain_image_count(2, 0), 3);
}
