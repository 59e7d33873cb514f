use vkqueue::memtype::find_memorytype_index;
use vkqueue::subpass::SubpassManager;

const DEVICE_LOCAL: u32 = 0x1;
const HOST_VISIBLE: u32 = 0x2;
const HOST_COHERENT: u32 = 0x4;

#[test]
fn picks_first_suitable_type() {
    let flags = vec![
        DEVICE_LOCAL,
        HOST_VISIBLE | HOST_COHERENT,
        HOST_VISIBLE | HOST_COHERENT,
    ];
    // every type admitted by the mask; the first with the requested flags wins
    assert_eq!(find_memorytype_index(0b111, &flags, HOST_VISIBLE), Some(1));
}

#[test]
fn requirement_mask_excludes_types() {
    let flags = vec![DEVICE_LOCAL, DEVICE_LOCAL];
    // type 0 is not admitted by the mask, so type 1 is chosen
    assert_eq!(find_memorytype_index(0b10, &flags, DEVICE_LOCAL), Some(1));
}

#[test]
fn requested_flags_must_all_be_present() {
    let flags = vec![HOST_VISIBLE, HOST_VISIBLE | HOST_COHERENT];
    assert_eq!(
        find_memorytype_index(0b11, &flags, HOST_VISIBLE | HOST_COHERENT),
        Some(1)
    );
}

#[test]
fn no_suitable_type_yields_none() {
    let flags = vec![DEVICE_LOCAL, HOST_VISIBLE];
    assert_eq!(find_memorytype_index(0b01, &flags, HOST_VISIBLE), None);
    assert_eq!(find_memorytype_index(0b00, &flags, DEVICE_LOCAL), None);
    assert_eq!(find_memorytype_index(0b11, &flags, HOST_COHERENT), None);
}

#[test]
fn empty_type_list_yields_none() {
    assert_eq!(find_memorytype_index(0xFFFF_FFFF, &Vec::new(), DEVICE_LOCAL), None);
}

#[test]
fn subpass_manager_constructs() {
    let a = SubpassManager::new();
    let b = SubpassManager::new();
    assert_eq!(a, b);
}
