use touchpad_raw::hid::{
    axis_ranges, AxisRanges, CapUsage, Field, ValueCap, HID_USAGE_DIGITIZER_CONTACT_ID,
    HID_USAGE_DIGITIZER_TIP_SWITCH, HID_USAGE_DIGITIZER_TOUCH_PAD, HID_USAGE_GENERIC_X,
    HID_USAGE_GENERIC_Y, HID_USAGE_PAGE_DIGITIZER, HID_USAGE_PAGE_GENERIC,
};

fn cap(usage_page: u16, usage: u16, logical_min: i32, logical_max: i32) -> ValueCap {
    ValueCap {
        usage_page,
        usage: CapUsage::Single { usage },
        link_collection: 1,
        logical_min,
        logical_max,
    }
}

#[test]
fn the_usage_numbers_are_those_of_the_usage_tables() {
    assert_eq!(HID_USAGE_PAGE_GENERIC, 0x01);
    assert_eq!(HID_USAGE_PAGE_DIGITIZER, 0x0D);
    assert_eq!(HID_USAGE_GENERIC_X, 0x30);
    assert_eq!(HID_USAGE_GENERIC_Y, 0x31);
    assert_eq!(HID_USAGE_DIGITIZER_TOUCH_PAD, 0x05);
    assert_eq!(HID_USAGE_DIGITIZER_TIP_SWITCH, 0x42);
    assert_eq!(HID_USAGE_DIGITIZER_CONTACT_ID, 0x51);
}

#[test]
fn fields_mean_what_page_and_usage_say() {
    assert_eq!(cap(0x01, 0x30, 0, 1).field(), Field::X);
    assert_eq!(cap(0x01, 0x31, 0, 1).field(), Field::Y);
    assert_eq!(cap(0x0D, 0x42, 0, 1).field(), Field::Tip);
    assert_eq!(cap(0x0D, 0x51, 0, 1).field(), Field::Id);
    assert_eq!(cap(0x0D, 0x30, 0, 1).field(), Field::Other);
    assert_eq!(cap(0x01, 0x42, 0, 1).field(), Field::Other);
    assert_eq!(cap(0x0D, 0x54, 0, 1).field(), Field::Other);
    assert_eq!(cap(0x09, 0x30, 0, 1).field(), Field::Other);
}

#[test]
fn a_range_is_looked_up_by_its_first_usage() {
    let mut x = cap(0x01, 0, 0, 3500);
    x.usage = CapUsage::Range { usage_min: 0x30 };
    assert_eq!(x.usage_code(), 0x30);
    assert_eq!(x.field(), Field::X);
    assert_eq!(cap(0x01, 0x31, 0, 1).usage_code(), 0x31);
}

#[test]
fn axes_that_no_field_declares_run_from_zero_to_one() {
    let unknown = AxisRanges { x_min: 0, x_max: 1, y_min: 0, y_max: 1 };
    assert_eq!(axis_ranges(&vec![]), unknown);
    assert_eq!(axis_ranges(&vec![cap(0x0D, 0x51, 0, 31)]), unknown);
}

#[test]
fn the_last_field_of_an_axis_counts() {
    let caps = vec![
        cap(0x01, 0x30, 0, 100),
        cap(0x01, 0x31, -5, 50),
        cap(0x0D, 0x51, 0, 31),
        cap(0x01, 0x30, 10, 3500),
    ];
    assert_eq!(
        axis_ranges(&caps),
        AxisRanges { x_min: 10, x_max: 3500, y_min: -5, y_max: 50 }
    );
}
