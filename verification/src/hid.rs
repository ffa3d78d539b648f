//! The part of the HID vocabulary that a touchpad speaks, and what a device's
//! report descriptor says of its value fields.
//!
//! Every field of a report is tagged with a usage page (a broad category) and
//! a usage (a meaning within that page). The numbers come from the USB-IF HID
//! Usage Tables.

use vstd::prelude::*;

verus! {

/// The "Generic Desktop" usage page.
pub const HID_USAGE_PAGE_GENERIC: u16 = 0x01;

/// The "Digitizer" usage page: touch and pen devices.
pub const HID_USAGE_PAGE_DIGITIZER: u16 = 0x0D;

/// The X axis, on the generic page.
pub const HID_USAGE_GENERIC_X: u16 = 0x30;

/// The Y axis, on the generic page.
pub const HID_USAGE_GENERIC_Y: u16 = 0x31;

/// "This whole device is a touchpad", on the digitizer page.
pub const HID_USAGE_DIGITIZER_TOUCH_PAD: u16 = 0x05;

/// "Is this finger touching down?", on the digitizer page.
pub const HID_USAGE_DIGITIZER_TIP_SWITCH: u16 = 0x42;

/// The device's own number of a finger, on the digitizer page.
pub const HID_USAGE_DIGITIZER_CONTACT_ID: u16 = 0x51;

/// The usage of a value field: a range of usages that share one definition, or
/// a single one.
#[derive(Debug, Clone, Copy, PartialEq, Eq, Structural)]
pub enum CapUsage {
    Range { usage_min: u16 },
    Single { usage: u16 },
}

/// What the report descriptor says of one value field.
///
/// `link_collection` is the finger slot that the field belongs to; collection
/// 0 is the root that wraps all the others. `logical_min` and `logical_max`
/// bound the raw numbers that the hardware reports in the field.
#[derive(Debug, Clone, Copy, PartialEq, Eq, Structural)]
pub struct ValueCap {
    pub usage_page: u16,
    pub usage: CapUsage,
    pub link_collection: u16,
    pub logical_min: i32,
    pub logical_max: i32,
}

/// What a value field means to this library.
#[derive(Debug, Clone, Copy, PartialEq, Eq, Structural)]
pub enum Field {
    X,
    Y,
    Tip,
    Id,
    Other,
}

/// The raw ranges of the two axes.
#[derive(Debug, Clone, Copy, PartialEq, Eq, Structural)]
pub struct AxisRanges {
    pub x_min: i32,
    pub x_max: i32,
    pub y_min: i32,
    pub y_max: i32,
}

/// The meaning of a usage on a usage page.
pub open spec fn field_meaning(usage_page: u16, usage: u16) -> Field {
    if usage_page == HID_USAGE_PAGE_GENERIC && usage == HID_USAGE_GENERIC_X {
        Field::X
    } else if usage_page == HID_USAGE_PAGE_GENERIC && usage == HID_USAGE_GENERIC_Y {
        Field::Y
    } else if usage_page == HID_USAGE_PAGE_DIGITIZER && usage == HID_USAGE_DIGITIZER_TIP_SWITCH {
        Field::Tip
    } else if usage_page == HID_USAGE_PAGE_DIGITIZER && usage == HID_USAGE_DIGITIZER_CONTACT_ID {
        Field::Id
    } else {
        Field::Other
    }
}

impl ValueCap {
    /// The usage that the field is looked up by: the first one of a range.
    pub open spec fn lookup_usage(self) -> u16 {
        match self.usage {
            CapUsage::Range { usage_min } => usage_min,
            CapUsage::Single { usage } => usage,
        }
    }

    /// What the field means.
    pub open spec fn meaning(self) -> Field {
        field_meaning(self.usage_page, self.lookup_usage())
    }

    /// The usage that the field is looked up by.
    pub fn usage_code(&self) -> (usage: u16)
        ensures
            usage == self.lookup_usage(),
            self.usage matches CapUsage::Range { usage_min } ==> usage == usage_min,
            self.usage matches CapUsage::Single { usage: only } ==> usage == only,
    {
        match self.usage {
            CapUsage::Range { usage_min } => usage_min,
            CapUsage::Single { usage } => usage,
        }
    }

    /// What the field means.
    pub fn field(&self) -> (field: Field)
        ensures
            field == self.meaning(),
            field == Field::X <==> self.usage_page == 0x01 && (self.usage == (CapUsage::Single {
                usage: 0x30,
            }) || self.usage == (CapUsage::Range { usage_min: 0x30 })),
            field == Field::Y <==> self.usage_page == 0x01 && (self.usage == (CapUsage::Single {
                usage: 0x31,
            }) || self.usage == (CapUsage::Range { usage_min: 0x31 })),
            field == Field::Tip <==> self.usage_page == 0x0D && (self.usage == (CapUsage::Single {
                usage: 0x42,
            }) || self.usage == (CapUsage::Range { usage_min: 0x42 })),
            field == Field::Id <==> self.usage_page == 0x0D && (self.usage == (CapUsage::Single {
                usage: 0x51,
            }) || self.usage == (CapUsage::Range { usage_min: 0x51 })),
    {
        let usage_page = self.usage_page;
        let usage = self.usage_code();
        if usage_page == HID_USAGE_PAGE_GENERIC {
            if usage == HID_USAGE_GENERIC_X {
                Field::X
            } else if usage == HID_USAGE_GENERIC_Y {
                Field::Y
            } else {
                Field::Other
            }
        } else if usage_page == HID_USAGE_PAGE_DIGITIZER {
            if usage == HID_USAGE_DIGITIZER_TIP_SWITCH {
                Field::Tip
            } else if usage == HID_USAGE_DIGITIZER_CONTACT_ID {
                Field::Id
            } else {
                Field::Other
            }
        } else {
            Field::Other
        }
    }
}

/// The raw range of the last of `caps` that has the given meaning; 0 to 1
/// where none has.
pub open spec fn last_range(caps: Seq<ValueCap>, field: Field) -> (i32, i32)
    decreases caps.len(),
{
    if caps.len() == 0 {
        (0, 1)
    } else if caps.last().meaning() == field {
        (caps.last().logical_min, caps.last().logical_max)
    } else {
        last_range(caps.drop_last(), field)
    }
}

/// The raw ranges of the two axes of a device with these value fields.
pub open spec fn ranges_of(caps: Seq<ValueCap>) -> AxisRanges {
    let x = last_range(caps, Field::X);
    let y = last_range(caps, Field::Y);
    AxisRanges { x_min: x.0, x_max: x.1, y_min: y.0, y_max: y.1 }
}

/// The raw ranges of the two axes, as the device's value fields declare them.
///
/// Where several fields declare an axis the last one counts. An axis that no
/// field declares runs from 0 to 1.
pub fn axis_ranges(caps: &Vec<ValueCap>) -> (ranges: AxisRanges)
    ensures
        ranges == ranges_of(caps@),
        forall|i: int|
            0 <= i < caps@.len() && (#[trigger] caps@[i]).usage_page == 0x01
                && caps@[i].lookup_usage() == 0x30 && (forall|j: int|
                i < j < caps@.len() ==> !((#[trigger] caps@[j]).usage_page == 0x01
                    && caps@[j].lookup_usage() == 0x30)) ==> ranges.x_min == caps@[i].logical_min
                && ranges.x_max == caps@[i].logical_max,
        forall|i: int|
            0 <= i < caps@.len() && (#[trigger] caps@[i]).usage_page == 0x01
                && caps@[i].lookup_usage() == 0x31 && (forall|j: int|
                i < j < caps@.len() ==> !((#[trigger] caps@[j]).usage_page == 0x01
                    && caps@[j].lookup_usage() == 0x31)) ==> ranges.y_min == caps@[i].logical_min
                && ranges.y_max == caps@[i].logical_max,
        (forall|j: int|
            0 <= j < caps@.len() ==> !((#[trigger] caps@[j]).usage_page == 0x01
                && caps@[j].lookup_usage() == 0x30)) ==> ranges.x_min == 0 && ranges.x_max == 1,
        (forall|j: int|
            0 <= j < caps@.len() ==> !((#[trigger] caps@[j]).usage_page == 0x01
                && caps@[j].lookup_usage() == 0x31)) ==> ranges.y_min == 0 && ranges.y_max == 1,
{
    let mut ranges = AxisRanges { x_min: 0, x_max: 1, y_min: 0, y_max: 1 };
    let mut i: usize = 0;
    while i < caps.len()
        invariant
            i <= caps.len(),
            ranges == ranges_of(caps@.take(i as int)),
        decreases caps.len() - i,
    {
        let cap = &caps[i];
        match cap.field() {
            Field::X => {
                ranges.x_min = cap.logical_min;
                ranges.x_max = cap.logical_max;
            },
            Field::Y => {
                ranges.y_min = cap.logical_min;
                ranges.y_max = cap.logical_max;
            },
            _ => {},
        }
        assert(caps@.take(i + 1).drop_last() =~= caps@.take(i as int));
        i += 1;
    }
    assert(caps@.take(i as int) =~= caps@);
    proof {
        law_the_last_declaration_of_an_axis_counts(caps@);
    }
    ranges
}

/// A field is looked up by its own usage, or by the first one of its range,
/// whatever else it declares.
pub proof fn law_a_field_is_looked_up_by_its_first_usage(cap: ValueCap, usage: u16)
    ensures
        cap.lookup_usage() == usage <==> cap.usage == (CapUsage::Single { usage }) || cap.usage == (
        CapUsage::Range { usage_min: usage }),
{
}

/// What a field means is told by its page and the usage that it is looked up
/// by, whatever its slot and its raw range are.
pub proof fn law_page_and_usage_tell_the_meaning(cap: ValueCap)
    ensures
        cap.meaning() == Field::X <==> cap.usage_page == 0x01 && cap.lookup_usage() == 0x30,
        cap.meaning() == Field::Y <==> cap.usage_page == 0x01 && cap.lookup_usage() == 0x31,
        cap.meaning() == Field::Tip <==> cap.usage_page == 0x0D && cap.lookup_usage() == 0x42,
        cap.meaning() == Field::Id <==> cap.usage_page == 0x0D && cap.lookup_usage() == 0x51,
{
}

/// The last of the fields with this meaning gives the range, whatever its
/// numbers are; the range is 0 to 1 where no field has the meaning.
proof fn lemma_last_range(caps: Seq<ValueCap>, field: Field, i: int)
    ensures
        0 <= i < caps.len() && caps[i].meaning() == field && (forall|j: int|
            i < j < caps.len() ==> (#[trigger] caps[j]).meaning() != field) ==> last_range(
            caps,
            field,
        ) == (caps[i].logical_min, caps[i].logical_max),
        (forall|j: int| 0 <= j < caps.len() ==> (#[trigger] caps[j]).meaning() != field)
            ==> last_range(caps, field) == (0i32, 1i32),
    decreases caps.len(),
{
    if caps.len() > 0 {
        let before = caps.drop_last();
        lemma_last_range(before, field, i);
        assert(forall|j: int| 0 <= j < before.len() ==> before[j] == caps[j]);
        assert(caps[caps.len() - 1] == caps.last());
    }
}

/// The raw range of an axis is the one that the last of its fields declares,
/// whatever the numbers are and whatever stands between the fields. It is 0 to
/// 1 where no field declares the axis.
pub proof fn law_the_last_declaration_of_an_axis_counts(caps: Seq<ValueCap>)
    ensures
        forall|i: int|
            0 <= i < caps.len() && (#[trigger] caps[i]).usage_page == 0x01
                && caps[i].lookup_usage() == 0x30 && (forall|j: int|
                i < j < caps.len() ==> !((#[trigger] caps[j]).usage_page == 0x01
                    && caps[j].lookup_usage() == 0x30)) ==> ranges_of(caps).x_min
                == caps[i].logical_min && ranges_of(caps).x_max == caps[i].logical_max,
        forall|i: int|
            0 <= i < caps.len() && (#[trigger] caps[i]).usage_page == 0x01
                && caps[i].lookup_usage() == 0x31 && (forall|j: int|
                i < j < caps.len() ==> !((#[trigger] caps[j]).usage_page == 0x01
                    && caps[j].lookup_usage() == 0x31)) ==> ranges_of(caps).y_min
                == caps[i].logical_min && ranges_of(caps).y_max == caps[i].logical_max,
        (forall|j: int|
            0 <= j < caps.len() ==> !((#[trigger] caps[j]).usage_page == 0x01
                && caps[j].lookup_usage() == 0x30)) ==> ranges_of(caps).x_min == 0 && ranges_of(
            caps,
        ).x_max == 1,
        (forall|j: int|
            0 <= j < caps.len() ==> !((#[trigger] caps[j]).usage_page == 0x01
                && caps[j].lookup_usage() == 0x31)) ==> ranges_of(caps).y_min == 0 && ranges_of(
            caps,
        ).y_max == 1,
{
    assert forall|j: int| 0 <= j < caps.len() implies {
        &&& (#[trigger] caps[j]).meaning() == Field::X <==> caps[j].usage_page == 0x01
            && caps[j].lookup_usage() == 0x30
        &&& caps[j].meaning() == Field::Y <==> caps[j].usage_page == 0x01
            && caps[j].lookup_usage() == 0x31
    } by {
        law_page_and_usage_tell_the_meaning(caps[j]);
    }
    assert forall|i: int|
        0 <= i < caps.len() && (#[trigger] caps[i]).usage_page == 0x01 && caps[i].lookup_usage()
            == 0x30 && (forall|j: int|
            i < j < caps.len() ==> !((#[trigger] caps[j]).usage_page == 0x01
                && caps[j].lookup_usage() == 0x30)) implies ranges_of(caps).x_min
        == caps[i].logical_min && ranges_of(caps).x_max == caps[i].logical_max by {
        lemma_last_range(caps, Field::X, i);
    }
    assert forall|i: int|
        0 <= i < caps.len() && (#[trigger] caps[i]).usage_page == 0x01 && caps[i].lookup_usage()
            == 0x31 && (forall|j: int|
            i < j < caps.len() ==> !((#[trigger] caps[j]).usage_page == 0x01
                && caps[j].lookup_usage() == 0x31)) implies ranges_of(caps).y_min
        == caps[i].logical_min && ranges_of(caps).y_max == caps[i].logical_max by {
        lemma_last_range(caps, Field::Y, i);
    }
    lemma_last_range(caps, Field::X, 0);
    lemma_last_range(caps, Field::Y, 0);
}

} // verus!
