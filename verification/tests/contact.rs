use std::collections::BTreeMap;

use touchpad_raw::contact::{contact_in, record_tip, record_value, sorted_links, Contact, UsageList};
use touchpad_raw::hid::{CapUsage, ValueCap};

fn cap(usage_page: u16, usage: u16, link_collection: u16) -> ValueCap {
    ValueCap {
        usage_page,
        usage: CapUsage::Single { usage },
        link_collection,
        logical_min: 0,
        logical_max: 1,
    }
}

#[test]
fn a_new_contact_is_all_zero() {
    assert_eq!(Contact::default(), Contact { x: 0, y: 0, tip: 0, id: 0 });
}

#[test]
fn values_go_into_the_fields_that_they_mean() {
    let mut contacts = BTreeMap::new();
    record_value(&mut contacts, &cap(0x01, 0x30, 2), 100);
    record_value(&mut contacts, &cap(0x01, 0x31, 2), 200);
    record_value(&mut contacts, &cap(0x0D, 0x42, 2), 1);
    record_value(&mut contacts, &cap(0x0D, 0x51, 2), 7);
    assert_eq!(contacts.len(), 1);
    assert_eq!(contacts[&2], Contact { x: 100, y: 200, tip: 1, id: 7 });
    record_value(&mut contacts, &cap(0x01, 0x30, 2), 101);
    assert_eq!(contacts[&2], Contact { x: 101, y: 200, tip: 1, id: 7 });
}

#[test]
fn any_field_brings_its_slot_into_being() {
    let mut contacts = BTreeMap::new();
    record_value(&mut contacts, &cap(0x0D, 0x54, 9), 3);
    assert_eq!(contact_in(&contacts, 9), Some(Contact::default()));
    assert_eq!(contact_in(&contacts, 8), None);
}

#[test]
fn slots_are_listed_in_ascending_order() {
    let mut contacts = BTreeMap::new();
    for link in [300u16, 2, u16::MAX, 0, 17] {
        record_value(&mut contacts, &cap(0x01, 0x30, link), link as u32);
    }
    assert_eq!(sorted_links(&contacts), vec![0, 2, 17, 300, u16::MAX]);
}

#[test]
fn a_new_list_of_usages_has_room_for_eight() {
    let list = UsageList::new();
    assert_eq!(list.len, 8);
    assert_eq!(list.slots, [0; 8]);
}

#[test]
fn only_the_claimed_part_of_the_list_counts() {
    let mut list = UsageList::new();
    list.slots = [0x47, 0x42, 0, 0, 0, 0, 0, 0x51];
    list.len = 2;
    assert!(list.contains(0x42));
    assert!(list.contains(0x47));
    assert!(!list.contains(0x51));
    list.len = 1;
    assert!(!list.contains(0x42));
    list.len = 8;
    assert!(list.contains(0x51));
    list.len = 0;
    assert!(!list.contains(0x47));
}

#[test]
fn the_tip_follows_the_button_usages() {
    let mut contacts = BTreeMap::new();
    contacts.insert(1u16, Contact { x: 5, y: 6, tip: 9, id: 2 });
    let mut list = UsageList::new();
    list.slots[0] = 0x42;
    list.len = 1;
    record_tip(&mut contacts, 1, &Some(list));
    assert_eq!(contacts[&1], Contact { x: 5, y: 6, tip: 1, id: 2 });
    list.len = 0;
    record_tip(&mut contacts, 1, &Some(list));
    assert_eq!(contacts[&1], Contact { x: 5, y: 6, tip: 0, id: 2 });
}

#[test]
fn unreadable_usages_and_unknown_slots_change_nothing() {
    let mut contacts = BTreeMap::new();
    contacts.insert(1u16, Contact { x: 5, y: 6, tip: 9, id: 2 });
    record_tip(&mut contacts, 1, &None);
    assert_eq!(contacts[&1], Contact { x: 5, y: 6, tip: 9, id: 2 });
    let mut list = UsageList::new();
    list.slots[0] = 0x42;
    record_tip(&mut contacts, 4, &Some(list));
    assert_eq!(contacts.len(), 1);
}
