use touchpad_raw::contact::{Contact, UsageList};
use touchpad_raw::debug_render::render_grid;
use touchpad_raw::decoder::{Decoder, Reply, Request, COPY_FAILED, RIM_TYPEHID};
use touchpad_raw::hid::{AxisRanges, CapUsage, ValueCap};

fn cap(usage_page: u16, usage: u16, link_collection: u16, logical_max: i32) -> ValueCap {
    ValueCap {
        usage_page,
        usage: CapUsage::Single { usage },
        link_collection,
        logical_min: 0,
        logical_max,
    }
}

/// Two finger slots and the contact count of the root collection.
fn pad_caps() -> Vec<ValueCap> {
    vec![
        cap(0x01, 0x30, 2, 3500),
        cap(0x01, 0x31, 2, 2000),
        cap(0x0D, 0x51, 2, 31),
        cap(0x01, 0x30, 1, 3500),
        cap(0x01, 0x31, 1, 2000),
        cap(0x0D, 0x51, 1, 31),
        cap(0x0D, 0x54, 0, 5),
    ]
}

fn tip(on: bool) -> Reply {
    let mut list = UsageList::new();
    list.slots[0] = 0x47;
    list.slots[1] = 0x42;
    list.len = if on { 2 } else { 1 };
    Reply::Usages(Some(list))
}

/// A decoder that has learned everything up to the device's value fields.
fn up_to_caps(report_count: u32, report_size: u32, data: Vec<u8>, caps: Vec<ValueCap>) -> Decoder {
    let count = caps.len() as u16;
    let decoder = Decoder::new();
    assert_eq!(decoder.request(), Request::RawSize);
    let decoder = decoder.advance(Reply::RawSize(64));
    assert_eq!(decoder.request(), Request::RawData { size: 64 });
    let decoder = decoder.advance(Reply::RawData(64));
    assert_eq!(decoder.request(), Request::DeviceType);
    let decoder = decoder.advance(Reply::DeviceType(RIM_TYPEHID));
    assert_eq!(decoder.request(), Request::Payload);
    let payload = Reply::Payload { report_count, report_size, data };
    assert!(decoder.accepts(&payload));
    let decoder = decoder.advance(payload);
    assert_eq!(decoder.request(), Request::PreparsedSize);
    let decoder = decoder.advance(Reply::PreparsedSize(900));
    assert_eq!(decoder.request(), Request::Preparsed { size: 900 });
    let decoder = decoder.advance(Reply::Preparsed);
    assert_eq!(decoder.request(), Request::ValueCapCount);
    let decoder = decoder.advance(Reply::ValueCapCount(count));
    assert_eq!(decoder.request(), Request::ValueCaps { count });
    assert!(decoder.ranges().is_none());
    decoder.advance(Reply::ValueCaps(caps))
}

#[test]
fn a_whole_message_is_decoded_and_drawn() {
    let mut decoder = up_to_caps(2, 3, vec![1, 2, 3, 4, 5, 6, 7], pad_caps());
    assert_eq!(
        decoder.ranges(),
        Some(AxisRanges { x_min: 0, x_max: 3500, y_min: 0, y_max: 2000 })
    );
    let mut drawn = Vec::new();
    let mut reports = Vec::new();
    loop {
        let reply = match decoder.request() {
            Request::Value { report, link_collection, usage, .. } => {
                reports.push(decoder.report_bytes().unwrap());
                Reply::Value(Some(report * 1000 + link_collection as u32 * 100 + usage as u32))
            }
            Request::Usages { usage_page, link_collection, .. } => {
                assert_eq!(usage_page, 0x0D);
                tip(link_collection == 1)
            }
            Request::Draw { report } => {
                let contacts = decoder.contacts().unwrap().clone();
                assert_eq!(decoder.frame(), Some(render_grid(&contacts, 0, 3500, 0, 2000)));
                drawn.push((report, contacts));
                Reply::Drawn
            }
            Request::Done => break,
            other => panic!("{other:?}"),
        };
        assert!(decoder.accepts(&reply));
        decoder = decoder.advance(reply);
    }
    assert_eq!(drawn.len(), 2);
    for (index, (report, contacts)) in drawn.iter().enumerate() {
        let base = index as u32 * 1000;
        assert_eq!(*report, index as u32);
        assert_eq!(contacts.keys().copied().collect::<Vec<_>>(), vec![1, 2]);
        assert_eq!(contacts[&1], Contact { x: base + 148, y: base + 149, tip: 1, id: base + 181 });
        assert_eq!(contacts[&2], Contact { x: base + 248, y: base + 249, tip: 0, id: base + 281 });
        assert!(render_grid(contacts, 0, 3500, 0, 2000).contains("contacts: 1 "));
    }
    assert_eq!(reports.len(), 14);
    assert!(reports[..7].iter().all(|bytes| *bytes == vec![1, 2, 3]));
    assert!(reports[7..].iter().all(|bytes| *bytes == vec![4, 5, 6]));
}

#[test]
fn fields_are_asked_for_in_order_and_slots_by_number() {
    let mut decoder = up_to_caps(1, 1, vec![0], pad_caps());
    for cap in pad_caps() {
        assert!(decoder.contacts().is_none());
        assert_eq!(
            decoder.request(),
            Request::Value {
                report: 0,
                usage_page: cap.usage_page,
                link_collection: cap.link_collection,
                usage: cap.usage_code(),
            }
        );
        decoder = decoder.advance(Reply::Value(Some(1)));
    }
    for link_collection in [1u16, 2] {
        assert!(decoder.contacts().is_none());
        assert_eq!(
            decoder.request(),
            Request::Usages { report: 0, usage_page: 0x0D, link_collection }
        );
        decoder = decoder.advance(Reply::Usages(None));
    }
    assert_eq!(decoder.request(), Request::Draw { report: 0 });
    assert_eq!(decoder.contacts().unwrap().len(), 2);
}

#[test]
fn fields_that_are_not_present_are_skipped() {
    let mut decoder = up_to_caps(1, 1, vec![0], pad_caps());
    for index in 0..7 {
        // Only the Y of slot 2 is there.
        let value = if index == 1 { Some(77) } else { None };
        decoder = decoder.advance(Reply::Value(value));
    }
    assert_eq!(
        decoder.request(),
        Request::Usages { report: 0, usage_page: 0x0D, link_collection: 2 }
    );
    decoder = decoder.advance(tip(true));
    let contacts = decoder.contacts().unwrap();
    assert_eq!(contacts.len(), 1);
    assert_eq!(contacts[&2], Contact { x: 0, y: 77, tip: 1, id: 0 });
}

#[test]
fn the_root_collection_alone_is_no_finger() {
    let decoder = up_to_caps(1, 1, vec![0], vec![cap(0x0D, 0x54, 0, 5)]);
    let decoder = decoder.advance(Reply::Value(Some(3)));
    assert_eq!(decoder.request(), Request::Draw { report: 0 });
    assert!(decoder.contacts().unwrap().is_empty());
}

#[test]
fn a_tip_given_as_a_value_stays_where_the_usages_cannot_be_read() {
    let caps = vec![cap(0x0D, 0x42, 1, 1), cap(0x0D, 0x42, 2, 1)];
    let mut decoder = up_to_caps(1, 1, vec![0], caps);
    decoder = decoder.advance(Reply::Value(Some(6)));
    decoder = decoder.advance(Reply::Value(Some(6)));
    decoder = decoder.advance(Reply::Usages(None));
    decoder = decoder.advance(tip(false));
    let contacts = decoder.contacts().unwrap();
    assert_eq!(contacts[&1].tip, 6);
    assert_eq!(contacts[&2].tip, 0);
}

#[test]
fn a_device_without_value_fields_draws_an_empty_pad() {
    let decoder = up_to_caps(2, 4, vec![0; 8], vec![]);
    assert_eq!(decoder.request(), Request::Draw { report: 0 });
    assert!(decoder.contacts().unwrap().is_empty());
    assert_eq!(
        decoder.ranges(),
        Some(AxisRanges { x_min: 0, x_max: 1, y_min: 0, y_max: 1 })
    );
    let decoder = decoder.advance(Reply::Drawn);
    assert_eq!(decoder.request(), Request::Draw { report: 1 });
    let decoder = decoder.advance(Reply::Drawn);
    assert_eq!(decoder.request(), Request::Done);
    assert!(decoder.report_bytes().is_none());
}

#[test]
fn a_report_whose_numbers_are_too_far_apart_has_no_frame() {
    let mut x = cap(0x01, 0x30, 1, i32::MAX);
    x.logical_min = -1;
    let decoder = up_to_caps(1, 1, vec![0], vec![x]).advance(Reply::Value(None));
    assert_eq!(decoder.request(), Request::Draw { report: 0 });
    assert_eq!(decoder.frame(), None);
}

#[test]
fn bad_messages_are_dropped() {
    let done = |decoder: Decoder| decoder.request() == Request::Done;
    let sized = || Decoder::new().advance(Reply::RawSize(64));
    let copied = || sized().advance(Reply::RawData(64));
    let typed = || copied().advance(Reply::DeviceType(2));
    let payload = |report_count, report_size| Reply::Payload {
        report_count,
        report_size,
        data: vec![0; 6],
    };
    assert!(done(Decoder::new().advance(Reply::RawSize(0))));
    assert!(done(sized().advance(Reply::RawData(COPY_FAILED))));
    assert!(done(copied().advance(Reply::DeviceType(0))));
    assert!(done(copied().advance(Reply::DeviceType(1))));
    assert!(done(typed().advance(payload(0, 6))));
    assert!(done(typed().advance(payload(1, 0))));
    assert!(done(typed().advance(payload(1, 6)).advance(Reply::PreparsedSize(0))));
}

#[test]
fn replies_that_do_not_fit_are_told() {
    let start = Decoder::new();
    assert!(start.accepts(&Reply::RawSize(0)));
    assert!(!start.accepts(&Reply::RawData(0)));
    assert!(!start.accepts(&Reply::Drawn));
    let typed = start
        .advance(Reply::RawSize(64))
        .advance(Reply::RawData(64))
        .advance(Reply::DeviceType(2));
    let payload = |report_count, report_size, bytes| Reply::Payload {
        report_count,
        report_size,
        data: vec![0; bytes],
    };
    assert!(typed.accepts(&payload(2, 3, 6)));
    assert!(!typed.accepts(&payload(2, 3, 5)));
    assert!(typed.accepts(&payload(0, 3, 0)));
    assert!(!typed.accepts(&payload(u32::MAX, u32::MAX, 6)));
    let counted = typed
        .advance(payload(1, 6, 6))
        .advance(Reply::PreparsedSize(1))
        .advance(Reply::Preparsed)
        .advance(Reply::ValueCapCount(1));
    assert!(!counted.accepts(&Reply::ValueCaps(vec![])));
    let reading = counted.advance(Reply::ValueCaps(vec![cap(0x01, 0x30, 1, 9)]));
    assert!(!reading.accepts(&Reply::Usages(None)));
    let tipping = reading.advance(Reply::Value(Some(4)));
    let mut list = UsageList::new();
    assert!(tipping.accepts(&Reply::Usages(Some(list))));
    list.len = 9;
    assert!(!tipping.accepts(&Reply::Usages(Some(list))));
    assert!(!tipping.accepts(&Reply::Drawn));
}

/// The frames that a message writes whose reports put the finger of slot 1 at
/// these coordinates.
fn output_of(coordinates: &[u32]) -> String {
    let count = coordinates.len() as u32;
    let mut decoder = up_to_caps(count, 1, vec![0; coordinates.len()], pad_caps());
    let mut text = String::new();
    loop {
        let reply = match decoder.request() {
            Request::Value { report, link_collection, .. } => {
                let value = coordinates[report as usize];
                Reply::Value(if link_collection == 1 { Some(value) } else { None })
            }
            Request::Usages { link_collection, .. } => tip(link_collection == 1),
            Request::Draw { .. } => {
                text.push_str(&decoder.frame().unwrap());
                Reply::Drawn
            }
            _ => return text,
        };
        decoder = decoder.advance(reply);
    }
}

#[test]
fn a_batch_writes_what_its_single_reports_write() {
    let batch = output_of(&[100, 1500, 900]);
    assert_eq!(batch, output_of(&[100]) + &output_of(&[1500]) + &output_of(&[900]));
    assert_eq!(batch.matches("\x1B[H").count(), 3);
    assert_ne!(output_of(&[100]), output_of(&[900]));
}
