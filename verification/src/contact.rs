//! The fingers of one report, by finger slot.

use std::collections::BTreeMap;
use vstd::prelude::*;

use crate::hid::{
    law_page_and_usage_tell_the_meaning, Field, ValueCap, HID_USAGE_DIGITIZER_TIP_SWITCH,
};

verus! {

/// Everything that one report says of one finger.
///
/// `x` and `y` are in the touchpad's own logical units. `tip` is nonzero while
/// the finger touches the pad; a slot that is unused or hovers has 0 there.
/// `id` is the touchpad's own number of the finger, which some devices reuse.
#[derive(Debug, Clone, Copy, PartialEq, Eq, Structural)]
pub struct Contact {
    pub x: u32,
    pub y: u32,
    pub tip: u32,
    pub id: u32,
}

/// A slot of which nothing is known yet.
pub open spec fn blank() -> Contact {
    Contact { x: 0, y: 0, tip: 0, id: 0 }
}

impl Default for Contact {
    fn default() -> (contact: Contact)
        ensures
            contact == blank(),
            contact.x == 0 && contact.y == 0 && contact.tip == 0 && contact.id == 0,
    {
        Contact { x: 0, y: 0, tip: 0, id: 0 }
    }
}

impl Contact {
    /// The contact with one field replaced.
    pub open spec fn with(self, field: Field, value: u32) -> Contact {
        match field {
            Field::X => Contact { x: value, ..self },
            Field::Y => Contact { y: value, ..self },
            Field::Tip => Contact { tip: value, ..self },
            Field::Id => Contact { id: value, ..self },
            Field::Other => self,
        }
    }
}

/// The contact of a slot; a blank one where the slot is not there.
pub open spec fn slot(contacts: Map<u16, Contact>, link: u16) -> Contact {
    if contacts.contains_key(link) {
        contacts[link]
    } else {
        blank()
    }
}

/// The contacts after one value field was read.
pub open spec fn recorded(contacts: Map<u16, Contact>, cap: ValueCap, value: u32) -> Map<
    u16,
    Contact,
> {
    contacts.insert(
        cap.link_collection,
        slot(contacts, cap.link_collection).with(cap.meaning(), value),
    )
}

/// The contact of a slot, where the slot is there.
pub fn contact_in(contacts: &BTreeMap<u16, Contact>, link: u16) -> (contact: Option<Contact>)
    ensures
        contact == if contacts@.contains_key(link) {
            Some(contacts@[link])
        } else {
            None
        },
{
    broadcast use vstd::laws_cmp::group_laws_cmp;

    match contacts.get(&link) {
        Some(contact) => Some(*contact),
        None => None,
    }
}

/// Enters the value that was read for a field into the contact of the field's
/// slot. The slot is there afterwards, whatever the field means.
pub fn record_value(contacts: &mut BTreeMap<u16, Contact>, cap: &ValueCap, value: u32)
    ensures
        final(contacts)@ == recorded(old(contacts)@, *cap, value),
        final(contacts)@.dom() == old(contacts)@.dom().insert(cap.link_collection),
        forall|link: u16|
            link != cap.link_collection && old(contacts)@.contains_key(link)
                ==> #[trigger] final(contacts)@[link] == old(contacts)@[link],
        ({
            let page = cap.usage_page;
            let usage = cap.lookup_usage();
            let known = old(contacts)@.contains_key(cap.link_collection);
            let before = old(contacts)@[cap.link_collection];
            let after = final(contacts)@[cap.link_collection];
            &&& after.x == if page == 0x01 && usage == 0x30 {
                value
            } else if known {
                before.x
            } else {
                0
            }
            &&& after.y == if page == 0x01 && usage == 0x31 {
                value
            } else if known {
                before.y
            } else {
                0
            }
            &&& after.tip == if page == 0x0D && usage == 0x42 {
                value
            } else if known {
                before.tip
            } else {
                0
            }
            &&& after.id == if page == 0x0D && usage == 0x51 {
                value
            } else if known {
                before.id
            } else {
                0
            }
        }),
{
    broadcast use vstd::laws_cmp::group_laws_cmp;

    let link = cap.link_collection;
    let mut contact = match contact_in(contacts, link) {
        Some(contact) => contact,
        None => Contact::default(),
    };
    match cap.field() {
        Field::X => {
            contact.x = value;
        },
        Field::Y => {
            contact.y = value;
        },
        Field::Tip => {
            contact.tip = value;
        },
        Field::Id => {
            contact.id = value;
        },
        Field::Other => {},
    }
    contacts.insert(link, contact);
}

/// The slots below `end` that are there, in ascending order.
pub open spec fn links_below(contacts: Map<u16, Contact>, end: nat) -> Seq<u16>
    decreases end,
{
    if end == 0 {
        Seq::empty()
    } else {
        let link = (end - 1) as u16;
        let below = links_below(contacts, (end - 1) as nat);
        if contacts.contains_key(link) {
            below.push(link)
        } else {
            below
        }
    }
}

/// All slots that are there, in ascending order.
pub open spec fn links_of(contacts: Map<u16, Contact>) -> Seq<u16> {
    links_below(contacts, 0x1_0000)
}

/// `links_below` lists the slots that are there, each once and in ascending
/// order.
pub proof fn lemma_links_below_listed(contacts: Map<u16, Contact>, end: nat)
    requires
        end <= 0x1_0000,
    ensures
        links_below(contacts, end).len() <= end,
        forall|i: int, j: int|
            0 <= i < j < links_below(contacts, end).len() ==> links_below(contacts, end)[i]
                < links_below(contacts, end)[j],
        forall|i: int|
            0 <= i < links_below(contacts, end).len() ==> #[trigger] links_below(contacts, end)[i]
                < end && contacts.contains_key(links_below(contacts, end)[i]),
        forall|link: u16|
            link < end && contacts.contains_key(link) ==> #[trigger] links_below(
                contacts,
                end,
            ).contains(link),
    decreases end,
{
    if end > 0 {
        let below = links_below(contacts, (end - 1) as nat);
        let links = links_below(contacts, end);
        lemma_links_below_listed(contacts, (end - 1) as nat);
        assert forall|link: u16| link < end && contacts.contains_key(link) implies #[trigger]
            links.contains(link) by {
            if link < end - 1 {
                assert(below.contains(link));
                let at = choose|i: int| 0 <= i < below.len() && below[i] == link;
                assert(links[at] == link);
            } else {
                assert(links[links.len() - 1] == link);
            }
        }
    }
}

/// An ascending sequence of the slots starts with the ones below `end`.
proof fn lemma_links_below(contacts: Map<u16, Contact>, links: Seq<u16>, end: nat) -> (count: nat)
    requires
        end <= 0x1_0000,
        forall|i: int, j: int| 0 <= i < j < links.len() ==> links[i] < links[j],
        forall|i: int| 0 <= i < links.len() ==> contacts.contains_key(#[trigger] links[i]),
        forall|link: u16| contacts.contains_key(link) ==> #[trigger] links.contains(link),
    ensures
        count <= links.len(),
        links_below(contacts, end) == links.take(count as int),
        forall|i: int| 0 <= i < count ==> links[i] < end,
        forall|i: int| count <= i < links.len() ==> links[i] >= end,
    decreases end,
{
    if end == 0 {
        assert(links.take(0) =~= Seq::empty());
        0
    } else {
        let link = (end - 1) as u16;
        let count = lemma_links_below(contacts, links, (end - 1) as nat);
        if contacts.contains_key(link) {
            assert(links.contains(link));
            let at = choose|j: int| 0 <= j < links.len() && links[j] == link;
            assert(at >= count) by {
                assert(links[at] == end - 1);
            }
            assert(at == count) by {
                if at > count {
                    assert(links[count as int] < links[at]);
                }
            }
            assert(links.take((count + 1) as int) =~= links.take(count as int).push(link));
            count + 1
        } else {
            count
        }
    }
}

/// The ascending sequence of the slots is unique.
pub proof fn lemma_links_of(contacts: Map<u16, Contact>, links: Seq<u16>)
    requires
        forall|i: int, j: int| 0 <= i < j < links.len() ==> links[i] < links[j],
        forall|i: int| 0 <= i < links.len() ==> contacts.contains_key(#[trigger] links[i]),
        forall|link: u16| contacts.contains_key(link) ==> #[trigger] links.contains(link),
    ensures
        links == links_of(contacts),
{
    let count = lemma_links_below(contacts, links, 0x1_0000);
    assert(count == links.len()) by {
        if count < links.len() {
            assert(links[count as int] >= 0x1_0000);
        }
    }
    assert(links.take(count as int) =~= links);
}

/// The slots that are there, in ascending order.
pub fn sorted_links(contacts: &BTreeMap<u16, Contact>) -> (links: Vec<u16>)
    ensures
        links@ == links_of(contacts@),
        forall|i: int, j: int| 0 <= i < j < links@.len() ==> links@[i] < links@[j],
        forall|link: u16| #[trigger] links@.contains(link) <==> contacts@.contains_key(link),
{
    broadcast use vstd::laws_cmp::group_laws_cmp;

    let mut links: Vec<u16> = Vec::new();
    for (link, _contact) in it: contacts.iter()
        invariant
            links.len() == it.index(),
            forall|i: int| 0 <= i < links.len() ==> links@[i] == *it.seq()[i].0,
    {
        links.push(*link);
    }
    proof {
        let pairs = vstd::std_specs::iter::IteratorSpec::remaining(&contacts.iter());
        let keys = pairs.map_values(|pair: (&u16, &Contact)| *pair.0);
        assert(links@ =~= keys);
        assert(vstd::std_specs::btree::increasing_seq(keys));
        assert forall|i: int, j: int| 0 <= i < j < links@.len() implies links@[i] < links@[j] by {
            assert(vstd::std_specs::cmp::OrdSpec::cmp_spec(&keys[i], &keys[j]) is Less);
        }
        assert forall|link: u16| contacts@.contains_key(link) implies #[trigger] links@.contains(
            link,
        ) by {
            assert(pairs.contains((&link, &contacts@[link])));
            let at = choose|i: int|
                0 <= i < pairs.len() && pairs[i] == (&link, &contacts@[link]);
            assert(links@[at] == link);
        }
        lemma_links_of(contacts@, links@);
        lemma_links_below_listed(contacts@, 0x1_0000);
    }
    links
}

/// The button usages that are on in one link collection: the first `len` of
/// `slots`.
#[derive(Debug, Clone, Copy)]
pub struct UsageList {
    pub slots: [u16; 8],
    pub len: u32,
}

impl UsageList {
    /// No more usages are claimed than there is room for.
    pub open spec fn wf(self) -> bool {
        self.len <= 8
    }

    /// A list with all its room free: this is how it is handed out to be
    /// filled, with `len` saying how much there is room for.
    pub fn new() -> (list: UsageList)
        ensures
            list.wf(),
            list.len == 8,
            list.slots@ == Seq::new(8, |i: int| 0u16),
    {
        let list = UsageList { slots: [0u16; 8], len: 8 };
        assert(list.slots@ =~= Seq::new(8, |i: int| 0u16));
        list
    }

    /// The usage is on.
    pub open spec fn is_on(self, usage: u16) -> bool {
        exists|i: int| 0 <= i < self.len && self.slots@[i] == usage
    }

    /// Whether the usage is on.
    pub fn contains(&self, usage: u16) -> (on: bool)
        requires
            self.wf(),
        ensures
            on == self.is_on(usage),
            on <==> exists|i: int| 0 <= i < self.len && #[trigger] self.slots@[i] == usage,
    {
        let mut i: u32 = 0;
        while i < self.len
            invariant
                self.wf(),
                i <= self.len,
                forall|j: int| 0 <= j < i ==> self.slots@[j] != usage,
            decreases self.len - i,
        {
            if self.slots[i as usize] == usage {
                assert(self.slots@[i as int] == usage);
                return true;
            }
            i += 1;
        }
        false
    }
}

/// The state of the tip switch: 1 where it is among the usages that are on, 0
/// where it is not, and what it was before where the usages could not be read.
pub open spec fn tip_state(before: u32, usages: Option<UsageList>) -> u32 {
    match usages {
        Some(list) => if list.is_on(HID_USAGE_DIGITIZER_TIP_SWITCH) {
            1
        } else {
            0
        },
        None => before,
    }
}

/// The contacts after the button usages of one slot were read.
pub open spec fn tipped(
    contacts: Map<u16, Contact>,
    link: u16,
    usages: Option<UsageList>,
) -> Map<u16, Contact> {
    if contacts.contains_key(link) {
        contacts.insert(
            link,
            Contact { tip: tip_state(contacts[link].tip, usages), ..contacts[link] },
        )
    } else {
        contacts
    }
}

/// Enters the state of the tip switch into the contact of a slot.
pub fn record_tip(contacts: &mut BTreeMap<u16, Contact>, link: u16, usages: &Option<UsageList>)
    requires
        usages matches Some(list) ==> list.wf(),
    ensures
        final(contacts)@ == tipped(old(contacts)@, link, *usages),
        final(contacts)@.dom() == old(contacts)@.dom(),
        forall|other: u16|
            other != link && old(contacts)@.contains_key(other)
                ==> #[trigger] final(contacts)@[other] == old(contacts)@[other],
        old(contacts)@.contains_key(link) ==> {
            let before = old(contacts)@[link];
            let after = final(contacts)@[link];
            &&& after.x == before.x && after.y == before.y && after.id == before.id
            &&& match *usages {
                Some(list) => {
                    &&& after.tip == 0 || after.tip == 1
                    &&& after.tip == 1 <==> exists|i: int|
                        0 <= i < list.len && #[trigger] list.slots@[i] == 0x42
                },
                None => after.tip == before.tip,
            }
        },
{
    broadcast use vstd::laws_cmp::group_laws_cmp;

    if let Some(list) = usages {
        let on = list.contains(HID_USAGE_DIGITIZER_TIP_SWITCH);
        if let Some(mut contact) = contact_in(contacts, link) {
            contact.tip = if on {
                1
            } else {
                0
            };
            contacts.insert(link, contact);
        }
    }
    assert(final(contacts)@ =~= tipped(old(contacts)@, link, *usages));
}

/// Some value field of the slot could be read. `values` holds what was read
/// for the first fields of `caps`, field by field.
pub open spec fn reported(caps: Seq<ValueCap>, values: Seq<Option<u32>>, link: u16) -> bool {
    exists|i: int|
        0 <= i < values.len() && (#[trigger] caps[i]).link_collection == link && values[i] is Some
}

/// The last value that was read for a slot in a field of the given meaning; 0
/// where there was none.
pub open spec fn latest(
    caps: Seq<ValueCap>,
    values: Seq<Option<u32>>,
    link: u16,
    field: Field,
) -> u32
    decreases values.len(),
{
    if values.len() == 0 {
        0
    } else {
        let cap = caps[values.len() - 1];
        match values.last() {
            Some(value) if cap.link_collection == link && cap.meaning() == field => value,
            _ => latest(caps, values.drop_last(), link, field),
        }
    }
}

/// The contacts that the values of the first fields of `caps` make: one for
/// each slot that was reported, with the last value of each of its fields.
pub open spec fn tallied(caps: Seq<ValueCap>, values: Seq<Option<u32>>) -> Map<u16, Contact> {
    Map::new(
        |link: u16| reported(caps, values, link),
        |link: u16|
            Contact {
                x: latest(caps, values, link, Field::X),
                y: latest(caps, values, link, Field::Y),
                tip: latest(caps, values, link, Field::Tip),
                id: latest(caps, values, link, Field::Id),
            },
    )
}

/// Reading one more field adds its value to the tally, or nothing where it
/// could not be read.
pub proof fn lemma_tallied_step(caps: Seq<ValueCap>, values: Seq<Option<u32>>, value: Option<u32>)
    requires
        values.len() < caps.len(),
    ensures
        tallied(caps, values.push(value)) == match value {
            Some(v) => recorded(tallied(caps, values), caps[values.len() as int], v),
            None => tallied(caps, values),
        },
{
    let before = tallied(caps, values);
    let after = tallied(caps, values.push(value));
    let cap = caps[values.len() as int];
    assert(values.push(value).drop_last() =~= values);
    assert forall|link: u16|
        reported(caps, values.push(value), link) == (reported(caps, values, link) || (value is Some
            && cap.link_collection == link)) by {
        if reported(caps, values, link) {
            let i = choose|i: int|
                0 <= i < values.len() && (#[trigger] caps[i]).link_collection == link
                    && values[i] is Some;
            assert(values.push(value)[i] is Some && caps[i].link_collection == link);
        }
        if value is Some && cap.link_collection == link {
            assert(values.push(value)[values.len() as int] is Some);
            assert(caps[values.len() as int].link_collection == link);
        }
        if reported(caps, values.push(value), link) {
            let i = choose|i: int|
                0 <= i < values.push(value).len() && (#[trigger] caps[i]).link_collection == link
                    && values.push(value)[i] is Some;
            if i < values.len() {
                assert(values[i] is Some && caps[i].link_collection == link);
            }
        }
    }
    if !reported(caps, values, cap.link_collection) {
        lemma_latest_unreported(caps, values, cap.link_collection, Field::X);
        lemma_latest_unreported(caps, values, cap.link_collection, Field::Y);
        lemma_latest_unreported(caps, values, cap.link_collection, Field::Tip);
        lemma_latest_unreported(caps, values, cap.link_collection, Field::Id);
    }
    match value {
        Some(v) => {
            assert(after =~= recorded(before, cap, v));
        },
        None => {
            assert(after =~= before);
        },
    }
}

/// A slot that was not reported has no value in any field.
proof fn lemma_latest_unreported(
    caps: Seq<ValueCap>,
    values: Seq<Option<u32>>,
    link: u16,
    field: Field,
)
    requires
        values.len() <= caps.len(),
        !reported(caps, values, link),
    ensures
        latest(caps, values, link, field) == 0,
    decreases values.len(),
{
    if values.len() > 0 {
        let last = values.len() - 1;
        assert(!(caps[last].link_collection == link && values[last] is Some));
        assert forall|i: int| 0 <= i < values.drop_last().len() implies !((
        #[trigger] caps[i]).link_collection == link && values.drop_last()[i] is Some) by {
            assert(!(caps[i].link_collection == link && values[i] is Some));
        }
        lemma_latest_unreported(caps, values.drop_last(), link, field);
    }
}

/// The contacts that the values of a whole report make. The root collection
/// is no finger and is left out.
pub open spec fn fingers(caps: Seq<ValueCap>, values: Seq<Option<u32>>) -> Map<u16, Contact> {
    tallied(caps, values).remove(0)
}

/// The contacts of a whole report: what the value fields say, with the tip
/// switch as the button usages give it. `usages` holds what was read for the
/// first slots, slot by slot in ascending order.
pub open spec fn decoded(
    caps: Seq<ValueCap>,
    values: Seq<Option<u32>>,
    usages: Seq<Option<UsageList>>,
) -> Map<u16, Contact> {
    let found = fingers(caps, values);
    Map::new(
        |link: u16| found.contains_key(link),
        |link: u16|
            {
                let at = links_of(found).index_of(link);
                if at < usages.len() {
                    Contact { tip: tip_state(found[link].tip, usages[at]), ..found[link] }
                } else {
                    found[link]
                }
            },
    )
}

/// Before any button usage is read, the contacts are what the values make.
pub proof fn lemma_decoded_start(caps: Seq<ValueCap>, values: Seq<Option<u32>>)
    ensures
        decoded(caps, values, Seq::empty()) == fingers(caps, values),
{
    let found = fingers(caps, values);
    lemma_links_below_listed(found, 0x1_0000);
    assert forall|link: u16| found.contains_key(link) implies links_of(found).index_of(link)
        >= 0 by {
        assert(links_of(found).contains(link));
    }
    assert(decoded(caps, values, Seq::empty()) =~= found);
}

/// Reading the button usages of one more slot sets the tip of that slot.
pub proof fn lemma_decoded_step(
    caps: Seq<ValueCap>,
    values: Seq<Option<u32>>,
    usages: Seq<Option<UsageList>>,
    reply: Option<UsageList>,
)
    requires
        usages.len() < links_of(fingers(caps, values)).len(),
    ensures
        decoded(caps, values, usages.push(reply)) == tipped(
            decoded(caps, values, usages),
            links_of(fingers(caps, values))[usages.len() as int],
            reply,
        ),
{
    let found = fingers(caps, values);
    let links = links_of(found);
    let link = links[usages.len() as int];
    let before = decoded(caps, values, usages);
    let after = decoded(caps, values, usages.push(reply));
    lemma_links_below_listed(found, 0x1_0000);
    assert forall|l: u16| found.contains_key(l) implies {
        &&& 0 <= links.index_of(l) < links.len()
        &&& links[links.index_of(l)] == l
    } by {
        assert(links.contains(l));
    }
    assert(links.index_of(link) == usages.len()) by {
        let at = links.index_of(link);
        if at < usages.len() {
            assert(links[at] < link);
        } else if at > usages.len() {
            assert(link < links[at]);
        }
    }
    assert forall|l: u16| found.contains_key(l) && l != link implies after[l] == before[l] by {
        assert(links.index_of(l) != usages.len());
    }
    assert(after =~= tipped(before, link, reply));
}

/// The fingers of a report are the slots of which some value field could be
/// read. The root collection, which wraps them all, is never one of them.
pub proof fn law_fingers_are_the_reported_slots(
    caps: Seq<ValueCap>,
    values: Seq<Option<u32>>,
    usages: Seq<Option<UsageList>>,
    link: u16,
)
    ensures
        decoded(caps, values, usages).contains_key(link) <==> link != 0 && reported(
            caps,
            values,
            link,
        ),
{
}

/// A finger's position and number are the last values of the fields that mean
/// them, and its tip switch is on exactly where the button usages of its slot
/// list it; where these could not be read, it is what the value fields say.
pub proof fn law_a_finger_is_what_its_fields_say(
    caps: Seq<ValueCap>,
    values: Seq<Option<u32>>,
    usages: Seq<Option<UsageList>>,
    at: int,
)
    requires
        usages.len() == links_of(fingers(caps, values)).len(),
        0 <= at < usages.len(),
    ensures
        ({
            let link = links_of(fingers(caps, values))[at];
            let finger = decoded(caps, values, usages)[link];
            &&& decoded(caps, values, usages).contains_key(link)
            &&& finger.x == latest(caps, values, link, Field::X)
            &&& finger.y == latest(caps, values, link, Field::Y)
            &&& finger.id == latest(caps, values, link, Field::Id)
            &&& match usages[at] {
                Some(list) => finger.tip == (if list.is_on(HID_USAGE_DIGITIZER_TIP_SWITCH) {
                    1u32
                } else {
                    0u32
                }),
                None => finger.tip == latest(caps, values, link, Field::Tip),
            }
        }),
{
    let found = fingers(caps, values);
    let links = links_of(found);
    lemma_links_below_listed(found, 0x1_0000);
    let index = links.index_of(links[at]);
    assert(links.contains(links[at]));
    assert(index == at) by {
        if index < at {
            assert(links[index] < links[at]);
        } else if index > at {
            assert(links[at] < links[index]);
        }
    }
}

/// A field of this slot with this page and usage could be read.
spec fn was_read(
    caps: Seq<ValueCap>,
    values: Seq<Option<u32>>,
    link: u16,
    page: u16,
    usage: u16,
    i: int,
) -> bool {
    &&& values[i] is Some
    &&& caps[i].link_collection == link
    &&& caps[i].usage_page == page
    &&& caps[i].lookup_usage() == usage
}

/// The value of the last field with this page and usage that could be read in
/// the slot counts; it is 0 where none could.
proof fn lemma_latest(
    caps: Seq<ValueCap>,
    values: Seq<Option<u32>>,
    link: u16,
    field: Field,
    page: u16,
    usage: u16,
)
    requires
        values.len() <= caps.len(),
        forall|cap: ValueCap| #[trigger]
            cap.meaning() == field <==> cap.lookup_usage() == usage && cap.usage_page == page,
    ensures
        forall|i: int|
            0 <= i < values.len() && (#[trigger] caps[i]).link_collection == link
                && caps[i].usage_page == page && caps[i].lookup_usage() == usage && values[i]
                is Some && (forall|j: int|
                i < j < values.len() && values[j] is Some && (
                #[trigger] caps[j]).link_collection == link ==> !(caps[j].usage_page == page
                    && caps[j].lookup_usage() == usage)) ==> Some(
                latest(caps, values, link, field),
            ) == values[i],
        (forall|j: int|
            0 <= j < values.len() && values[j] is Some && (
            #[trigger] caps[j]).link_collection == link ==> !(caps[j].usage_page == page
                && caps[j].lookup_usage() == usage)) ==> latest(caps, values, link, field) == 0,
{
    assert forall|i: int|
        0 <= i < values.len() && (#[trigger] caps[i]).link_collection == link
            && caps[i].usage_page == page && caps[i].lookup_usage() == usage && values[i] is Some
            && (forall|j: int|
            i < j < values.len() && values[j] is Some && (#[trigger] caps[j]).link_collection
                == link ==> !(caps[j].usage_page == page && caps[j].lookup_usage()
                == usage)) implies Some(latest(caps, values, link, field)) == values[i] by {
        assert forall|j: int| i < j < values.len() implies !(#[trigger] was_read(
            caps,
            values,
            link,
            page,
            usage,
            j,
        )) by {
            assert(caps[j] == caps[j]);
        }
        lemma_latest_at(caps, values, link, field, page, usage, i);
    }
    if forall|j: int|
        0 <= j < values.len() && values[j] is Some && (#[trigger] caps[j]).link_collection == link
            ==> !(caps[j].usage_page == page && caps[j].lookup_usage() == usage) {
        assert forall|j: int| -1 < j < values.len() implies !(#[trigger] was_read(
            caps,
            values,
            link,
            page,
            usage,
            j,
        )) by {
            assert(caps[j] == caps[j]);
        }
        lemma_latest_at(caps, values, link, field, page, usage, -1);
    }
}

/// The value of the field at `i`, or 0 where `i` is before them all, counts
/// where no such field behind it could be read.
proof fn lemma_latest_at(
    caps: Seq<ValueCap>,
    values: Seq<Option<u32>>,
    link: u16,
    field: Field,
    page: u16,
    usage: u16,
    i: int,
)
    requires
        values.len() <= caps.len(),
        forall|cap: ValueCap| #[trigger]
            cap.meaning() == field <==> cap.lookup_usage() == usage && cap.usage_page == page,
        -1 <= i < values.len(),
        i >= 0 ==> was_read(caps, values, link, page, usage, i),
        forall|j: int|
            i < j < values.len() ==> !(#[trigger] was_read(caps, values, link, page, usage, j)),
    ensures
        latest(caps, values, link, field) == if i >= 0 {
            values[i].unwrap()
        } else {
            0
        },
    decreases values.len(),
{
    let last = values.len() - 1;
    if i < last {
        let before = values.drop_last();
        assert(!was_read(caps, values, link, page, usage, last));
        assert forall|j: int| i < j < before.len() implies !(#[trigger] was_read(
            caps,
            before,
            link,
            page,
            usage,
            j,
        )) by {
            assert(!was_read(caps, values, link, page, usage, j));
        }
        lemma_latest_at(caps, before, link, field, page, usage, i);
    }
}

/// A finger's position and number are what was read in the fields that declare
/// them for its slot, by page and usage: the last such field that could be read
/// counts, and the number is 0 where none could. The fields of other slots and
/// the button usages have no part in it.
pub proof fn law_a_fingers_numbers_come_from_its_own_fields(
    caps: Seq<ValueCap>,
    values: Seq<Option<u32>>,
    usages: Seq<Option<UsageList>>,
    link: u16,
)
    requires
        values.len() <= caps.len(),
        decoded(caps, values, usages).contains_key(link),
    ensures
        forall|i: int|
            0 <= i < values.len() && (#[trigger] caps[i]).link_collection == link
                && caps[i].usage_page == 0x01 && caps[i].lookup_usage() == 0x30 && values[i]
                is Some && (forall|j: int|
                i < j < values.len() && values[j] is Some && (
                #[trigger] caps[j]).link_collection == link ==> !(caps[j].usage_page == 0x01
                    && caps[j].lookup_usage() == 0x30)) ==> Some(
                decoded(caps, values, usages)[link].x,
            ) == values[i],
        forall|i: int|
            0 <= i < values.len() && (#[trigger] caps[i]).link_collection == link
                && caps[i].usage_page == 0x01 && caps[i].lookup_usage() == 0x31 && values[i]
                is Some && (forall|j: int|
                i < j < values.len() && values[j] is Some && (
                #[trigger] caps[j]).link_collection == link ==> !(caps[j].usage_page == 0x01
                    && caps[j].lookup_usage() == 0x31)) ==> Some(
                decoded(caps, values, usages)[link].y,
            ) == values[i],
        forall|i: int|
            0 <= i < values.len() && (#[trigger] caps[i]).link_collection == link
                && caps[i].usage_page == 0x0D && caps[i].lookup_usage() == 0x51 && values[i]
                is Some && (forall|j: int|
                i < j < values.len() && values[j] is Some && (
                #[trigger] caps[j]).link_collection == link ==> !(caps[j].usage_page == 0x0D
                    && caps[j].lookup_usage() == 0x51)) ==> Some(
                decoded(caps, values, usages)[link].id,
            ) == values[i],
        (forall|j: int|
            0 <= j < values.len() && values[j] is Some && (
            #[trigger] caps[j]).link_collection == link ==> !(caps[j].usage_page == 0x01
                && caps[j].lookup_usage() == 0x30)) ==> decoded(caps, values, usages)[link].x == 0,
        (forall|j: int|
            0 <= j < values.len() && values[j] is Some && (
            #[trigger] caps[j]).link_collection == link ==> !(caps[j].usage_page == 0x01
                && caps[j].lookup_usage() == 0x31)) ==> decoded(caps, values, usages)[link].y == 0,
        (forall|j: int|
            0 <= j < values.len() && values[j] is Some && (
            #[trigger] caps[j]).link_collection == link ==> !(caps[j].usage_page == 0x0D
                && caps[j].lookup_usage() == 0x51)) ==> decoded(caps, values, usages)[link].id == 0,
{
    assert forall|cap: ValueCap| {
        &&& #[trigger] cap.meaning() == Field::X <==> cap.usage_page == 0x01
            && cap.lookup_usage() == 0x30
        &&& cap.meaning() == Field::Y <==> cap.usage_page == 0x01 && cap.lookup_usage() == 0x31
        &&& cap.meaning() == Field::Id <==> cap.usage_page == 0x0D && cap.lookup_usage() == 0x51
    } by {
        law_page_and_usage_tell_the_meaning(cap);
    }
    lemma_latest(caps, values, link, Field::X, 0x01, 0x30);
    lemma_latest(caps, values, link, Field::Y, 0x01, 0x31);
    lemma_latest(caps, values, link, Field::Id, 0x0D, 0x51);
}

/// The finger slots of a report in ascending order: the slots, but for the root
/// collection, of which some value field could be read.
pub open spec fn lists_fingers(
    links: Seq<u16>,
    caps: Seq<ValueCap>,
    values: Seq<Option<u32>>,
) -> bool {
    &&& forall|i: int, j: int| 0 <= i < j < links.len() ==> links[i] < links[j]
    &&& forall|link: u16| #[trigger]
        links.contains(link) <==> link != 0 && exists|i: int|
            0 <= i < values.len() && (#[trigger] caps[i]).link_collection == link && values[i]
                is Some
}

/// There is exactly one such list.
pub proof fn lemma_fingers_listed(links: Seq<u16>, caps: Seq<ValueCap>, values: Seq<Option<u32>>)
    ensures
        lists_fingers(links, caps, values) <==> links == links_of(fingers(caps, values)),
{
    let found = fingers(caps, values);
    lemma_links_below_listed(found, 0x1_0000);
    assert forall|link: u16| found.contains_key(link) <==> link != 0 && exists|i: int|
        0 <= i < values.len() && (#[trigger] caps[i]).link_collection == link && values[i]
            is Some by {
        law_fingers_are_the_reported_slots(caps, values, Seq::empty(), link);
    }
    if lists_fingers(links, caps, values) {
        assert forall|i: int| 0 <= i < links.len() implies found.contains_key(
            #[trigger] links[i],
        ) by {
            assert(links.contains(links[i]));
        }
        lemma_links_of(found, links);
    }
    if links == links_of(found) {
        assert forall|link: u16| #[trigger] links.contains(link) implies found.contains_key(
            link,
        ) by {
            let i = choose|i: int| 0 <= i < links.len() && links[i] == link;
            assert(found.contains_key(links[i]));
        }
    }
}

/// There is a contact for each slot, but for the root collection, of which some
/// value field could be read, and for no other.
pub proof fn law_every_reported_slot_is_a_finger(
    caps: Seq<ValueCap>,
    values: Seq<Option<u32>>,
    usages: Seq<Option<UsageList>>,
    link: u16,
)
    ensures
        decoded(caps, values, usages).contains_key(link) <==> link != 0 && exists|i: int|
            0 <= i < values.len() && (#[trigger] caps[i]).link_collection == link && values[i]
                is Some,
{
    law_fingers_are_the_reported_slots(caps, values, usages, link);
}

/// The button usages that were read for the n-th finger slot in ascending order
/// set the tip switch of that slot: to 1 where the usage of the tip switch is
/// among them and to 0 where it is not. Where they were not read, the last
/// value field that declares the tip switch counts.
pub proof fn law_a_fingers_tip_comes_from_its_own_usages(
    caps: Seq<ValueCap>,
    values: Seq<Option<u32>>,
    usages: Seq<Option<UsageList>>,
    links: Seq<u16>,
    at: int,
)
    requires
        values.len() <= caps.len(),
        lists_fingers(links, caps, values),
        0 <= at < links.len(),
    ensures
        decoded(caps, values, usages).contains_key(links[at]),
        ({
            let tip = decoded(caps, values, usages)[links[at]].tip;
            if at < usages.len() && usages[at] is Some {
                let list = usages[at].unwrap();
                &&& tip == 0 || tip == 1
                &&& tip == 1 <==> exists|i: int|
                    0 <= i < list.len && #[trigger] list.slots@[i] == 0x42
            } else {
                &&& forall|i: int|
                    0 <= i < values.len() && (#[trigger] caps[i]).link_collection == links[at]
                        && caps[i].usage_page == 0x0D && caps[i].lookup_usage() == 0x42 && values[i]
                        is Some && (forall|j: int|
                        i < j < values.len() && values[j] is Some && (
                        #[trigger] caps[j]).link_collection == links[at] ==> !(caps[j].usage_page
                            == 0x0D && caps[j].lookup_usage() == 0x42)) ==> Some(tip) == values[i]
                &&& (forall|j: int|
                    0 <= j < values.len() && values[j] is Some && (
                    #[trigger] caps[j]).link_collection == links[at] ==> !(caps[j].usage_page
                        == 0x0D && caps[j].lookup_usage() == 0x42)) ==> tip == 0
            }
        }),
{
    let found = fingers(caps, values);
    let link = links[at];
    lemma_fingers_listed(links, caps, values);
    lemma_links_below_listed(found, 0x1_0000);
    assert(links.contains(link));
    let index = links.index_of(link);
    assert(index == at) by {
        if index < at {
            assert(links[index] < links[at]);
        } else if index > at {
            assert(links[at] < links[index]);
        }
    }
    assert forall|cap: ValueCap| #[trigger] cap.meaning() == Field::Tip <==> cap.lookup_usage()
        == 0x42 && cap.usage_page == 0x0D by {
        law_page_and_usage_tell_the_meaning(cap);
    }
    lemma_latest(caps, values, link, Field::Tip, 0x0D, 0x42);
    assert(found.contains_key(link));
    if at < usages.len() && usages[at] is Some {
        let list = usages[at].unwrap();
        assert(list.is_on(0x42) <==> exists|i: int|
            0 <= i < list.len && #[trigger] list.slots@[i] == 0x42);
    }
}

/// A field that could not be read leaves the contacts as if it did not exist.
pub proof fn law_an_unread_field_changes_nothing(caps: Seq<ValueCap>, values: Seq<Option<u32>>)
    requires
        values.len() < caps.len(),
    ensures
        tallied(caps, values.push(None)) == tallied(caps, values),
{
    lemma_tallied_step(caps, values, None);
}

} // verus!
